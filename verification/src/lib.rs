//! Diagram model, parsers and format adapters with verified contracts.

pub mod text;
pub mod diagram;
pub mod styling;
pub mod parser;
pub mod readback;
pub mod sequence;
pub mod seq_readback;
pub mod class;
pub mod class_readback;
pub mod state;
pub mod state_readback;
pub mod er;
pub mod er_readback;
pub mod gantt;
pub mod theme;
pub mod ir;
pub mod formats;
pub mod generate;
pub mod pdf;
pub mod png;
pub mod codegen;
pub mod lossiness;
pub mod markdown;
pub mod preview;
pub mod graph_ops;
pub mod analyze;
pub mod ascii;
