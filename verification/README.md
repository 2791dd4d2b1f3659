# diagram

A diagram toolkit whose core is verified with Verus: text formats for
flowcharts and UML-style diagrams (Mermaid, Graphviz DOT, D2, PlantUML,
draw.io), a common document model, editing operations on flowcharts, diffs,
metrics, lossiness reports, ASCII rendering, Markdown fence processing, and
diagrams read off Rust and TypeScript sources through tree-sitter.

Layout:

- `src/` — the library. Every parser is stated as spec functions over
  characters and each executable function is proved against them. Laws
  beside the code state what holds across calls: graph edits keep edges
  connected; merges only add; a document diffs against itself as unchanged
  where no class id repeats with different stereotypes; where exporting to
  a text format succeeds, the lossiness report calls it supported (for
  PlantUML, on documents with a sequence or class diagram), and for DOT,
  D2, draw.io and non-empty Mermaid exactly then; a flowchart's Mermaid text reads back as its nodes and
  edges (`readback.rs`, for bare-word ids and texts with no arrow token,
  bracket, quote or bar), every arrow style reads back as itself, and a
  document of such flowcharts reads back diagram by diagram; a sequence
  diagram of participants and messages reads back as itself
  (`seq_readback.rs`), and so do an ER diagram whose entities have
  attributes (`er_readback.rs`) and a class diagram without notes
  (`class_readback.rs`); a state diagram reads back as its transitions and
  the same set of states (`state_readback.rs`); merging is stated exactly; a source text
  determines its syntax tree; format and shape names read back as what they
  name. `formats::import_str` and `export_str` take the text formats; JSON IR
  is read and written by serde in `app/`. Calls into tree-sitter and a few
  std functions go through small trusted wrappers in `codegen/syntax.rs` and
  `text.rs`, whose doc comments say what is claimed of them.
- `tests/` — tests of the library on concrete inputs.
- `app/` — the `diagram` command-line tool: argument handling, files, the
  preview server, JSON IR through serde, and SVG/PNG/PDF rendering, whose
  layout works in floating point.
