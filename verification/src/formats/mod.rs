//! Text formats around the canonical model.

pub mod mermaid;
pub mod dot;
pub mod d2;
pub mod drawio;
pub mod plantuml;

use vstd::prelude::*;
use crate::text::{all_ascii, ascii_lower, chars_of, ends_with, lowercase, str_eq, to_lowercase, string_from};
use crate::ir::{document_mermaid, printable, Document, IrError};

verus! {

/// Concrete serialization format.
#[derive(Clone, Copy, Debug, PartialEq, Eq, Structural)]
pub enum Format {
    Mermaid,
    JsonIr,
    Dot,
    D2,
    PlantUml,
    DrawIo,
}

/// A format that this library reads and writes as text: every format but
/// JSON IR, which a serde layer around the library handles.
#[derive(Clone, Copy, Debug, PartialEq, Eq, Structural)]
pub enum TextFormat {
    Mermaid,
    Dot,
    D2,
    PlantUml,
    DrawIo,
}

/// The text format a format is, if any.
pub open spec fn text_of(f: Format) -> Option<TextFormat> {
    match f {
        Format::Mermaid => Some(TextFormat::Mermaid),
        Format::JsonIr => None,
        Format::Dot => Some(TextFormat::Dot),
        Format::D2 => Some(TextFormat::D2),
        Format::PlantUml => Some(TextFormat::PlantUml),
        Format::DrawIo => Some(TextFormat::DrawIo),
    }
}

/// The format a text format is.
pub open spec fn format_of_text(t: TextFormat) -> Format {
    match t {
        TextFormat::Mermaid => Format::Mermaid,
        TextFormat::Dot => Format::Dot,
        TextFormat::D2 => Format::D2,
        TextFormat::PlantUml => Format::PlantUml,
        TextFormat::DrawIo => Format::DrawIo,
    }
}

impl TextFormat {
    /// The general format this text format is.
    pub fn format(self) -> (r: Format)
        ensures
            r == format_of_text(self),
            text_of(r) == Some(self),
    {
        match self {
            TextFormat::Mermaid => Format::Mermaid,
            TextFormat::Dot => Format::Dot,
            TextFormat::D2 => Format::D2,
            TextFormat::PlantUml => Format::PlantUml,
            TextFormat::DrawIo => Format::DrawIo,
        }
    }
}

pub open spec fn format_word(w: Seq<char>) -> Option<Format> {
    if w == "mermaid"@ || w == "mmd"@ {
        Some(Format::Mermaid)
    } else if w == "json"@ || w == "ir"@ || w == "json-ir"@ || w == "json_ir"@ {
        Some(Format::JsonIr)
    } else if w == "dot"@ || w == "graphviz"@ || w == "gv"@ {
        Some(Format::Dot)
    } else if w == "d2"@ || w == "d2lang"@ {
        Some(Format::D2)
    } else if w == "plantuml"@ || w == "puml"@ {
        Some(Format::PlantUml)
    } else if w == "drawio"@ || w == "draw.io"@ || w == "draw-io"@ || w == "mxgraph"@ {
        Some(Format::DrawIo)
    } else {
        None
    }
}

/// Every format's name reads back as that format, in any ASCII letter case:
/// lower-casing it gives the name again, and the name is a word of the format.
pub proof fn law_format_name_parses(f: Format)
    ensures
        all_ascii(format_name(f)),
        format_name(f).map_values(|c: char| ascii_lower(c)) == format_name(f),
        format_word(format_name(f)) == Some(f),
{
    reveal_strlit("mermaid");
    reveal_strlit("mmd");
    reveal_strlit("json");
    reveal_strlit("ir");
    reveal_strlit("json-ir");
    reveal_strlit("json_ir");
    reveal_strlit("dot");
    reveal_strlit("graphviz");
    reveal_strlit("gv");
    reveal_strlit("d2");
    reveal_strlit("d2lang");
    reveal_strlit("plantuml");
    reveal_strlit("puml");
    reveal_strlit("drawio");
    reveal_strlit("draw.io");
    reveal_strlit("draw-io");
    reveal_strlit("mxgraph");
    assert(format_name(f).map_values(|c: char| ascii_lower(c)) =~= format_name(f));
    assert("mermaid"@[0] == 'm' && "mermaid"@[1] == 'e');
    assert("mmd"@[0] == 'm' && "mmd"@[1] == 'm');
    assert("json"@[0] == 'j' && "json"@[1] == 's');
    assert("ir"@[0] == 'i' && "ir"@[1] == 'r');
    assert("json-ir"@[0] == 'j' && "json-ir"@[1] == 's');
    assert("json_ir"@[0] == 'j' && "json_ir"@[1] == 's');
    assert("dot"@[0] == 'd' && "dot"@[1] == 'o');
    assert("graphviz"@[0] == 'g' && "graphviz"@[1] == 'r');
    assert("gv"@[0] == 'g' && "gv"@[1] == 'v');
    assert("d2"@[0] == 'd' && "d2"@[1] == '2');
    assert("d2lang"@[0] == 'd' && "d2lang"@[1] == '2');
    assert("plantuml"@[0] == 'p' && "plantuml"@[1] == 'l');
    assert("puml"@[0] == 'p' && "puml"@[1] == 'u');
    assert("drawio"@[0] == 'd' && "drawio"@[1] == 'r');
    assert("draw.io"@[0] == 'd' && "draw.io"@[1] == 'r');
    assert("draw-io"@[0] == 'd' && "draw-io"@[1] == 'r');
    assert("mxgraph"@[0] == 'm' && "mxgraph"@[1] == 'x');
}

pub open spec fn format_name(f: Format) -> Seq<char> {
    match f {
        Format::Mermaid => "mermaid"@,
        Format::JsonIr => "json"@,
        Format::Dot => "dot"@,
        Format::D2 => "d2"@,
        Format::PlantUml => "plantuml"@,
        Format::DrawIo => "drawio"@,
    }
}

/// The format an output path's extension asks for (Mermaid by default).
pub open spec fn output_format(lower: Seq<char>) -> Format {
    if ".json"@.is_suffix_of(lower) {
        Format::JsonIr
    } else if ".dot"@.is_suffix_of(lower) || ".gv"@.is_suffix_of(lower) {
        Format::Dot
    } else if ".d2"@.is_suffix_of(lower) {
        Format::D2
    } else if ".puml"@.is_suffix_of(lower) || ".plantuml"@.is_suffix_of(lower) {
        Format::PlantUml
    } else if ".drawio"@.is_suffix_of(lower) || ".xml"@.is_suffix_of(lower) {
        Format::DrawIo
    } else {
        Format::Mermaid
    }
}

pub(crate) fn has_suffix(s: &[char], suffix: &str) -> (b: bool)
    ensures
        b == suffix@.is_suffix_of(s@),
{
    ends_with(s, chars_of(suffix).as_slice())
}

impl Format {
    /// A format by name, case-insensitively.
    pub fn parse(s: &str) -> (r: Option<Format>)
        ensures
            r == format_word(lowercase(s@)),
            all_ascii(s@) ==> r == format_word(s@.map_values(|c: char| ascii_lower(c))),
    {
        let low = to_lowercase(s);
        let w = low.as_str();
        if str_eq(w, "mermaid") || str_eq(w, "mmd") {
            Some(Format::Mermaid)
        } else if str_eq(w, "json") || str_eq(w, "ir") || str_eq(w, "json-ir") || str_eq(w, "json_ir") {
            Some(Format::JsonIr)
        } else if str_eq(w, "dot") || str_eq(w, "graphviz") || str_eq(w, "gv") {
            Some(Format::Dot)
        } else if str_eq(w, "d2") || str_eq(w, "d2lang") {
            Some(Format::D2)
        } else if str_eq(w, "plantuml") || str_eq(w, "puml") {
            Some(Format::PlantUml)
        } else if str_eq(w, "drawio") || str_eq(w, "draw.io") || str_eq(w, "draw-io") || str_eq(w, "mxgraph") {
            Some(Format::DrawIo)
        } else {
            None
        }
    }

    /// The text format this is; `None` for JSON IR.
    pub fn as_text(self) -> (r: Option<TextFormat>)
        ensures
            r == text_of(self),
    {
        match self {
            Format::Mermaid => Some(TextFormat::Mermaid),
            Format::JsonIr => None,
            Format::Dot => Some(TextFormat::Dot),
            Format::D2 => Some(TextFormat::D2),
            Format::PlantUml => Some(TextFormat::PlantUml),
            Format::DrawIo => Some(TextFormat::DrawIo),
        }
    }

    pub fn as_str(self) -> (r: &'static str)
        ensures
            r@ == format_name(self),
    {
        match self {
            Format::Mermaid => "mermaid",
            Format::JsonIr => "json",
            Format::Dot => "dot",
            Format::D2 => "d2",
            Format::PlantUml => "plantuml",
            Format::DrawIo => "drawio",
        }
    }

    /// The format an output path's extension asks for (Mermaid by default).
    pub fn from_output_path(path: &str) -> (r: Format)
        ensures
            r == output_format(lowercase(path@)),
    {
        let low = to_lowercase(path);
        let l = chars_of(low.as_str());
        let s = l.as_slice();
        if has_suffix(s, ".json") {
            Format::JsonIr
        } else if has_suffix(s, ".dot") || has_suffix(s, ".gv") {
            Format::Dot
        } else if has_suffix(s, ".d2") {
            Format::D2
        } else if has_suffix(s, ".puml") || has_suffix(s, ".plantuml") {
            Format::PlantUml
        } else if has_suffix(s, ".drawio") || has_suffix(s, ".xml") {
            Format::DrawIo
        } else {
            Format::Mermaid
        }
    }
}


/// The format a path's extension names, when it names one.
pub open spec fn path_format(lower: Seq<char>) -> Format {
    if ".json"@.is_suffix_of(lower) {
        Format::JsonIr
    } else if ".dot"@.is_suffix_of(lower) || ".gv"@.is_suffix_of(lower) {
        Format::Dot
    } else if ".d2"@.is_suffix_of(lower) {
        Format::D2
    } else if ".puml"@.is_suffix_of(lower) || ".plantuml"@.is_suffix_of(lower) {
        Format::PlantUml
    } else if ".drawio"@.is_suffix_of(lower) {
        Format::DrawIo
    } else {
        Format::Mermaid
    }
}

/// The format of source text, from its content first and then the path.
pub open spec fn detect_format(src: Seq<char>, path: Option<Seq<char>>) -> Format {
    if "{"@.is_prefix_of(crate::text::trim_start(src)) {
        Format::JsonIr
    } else if drawio::drawio_like(src) {
        Format::DrawIo
    } else if plantuml::plantuml_like(src) {
        Format::PlantUml
    } else if dot::dot_like(src) {
        Format::Dot
    } else if path is None && mermaid::mermaid_like(src) {
        Format::Mermaid
    } else if d2::d2_like(src) {
        Format::D2
    } else {
        match path {
            Some(p) => path_format(lowercase(p)),
            None => Format::Mermaid,
        }
    }
}

/// Detect the format from content and an optional path.
pub fn detect(source: &str, path: Option<&str>) -> (r: Format)
    ensures
        r == detect_format(source@, match path {
            Some(p) => Some(p@),
            None => None,
        }),
{
    let cs = chars_of(source);
    let k = crate::text::trim_start_index(cs.as_slice());
    let t = &cs.as_slice()[k..cs.len()];
    if crate::text::starts_with(t, chars_of("{").as_slice()) {
        return Format::JsonIr;
    }
    if drawio::is_drawio(source) {
        return Format::DrawIo;
    }
    if plantuml::is_plantuml(source) {
        return Format::PlantUml;
    }
    if dot::is_dot(source) {
        return Format::Dot;
    }
    if path.is_none() && mermaid::looks_like_mermaid(source) {
        return Format::Mermaid;
    }
    if d2::is_d2(source) {
        return Format::D2;
    }
    match path {
        Some(p) => {
            let low = to_lowercase(p);
            let l = chars_of(low.as_str());
            let s = l.as_slice();
            if has_suffix(s, ".json") {
                Format::JsonIr
            } else if has_suffix(s, ".dot") || has_suffix(s, ".gv") {
                Format::Dot
            } else if has_suffix(s, ".d2") {
                Format::D2
            } else if has_suffix(s, ".puml") || has_suffix(s, ".plantuml") {
                Format::PlantUml
            } else if has_suffix(s, ".drawio") {
                Format::DrawIo
            } else {
                Format::Mermaid
            }
        },
        None => Format::Mermaid,
    }
}


/// What importing text in a format gives, per reader.
pub open spec fn import_result(src: Seq<char>, format: TextFormat, r: Result<Document, IrError>) -> bool {
    match format {
        TextFormat::Mermaid => mermaid::document_result(src, r),
        TextFormat::Dot => match dot::dot_parse(src) {
            Ok(st) => r matches Ok(doc) && doc.version == crate::ir::CURRENT_VERSION && doc.diagrams@.len() == 1
                && (doc.diagrams@[0] matches crate::ir::Diagram::Flowchart(d) && dot::dot_diagram(d, st)),
            Err(m) => r matches Err(e) && e.message@ == m,
        },
        TextFormat::D2 => match d2::d2_parse(src) {
            Ok(st) => r matches Ok(doc) && doc.version == crate::ir::CURRENT_VERSION && doc.diagrams@.len() == 1
                && (doc.diagrams@[0] matches crate::ir::Diagram::Flowchart(d) && d2::d2_diagram(d, st)),
            Err(m) => r matches Err(e) && e.message@ == m,
        },
        TextFormat::PlantUml => match plantuml::puml_document_err(src) {
            Some(m) => r matches Err(e) && e.message@ == m,
            None => r matches Ok(doc) && plantuml::puml_document_ok(src, doc),
        },
        TextFormat::DrawIo => match drawio::drawio_parse(src) {
            Ok(gs) => r matches Ok(doc) && doc.version == crate::ir::CURRENT_VERSION && doc.diagrams@.len() == gs.len()
                && forall|k: int| 0 <= k < gs.len() ==> (#[trigger] doc.diagrams@[k] matches crate::ir::Diagram::Flowchart(d) && drawio::is_page_of(d, gs[k])),
            Err(m) => r matches Err(e) && e.message@ == m,
        },
    }
}

/// Import source text in the given text format.
pub fn import_str(source: &str, format: TextFormat) -> (r: Result<Document, IrError>)
    ensures
        import_result(source@, format, r),
{
    match format {
        TextFormat::Mermaid => mermaid::parse_to_document(source),
        TextFormat::Dot => dot::parse_to_document(source),
        TextFormat::D2 => d2::parse_to_document(source),
        TextFormat::PlantUml => plantuml::parse_to_document(source),
        TextFormat::DrawIo => drawio::parse_to_document(source),
    }
}

/// The text a document exports to in a format, or the error.
pub open spec fn export_text(ds: Seq<crate::ir::Diagram>, format: TextFormat) -> Result<Seq<char>, Seq<char>> {
    match format {
        TextFormat::Mermaid => document_mermaid(ds),
        TextFormat::Dot => dot::dot_text(ds),
        TextFormat::D2 => d2::d2_text(ds),
        TextFormat::PlantUml => plantuml::puml_document_text(ds),
        TextFormat::DrawIo => drawio::drawio_text(ds),
    }
}

/// Export a document to the given format.
pub fn export_str(doc: &Document, format: TextFormat) -> (r: Result<String, IrError>)
    requires
        format == TextFormat::Mermaid ==> forall|i: int| 0 <= i < doc.diagrams@.len() ==> printable(#[trigger] doc.diagrams@[i]),
    ensures
        match export_text(doc.diagrams@, format) {
            Ok(t) => r matches Ok(s) && s@ == t,
            Err(m) => r matches Err(e) && e.message@ == m,
        },
{
    match format {
        TextFormat::Mermaid => match doc.to_mermaid() {
            Ok(s) => Ok(s),
            Err(m) => Err(IrError { message: m }),
        },
        TextFormat::Dot => dot::export_document(doc),
        TextFormat::D2 => d2::export_document(doc),
        TextFormat::PlantUml => plantuml::export_document(doc),
        TextFormat::DrawIo => drawio::export_document(doc),
    }
}

} // verus!
