//! Source code into diagrams: languages, kinds and errors.

pub mod rust_lang;
pub mod syntax;
pub mod typescript_lang;

use vstd::prelude::*;
use crate::text::{chars_of, lowercase, push_chars, rfind_char, rfind_char_slice, str_eq, string_from, to_lowercase};

verus! {

/// Source language understood by the code generator.
#[derive(Clone, Copy, Debug, PartialEq, Eq, Structural)]
pub enum Language {
    Rust,
    TypeScript,
}

pub open spec fn language_word(w: Seq<char>) -> Option<Language> {
    if w == "rust"@ || w == "rs"@ {
        Some(Language::Rust)
    } else if w == "typescript"@ || w == "ts"@ {
        Some(Language::TypeScript)
    } else {
        None
    }
}

pub open spec fn language_ext(w: Seq<char>) -> Option<Language> {
    if w == "rs"@ {
        Some(Language::Rust)
    } else if w == "ts"@ {
        Some(Language::TypeScript)
    } else {
        None
    }
}

impl Language {
    /// A language by name, case-insensitively.
    pub fn parse(s: &str) -> (r: Option<Language>)
        ensures
            r == language_word(lowercase(s@)),
    {
        let low = to_lowercase(s);
        let w = low.as_str();
        if str_eq(w, "rust") || str_eq(w, "rs") {
            Some(Language::Rust)
        } else if str_eq(w, "typescript") || str_eq(w, "ts") {
            Some(Language::TypeScript)
        } else {
            None
        }
    }

    pub fn as_str(self) -> (r: &'static str)
        ensures
            r@ == match self {
                Language::Rust => "rust"@,
                Language::TypeScript => "typescript"@,
            },
    {
        match self {
            Language::Rust => "rust",
            Language::TypeScript => "typescript",
        }
    }

    /// The language of a file extension, case-insensitively.
    pub fn from_extension(ext: &str) -> (r: Option<Language>)
        ensures
            r == language_ext(lowercase(ext@)),
    {
        let low = to_lowercase(ext);
        let w = low.as_str();
        if str_eq(w, "rs") {
            Some(Language::Rust)
        } else if str_eq(w, "ts") {
            Some(Language::TypeScript)
        } else {
            None
        }
    }
}

/// Diagram kind produced from a source file.
#[derive(Clone, Copy, Debug, PartialEq, Eq, Structural)]
pub enum CodeKind {
    /// Class diagram from struct/enum/trait/impl items.
    Class,
    /// Module / file tree as a flowchart with subgraphs.
    Tree,
    /// Function call graph as a flowchart.
    Call,
}

pub open spec fn code_kind_word(w: Seq<char>) -> Option<CodeKind> {
    if w == "class"@ || w == "classes"@ {
        Some(CodeKind::Class)
    } else if w == "tree"@ || w == "module-tree"@ || w == "modules"@ {
        Some(CodeKind::Tree)
    } else if w == "call"@ || w == "calls"@ || w == "callgraph"@ {
        Some(CodeKind::Call)
    } else {
        None
    }
}

impl CodeKind {
    /// A kind by name, case-insensitively.
    pub fn parse(s: &str) -> (r: Option<CodeKind>)
        ensures
            r == code_kind_word(lowercase(s@)),
    {
        let low = to_lowercase(s);
        let w = low.as_str();
        if str_eq(w, "class") || str_eq(w, "classes") {
            Some(CodeKind::Class)
        } else if str_eq(w, "tree") || str_eq(w, "module-tree") || str_eq(w, "modules") {
            Some(CodeKind::Tree)
        } else if str_eq(w, "call") || str_eq(w, "calls") || str_eq(w, "callgraph") {
            Some(CodeKind::Call)
        } else {
            None
        }
    }

    pub fn as_str(self) -> (r: &'static str)
        ensures
            r@ == match self {
                CodeKind::Class => "class"@,
                CodeKind::Tree => "tree"@,
                CodeKind::Call => "call"@,
            },
    {
        match self {
            CodeKind::Class => "class",
            CodeKind::Tree => "tree",
            CodeKind::Call => "call",
        }
    }
}

/// Code-generation errors.
#[derive(Clone, Debug)]
pub struct CodeGenError {
    pub message: String,
}

/// The last component of a path (after the last `/`).
pub open spec fn file_name(p: Seq<char>) -> Seq<char> {
    match rfind_char(p, '/') {
        Some(i) => p.subrange(i + 1, p.len() as int),
        None => p,
    }
}

/// A path's extension: what follows the last `.` of its file name, when
/// that `.` is not the name's first character.
pub open spec fn extension(p: Seq<char>) -> Option<Seq<char>> {
    let name = file_name(p);
    match rfind_char(name, '.') {
        Some(i) => if i > 0 {
            Some(name.subrange(i + 1, name.len() as int))
        } else {
            None
        },
        None => None,
    }
}

fn extension_exec(p: &[char]) -> (r: Option<Vec<char>>)
    ensures
        match extension(p@) {
            Some(e) => r matches Some(v) && v@ == e,
            None => r is None,
        },
{
    let pn = p.len();
    let name: &[char] = match rfind_char_slice(p, '/') {
        Some(i) => &p[i + 1..pn],
        None => p,
    };
    assert(name@ == file_name(p@));
    let nn = name.len();
    match rfind_char_slice(name, '.') {
        Some(i) => if i > 0 {
            Some(crate::text::slice_to_vec(&name[i + 1..nn]))
        } else {
            None
        },
        None => None,
    }
}

/// The language of a call: the named one when given, else the one the
/// file's extension implies.
pub fn resolve_language(path: &str, lang: Option<&str>) -> (r: Result<Language, CodeGenError>)
    ensures
        match lang {
            Some(s) => match language_word(lowercase(s@)) {
                Some(l) => r == Ok::<Language, CodeGenError>(l),
                None => r matches Err(e) && e.message@ == "unsupported language '"@ + s@
                    + "'; supported: rust, typescript"@,
            },
            None => match extension(path@) {
                None => r matches Err(e) && e.message@ == "'"@ + path@
                    + "' has no extension; pass lang (rust|typescript)"@,
                Some(ext) => match language_ext(lowercase(ext)) {
                    Some(l) => r == Ok::<Language, CodeGenError>(l),
                    None => r matches Err(e) && e.message@ == "unsupported source extension '."@ + ext
                        + "'; pass lang (supported: rs, ts)"@,
                },
            },
        },
{
    if let Some(s) = lang {
        return match Language::parse(s) {
            Some(l) => Ok(l),
            None => {
                let mut m = string_from("unsupported language '");
                m.append(s);
                m.append("'; supported: rust, typescript");
                Err(CodeGenError { message: m })
            },
        };
    }
    let cs = chars_of(path);
    match extension_exec(cs.as_slice()) {
        None => {
            let mut m = string_from("'");
            m.append(path);
            m.append("' has no extension; pass lang (rust|typescript)");
            Err(CodeGenError { message: m })
        },
        Some(ext) => {
            let es = crate::text::string_of(ext.as_slice());
            match Language::from_extension(es.as_str()) {
                Some(l) => Ok(l),
                None => {
                    let mut m = string_from("unsupported source extension '.");
                    m.append(es.as_str());
                    m.append("'; pass lang (supported: rs, ts)");
                    Err(CodeGenError { message: m })
                },
            }
        },
    }
}

/// The diagram of a source file in `language`: tree-sitter parses it and the
/// diagram is read off the syntax tree.
pub fn from_source(source: &str, language: Language, kind: CodeKind) -> (r: Result<crate::ir::Document, CodeGenError>)
    ensures
        r matches Ok(d) && match language {
            Language::Rust => rust_lang::read_off_source(d, source@, kind),
            Language::TypeScript => typescript_lang::read_off_source(d, source@, kind),
        },
{
    match language {
        Language::Rust => rust_lang::extract(source, kind),
        Language::TypeScript => typescript_lang::extract(source, kind),
    }
}

} // verus!
