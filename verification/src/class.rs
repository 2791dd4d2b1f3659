//! Mermaid class diagrams: model, parser and Mermaid output.

use vstd::prelude::*;
use crate::text::{
    alphanumeric, chars_of, eq_slice, ends_with, find, find_char, find_char_from, find_char_slice, flat,
    is_alphanumeric, join, keep_content, kept_numbered, lemma_find_char_from, lemma_flat_all,
    lemma_flat_step, lemma_trim_idempotent, lines, numbered, numbered_lines, push_chars,
    rfind_char, rfind_char_slice, slice_to_vec, split_char, split_char_slice, split_once,
    split_once_exec, starts_with, string_of, strip_prefix, strip_prefix_exec, trim, trim_end,
    trim_slice, trim_start, trim_start_index, views, seqs,
};

verus! {

#[derive(Clone, Copy, Debug, PartialEq, Eq, Structural)]
pub enum RelationKind {
    /// `A <|-- B`: B inherits from A
    Inheritance,
    /// `A *-- B`
    Composition,
    /// `A o-- B`
    Aggregation,
    /// `A --> B`
    Association,
    /// `A -- B`
    Link,
    /// `A ..> B`
    Dependency,
    /// `A ..|> B`
    Realization,
}

pub open spec fn relation_token(k: RelationKind) -> Seq<char> {
    match k {
        RelationKind::Inheritance => "<|--"@,
        RelationKind::Composition => "*--"@,
        RelationKind::Aggregation => "o--"@,
        RelationKind::Association => "-->"@,
        RelationKind::Link => "--"@,
        RelationKind::Dependency => "..>"@,
        RelationKind::Realization => "..|>"@,
    }
}

impl RelationKind {
    /// The Mermaid token of a relation.
    pub fn mermaid_str(self) -> (r: &'static str)
        ensures
            r@ == relation_token(self),
    {
        match self {
            RelationKind::Inheritance => "<|--",
            RelationKind::Composition => "*--",
            RelationKind::Aggregation => "o--",
            RelationKind::Association => "-->",
            RelationKind::Link => "--",
            RelationKind::Dependency => "..>",
            RelationKind::Realization => "..|>",
        }
    }

    /// Drawn with a dashed line.
    pub fn dashed(self) -> (r: bool)
        ensures
            r == (self == RelationKind::Dependency || self == RelationKind::Realization),
    {
        match self {
            RelationKind::Dependency | RelationKind::Realization => true,
            _ => false,
        }
    }
}

#[derive(Clone, Debug)]
pub struct ClassMember {
    pub text: String,
}

#[derive(Clone, Debug)]
pub struct Class {
    pub id: String,
    pub members: Vec<ClassMember>,
    /// Stereotype such as `interface`.
    pub stereotype: Option<String>,
}

#[derive(Clone, Debug)]
pub struct Relation {
    pub from: String,
    pub to: String,
    pub kind: RelationKind,
    pub label: String,
    /// Cardinality on the `from` side.
    pub from_card: Option<String>,
    /// Cardinality on the `to` side.
    pub to_card: Option<String>,
}

#[derive(Clone, Debug)]
pub struct ClassNote {
    /// Id of the class the note is attached to.
    pub target: String,
    pub text: String,
}

#[derive(Clone, Debug)]
pub struct ClassDiagram {
    pub classes: Vec<Class>,
    pub relations: Vec<Relation>,
    pub notes: Vec<ClassNote>,
}

#[derive(Clone, Debug)]
pub struct ParseError {
    pub message: String,
    pub line: Option<usize>,
}

// ---------------------------------------------------------------- values

pub open spec fn ostr(o: Option<String>) -> Option<Seq<char>> {
    match o {
        Some(s) => Some(s@),
        None => None,
    }
}

pub type ClassV = (Seq<char>, Seq<Seq<char>>, Option<Seq<char>>);

pub type RelV = (Seq<char>, Seq<char>, RelationKind, Seq<char>, Option<Seq<char>>, Option<Seq<char>>);

pub open spec fn members_v(m: Seq<ClassMember>) -> Seq<Seq<char>> {
    Seq::new(m.len(), |i: int| m[i].text@)
}

pub open spec fn class_v(c: Class) -> ClassV {
    (c.id@, members_v(c.members@), ostr(c.stereotype))
}

pub open spec fn rel_v(r: Relation) -> RelV {
    (r.from@, r.to@, r.kind, r.label@, ostr(r.from_card), ostr(r.to_card))
}

/// A class diagram as values.
#[verifier::ext_equal]
pub ghost struct ClassDiagramV {
    pub classes: Seq<ClassV>,
    pub relations: Seq<RelV>,
    pub notes: Seq<(Seq<char>, Seq<char>)>,
}

pub open spec fn cd_v(d: ClassDiagram) -> ClassDiagramV {
    ClassDiagramV {
        classes: Seq::new(d.classes@.len(), |i: int| class_v(d.classes@[i])),
        relations: Seq::new(d.relations@.len(), |i: int| rel_v(d.relations@[i])),
        notes: Seq::new(d.notes@.len(), |i: int| (d.notes@[i].target@, d.notes@[i].text@)),
    }
}

// ---------------------------------------------------------------- grammar

/// `Foo <<interface>>`: id and stereotype.
pub open spec fn split_id_stereotype(s0: Seq<char>) -> (Seq<char>, Option<Seq<char>>) {
    let s = trim(s0);
    match find(s, "<<"@) {
        Some(open) => {
            let after = s.subrange(open + 2, s.len() as int);
            match find(after, ">>"@) {
                Some(close) => {
                    let id = trim(s.subrange(0, open));
                    let st = trim(after.subrange(0, close));
                    if id.len() == 0 || st.len() == 0 {
                        (s, None)
                    } else {
                        (id, Some(st))
                    }
                },
                None => (s, None),
            }
        },
        None => (s, None),
    }
}

/// `<<name>>` alone on a line: the stereotype name.
pub open spec fn stereotype_only(s0: Seq<char>) -> Option<Seq<char>> {
    let s = trim(s0);
    if !("<<"@.is_prefix_of(s)) || !(">>"@.is_suffix_of(s)) || s.len() < 5 {
        None
    } else {
        let inner = trim(s.subrange(2, s.len() - 2));
        if inner.len() == 0 {
            None
        } else {
            Some(inner)
        }
    }
}

/// Text of a quoted note from index `i`, with backslash escapes; `None` when
/// the closing quote is missing.
pub open spec fn unescape_from(s: Seq<char>, i: int, out: Seq<char>) -> Option<Seq<char>>
    decreases s.len() - i,
{
    if i < 0 || i >= s.len() {
        None
    } else if s[i] == '\\' {
        if i + 1 < s.len() {
            unescape_from(s, i + 2, out.push(s[i + 1]))
        } else {
            None
        }
    } else if s[i] == '"' {
        Some(out)
    } else {
        unescape_from(s, i + 1, out.push(s[i]))
    }
}

/// `"text"` with escapes.
pub open spec fn quoted_note_text(s0: Seq<char>) -> Option<Seq<char>> {
    let s = trim(s0);
    if s.len() == 0 || s[0] != '"' {
        None
    } else {
        unescape_from(s, 1, Seq::empty())
    }
}

/// `note for Target "text"`.
pub open spec fn class_note(text: Seq<char>) -> Option<(Seq<char>, Seq<char>)> {
    match strip_prefix(text, "note for "@) {
        Some(r0) => {
            let s = trim_start(r0);
            if s.len() > 0 && s[0] == '"' {
                None
            } else {
                match find_char(s, '"') {
                    Some(q) => {
                        let target = trim(s.subrange(0, q));
                        match quoted_note_text(trim_start(s.subrange(q, s.len() as int))) {
                            Some(t) => if target.len() == 0 || t.len() == 0 {
                                None
                            } else {
                                Some((target, t))
                            },
                            None => None,
                        }
                    },
                    None => None,
                }
            }
        },
        None => None,
    }
}

/// `Customer "1"`: id and trailing quoted cardinality.
pub open spec fn split_trailing_quoted(s0: Seq<char>) -> Option<(Seq<char>, Seq<char>)> {
    let s = trim(s0);
    if s.len() == 0 || s.last() != '"' {
        None
    } else {
        let inner_end = s.len() - 1;
        match rfind_char(s.subrange(0, inner_end), '"') {
            Some(start) => {
                let id = trim(s.subrange(0, start));
                let card = trim(s.subrange(start + 1, inner_end));
                if id.len() == 0 {
                    None
                } else {
                    Some((id, card))
                }
            },
            None => None,
        }
    }
}

/// `"*" Ticket`: leading quoted cardinality and id.
pub open spec fn split_leading_quoted(s0: Seq<char>) -> Option<(Seq<char>, Seq<char>)> {
    let s = trim(s0);
    if s.len() == 0 || s[0] != '"' {
        None
    } else {
        match find_char(s.subrange(1, s.len() as int), '"') {
            Some(e) => {
                let end = e + 1;
                let card = trim(s.subrange(1, end));
                let id = trim(s.subrange(end + 1, s.len() as int));
                if id.len() == 0 {
                    None
                } else {
                    Some((card, id))
                }
            },
            None => None,
        }
    }
}

pub open spec fn left_endpoint(s0: Seq<char>) -> (Seq<char>, Option<Seq<char>>) {
    match split_trailing_quoted(trim(s0)) {
        Some((id, card)) => (id, Some(card)),
        None => (trim(s0), None),
    }
}

pub open spec fn right_endpoint(s0: Seq<char>) -> (Seq<char>, Option<Seq<char>>) {
    match split_leading_quoted(trim(s0)) {
        Some((card, id)) => (id, Some(card)),
        None => (trim(s0), None),
    }
}

/// A relation written with one token: `Some(None)` when an endpoint is empty.
pub open spec fn relation_with(text: Seq<char>, kind: RelationKind) -> Option<Option<RelV>> {
    match split_once(text, relation_token(kind)) {
        Some((left, right)) => {
            let (to_raw, label) = match split_once(right, ":"@) {
                Some((t, l)) => (trim(t), trim(l)),
                None => (trim(right), Seq::empty()),
            };
            let (from, from_card) = left_endpoint(trim(left));
            let (to, to_card) = right_endpoint(to_raw);
            if from.len() == 0 || to.len() == 0 {
                Some(None)
            } else {
                Some(Some((from, to, kind, label, from_card, to_card)))
            }
        },
        None => None,
    }
}

/// Relation kinds in the order they are tried (longest tokens first).
pub open spec fn relation_order() -> Seq<RelationKind> {
    seq![
        RelationKind::Realization,
        RelationKind::Inheritance,
        RelationKind::Composition,
        RelationKind::Aggregation,
        RelationKind::Association,
        RelationKind::Dependency,
        RelationKind::Link,
    ]
}

pub open spec fn relation_from(text: Seq<char>, k: int) -> Option<RelV>
    decreases 7 - k,
{
    if k < 0 || k >= 7 {
        None
    } else {
        match relation_with(text, relation_order()[k]) {
            Some(r) => r,
            None => relation_from(text, k + 1),
        }
    }
}

/// A relation line.
pub open spec fn relation_line(text: Seq<char>) -> Option<RelV> {
    relation_from(text, 0)
}

/// A character allowed in the id of `Id : member`.
pub open spec fn member_id_char(c: char) -> bool {
    alphanumeric(c) || c == '_' || c == '-' || c == '~'
}

/// `Id : member`.
pub open spec fn member_annotation(text: Seq<char>) -> Option<(Seq<char>, Seq<char>)> {
    match split_once(text, " : "@) {
        Some((left, right)) => {
            let id = trim(left);
            let m = trim(right);
            if id.len() > 0 && m.len() > 0 && forall|i: int| 0 <= i < id.len() ==> member_id_char(#[trigger] id[i]) {
                Some((id, m))
            } else {
                None
            }
        },
        None => None,
    }
}

// ---------------------------------------------------------------- state

pub open spec fn has_class(cs: Seq<ClassV>, id: Seq<char>) -> bool {
    exists|i: int| 0 <= i < cs.len() && (#[trigger] cs[i]).0 == id
}

pub open spec fn ensure_class(cs: Seq<ClassV>, id: Seq<char>) -> Seq<ClassV> {
    if has_class(cs, id) {
        cs
    } else {
        cs.push((id, Seq::empty(), None))
    }
}

/// Set the stereotype of the class with this id when it has none.
pub open spec fn set_stereotype(cs: Seq<ClassV>, id: Seq<char>, st: Option<Seq<char>>) -> Seq<ClassV> {
    match st {
        Some(s) => Seq::new(cs.len(), |i: int| if cs[i].0 == id && cs[i].2 is None {
            (cs[i].0, cs[i].1, Some(s))
        } else {
            cs[i]
        }),
        None => cs,
    }
}

/// Add a member to the class with this id.
pub open spec fn add_member(cs: Seq<ClassV>, id: Seq<char>, m: Seq<char>) -> Seq<ClassV> {
    Seq::new(cs.len(), |i: int| if cs[i].0 == id {
        (cs[i].0, cs[i].1.push(m), cs[i].2)
    } else {
        cs[i]
    })
}

/// A body line: a `<<stereotype>>` or a member.
pub open spec fn member_or_stereotype(cs: Seq<ClassV>, id: Seq<char>, text: Seq<char>) -> Seq<ClassV> {
    let t = trim(text);
    match stereotype_only(t) {
        Some(st) => set_stereotype(cs, id, Some(st)),
        None => add_member(cs, id, t),
    }
}

/// Members of a one-line body `{ a; b }`.
pub open spec fn inline_members(cs: Seq<ClassV>, id: Seq<char>, parts: Seq<Seq<char>>) -> Seq<ClassV>
    decreases parts.len(),
{
    if parts.len() == 0 {
        cs
    } else {
        let prev = inline_members(cs, id, parts.drop_last());
        let m = trim(parts.last());
        if m.len() == 0 {
            prev
        } else {
            member_or_stereotype(prev, id, m)
        }
    }
}

/// Drop every trailing `}`.
pub open spec fn trim_end_braces(s: Seq<char>) -> Seq<char>
    decreases s.len(),
{
    if s.len() > 0 && s.last() == '}' {
        trim_end_braces(s.drop_last())
    } else {
        s
    }
}

/// Reader state: the diagram so far, and the class whose body is open.
#[verifier::ext_equal]
pub ghost struct ClsSt {
    pub d: ClassDiagramV,
    pub body: Option<Seq<char>>,
}

/// A `class` statement (`rest` follows the keyword).
pub open spec fn class_stmt(st: ClsSt, n: int, rest0: Seq<char>) -> Result<ClsSt, (Seq<char>, Option<int>)> {
    let d = st.d;
    let rest = trim(rest0);
    match find_char(rest, '{') {
        Some(brace) => {
            let (id, stereo) = split_id_stereotype(trim(rest.subrange(0, brace)));
            if id.len() == 0 {
                Err(("empty class name"@, Some(n)))
            } else {
                let cs = set_stereotype(ensure_class(d.classes, id), id, stereo);
                let after = trim(rest.subrange(brace + 1, rest.len() as int));
                if "}"@.is_suffix_of(after) {
                    let inner = trim(trim_end_braces(after));
                    let cs2 = if inner.len() == 0 {
                        cs
                    } else {
                        inline_members(cs, id, split_char(inner, ';'))
                    };
                    Ok(ClsSt { d: ClassDiagramV { classes: cs2, ..d }, body: None })
                } else {
                    Ok(ClsSt { d: ClassDiagramV { classes: cs, ..d }, body: Some(id) })
                }
            }
        },
        None => {
            let (id, stereo) = split_id_stereotype(rest);
            let cs = set_stereotype(ensure_class(d.classes, id), id, stereo);
            Ok(ClsSt { d: ClassDiagramV { classes: cs, ..d }, body: None })
        },
    }
}

/// One line of the diagram.
pub open spec fn cls_step(st: ClsSt, n: int, text: Seq<char>) -> Result<ClsSt, (Seq<char>, Option<int>)> {
    let d = st.d;
    match st.body {
        Some(id) => {
            if text == "}"@ {
                Ok(ClsSt { body: None, ..st })
            } else if "}"@.is_suffix_of(text) {
                let m = trim(text.drop_last());
                let cs = if m.len() == 0 {
                    d.classes
                } else {
                    member_or_stereotype(d.classes, id, m)
                };
                Ok(ClsSt { d: ClassDiagramV { classes: cs, ..d }, body: None })
            } else {
                Ok(ClsSt { d: ClassDiagramV { classes: member_or_stereotype(d.classes, id, text), ..d }, ..st })
            }
        },
        None => {
            if let Some(rest) = strip_prefix(text, "class "@) {
                class_stmt(st, n, rest)
            } else if let Some((target, t)) = class_note(text) {
                Ok(ClsSt { d: ClassDiagramV { classes: ensure_class(d.classes, target), notes: d.notes.push((target, t)), ..d }, ..st })
            } else if let Some((id, m)) = member_annotation(text) {
                Ok(ClsSt { d: ClassDiagramV { classes: add_member(ensure_class(d.classes, id), id, m), ..d }, ..st })
            } else if let Some(r) = relation_line(text) {
                Ok(ClsSt { d: ClassDiagramV { classes: ensure_class(ensure_class(d.classes, r.0), r.1), relations: d.relations.push(r), ..d }, ..st })
            } else {
                Err(("unrecognized class diagram line: "@ + text, Some(n)))
            }
        },
    }
}

pub open spec fn cls_run(ls: Seq<(int, Seq<char>)>, i: int, st: ClsSt) -> Result<ClsSt, (Seq<char>, Option<int>)>
    decreases ls.len() - i,
{
    if i < 1 || i >= ls.len() {
        Ok(st)
    } else {
        match cls_step(st, ls[i].0, ls[i].1) {
            Ok(st2) => cls_run(ls, i + 1, st2),
            Err(e) => Err(e),
        }
    }
}

pub open spec fn empty_cls_st() -> ClsSt {
    ClsSt {
        d: ClassDiagramV { classes: Seq::empty(), relations: Seq::empty(), notes: Seq::empty() },
        body: None,
    }
}

/// What parsing a class diagram source gives.
pub open spec fn class_parse(src: Seq<char>) -> Result<ClassDiagramV, (Seq<char>, Option<int>)> {
    let ls = kept_numbered(lines(src), |l: Seq<char>| keep_content(l));
    if ls.len() == 0 {
        Err(("expected classDiagram header"@, None))
    } else if !("classDiagram"@.is_prefix_of(ls[0].1)) {
        Err(("expected classDiagram header"@, Some(ls[0].0)))
    } else {
        match cls_run(ls, 1, empty_cls_st()) {
            Ok(st) => Ok(st.d),
            Err(e) => Err(e),
        }
    }
}


// ================================================================ executable

/// The first content line starts with `classDiagram`.
pub fn is_class(source: &str) -> (b: bool)
    ensures
        b == crate::sequence::first_content_starts(source@, "classDiagram"@),
{
    let ls = numbered_lines(source);
    if ls.len() == 0 {
        return false;
    }
    assert(numbered(ls@)[0].1 == ls@[0].1@);
    starts_with(ls[0].1.as_slice(), chars_of("classDiagram").as_slice())
}

fn trimmed(s: &[char]) -> (r: Vec<char>)
    ensures
        r@ == trim(s@),
{
    slice_to_vec(trim_slice(s))
}

fn find_str(s: &[char], p: &str) -> (r: Option<usize>)
    ensures
        r matches Some(k) ==> find(s@, p@) == Some(k as int) && k + p@.len() <= s@.len(),
        r is None ==> find(s@, p@) is None,
{
    let pc = chars_of(p);
    let r = crate::text::find_slice(s, pc.as_slice());
    proof {
        crate::text::lemma_find_from(s@, p@, 0);
    }
    r
}

pub(crate) fn split_id_stereotype_exec(s0: &[char]) -> (r: (Vec<char>, Option<Vec<char>>))
    ensures
        (r.0@, match r.1 {
            Some(v) => Some(v@),
            None => None,
        }) == split_id_stereotype(s0@),
{
    let s = trim_slice(s0);
    let n = s.len();
    match find_str(s, "<<") {
        Some(open) => {
            proof {
                reveal_strlit("<<");
            }
            let after = &s[open + 2..n];
            match find_str(after, ">>") {
                Some(close) => {
                    let id = trimmed(&s[0..open]);
                    let st = trimmed(&after[0..close]);
                    if id.len() == 0 || st.len() == 0 {
                        (slice_to_vec(s), None)
                    } else {
                        (id, Some(st))
                    }
                },
                None => (slice_to_vec(s), None),
            }
        },
        None => (slice_to_vec(s), None),
    }
}

fn stereotype_only_exec(s0: &[char]) -> (r: Option<Vec<char>>)
    ensures
        match stereotype_only(s0@) {
            Some(t) => r matches Some(v) && v@ == t,
            None => r is None,
        },
{
    let s = trim_slice(s0);
    if !starts_with(s, chars_of("<<").as_slice()) || !ends_with(s, chars_of(">>").as_slice()) || s.len() < 5 {
        return None;
    }
    let inner = trimmed(&s[2..s.len() - 2]);
    if inner.len() == 0 {
        None
    } else {
        Some(inner)
    }
}

fn quoted_note_text_exec(s0: &[char]) -> (r: Option<Vec<char>>)
    ensures
        match quoted_note_text(s0@) {
            Some(t) => r matches Some(v) && v@ == t,
            None => r is None,
        },
{
    let s = trim_slice(s0);
    if s.len() == 0 || s[0] != '"' {
        return None;
    }
    let mut out: Vec<char> = Vec::new();
    let mut i: usize = 1;
    let n = s.len();
    while i < n
        invariant
            n == s@.len(),
            1 <= i,
            s@ == trim(s0@),
            s@.len() > 0 && s@[0] == '"',
            unescape_from(s@, i as int, out@) == unescape_from(s@, 1, Seq::empty()),
        decreases n - i,
    {
        let c = s[i];
        if c == '\\' {
            if i + 1 < n {
                out.push(s[i + 1]);
                i = i + 2;
            } else {
                assert(unescape_from(s@, i as int, out@) is None);
                return None;
            }
        } else if c == '"' {
            assert(unescape_from(s@, i as int, out@) == Some(out@));
            return Some(out);
        } else {
            out.push(c);
            i = i + 1;
        }
    }
    assert(unescape_from(s@, i as int, out@) is None);
    None
}

fn class_note_exec(text: &[char]) -> (r: Option<(Vec<char>, Vec<char>)>)
    ensures
        match class_note(text@) {
            Some((a, b)) => r matches Some((x, y)) && x@ == a && y@ == b,
            None => r is None,
        },
{
    match strip_prefix_exec(text, "note for ") {
        Some(r0) => {
            let k = trim_start_index(r0.as_slice());
            let s = &r0.as_slice()[k..r0.len()];
            if s.len() > 0 && s[0] == '"' {
                return None;
            }
            match find_char_slice(s, '"') {
                Some(q) => {
                    proof {
                        lemma_find_char_from(s@, '"', 0);
                    }
                    let target = trimmed(&s[0..q]);
                    let rest = &s[q..s.len()];
                    let k2 = trim_start_index(rest);
                    match quoted_note_text_exec(&rest[k2..rest.len()]) {
                        Some(t) => {
                            if target.len() == 0 || t.len() == 0 {
                                None
                            } else {
                                Some((target, t))
                            }
                        },
                        None => None,
                    }
                },
                None => None,
            }
        },
        None => None,
    }
}

fn split_trailing_quoted_exec(s0: &[char]) -> (r: Option<(Vec<char>, Vec<char>)>)
    ensures
        match split_trailing_quoted(s0@) {
            Some((a, b)) => r matches Some((x, y)) && x@ == a && y@ == b,
            None => r is None,
        },
{
    let s = trim_slice(s0);
    if s.len() == 0 || s[s.len() - 1] != '"' {
        return None;
    }
    let inner_end = s.len() - 1;
    match rfind_char_slice(&s[0..inner_end], '"') {
        Some(start) => {
            proof {
                lemma_rfind_bound(s@.subrange(0, inner_end as int), '"', inner_end as int);
            }
            let id = trimmed(&s[0..start]);
            let card = trimmed(&s[start + 1..inner_end]);
            if id.len() == 0 {
                None
            } else {
                Some((id, card))
            }
        },
        None => None,
    }
}

proof fn lemma_rfind_bound(s: Seq<char>, c: char, j: int)
    requires
        j == s.len(),
    ensures
        crate::text::rfind_char_before(s, c, j) matches Some(k) ==> 0 <= k < s.len(),
    decreases j,
{
    lemma_rfind_before_bound(s, c, j);
}

proof fn lemma_rfind_before_bound(s: Seq<char>, c: char, j: int)
    ensures
        crate::text::rfind_char_before(s, c, j) matches Some(k) ==> 0 <= k < j && k < s.len(),
    decreases j,
{
    if j <= 0 || j > s.len() {
    } else if s[j - 1] == c {
    } else {
        lemma_rfind_before_bound(s, c, j - 1);
    }
}

fn split_leading_quoted_exec(s0: &[char]) -> (r: Option<(Vec<char>, Vec<char>)>)
    ensures
        match split_leading_quoted(s0@) {
            Some((a, b)) => r matches Some((x, y)) && x@ == a && y@ == b,
            None => r is None,
        },
{
    let s = trim_slice(s0);
    let n = s.len();
    if n == 0 || s[0] != '"' {
        return None;
    }
    let tail = &s[1..n];
    match find_char_slice(tail, '"') {
        Some(e) => {
            proof {
                lemma_find_char_from(tail@, '"', 0);
            }
            let end = e + 1;
            let card = trimmed(&s[1..end]);
            let id = trimmed(&s[end + 1..n]);
            if id.len() == 0 {
                None
            } else {
                Some((card, id))
            }
        },
        None => None,
    }
}

fn relation_with_exec(text: &[char], kind: RelationKind) -> (r: Option<Option<Relation>>)
    ensures
        match relation_with(text@, kind) {
            Some(Some(v)) => r matches Some(Some(x)) && rel_v(x) == v,
            Some(None) => r matches Some(None),
            None => r is None,
        },
{
    match split_once_exec(text, kind.mermaid_str()) {
        Some((left, right)) => {
            let (to_raw, label) = match split_once_exec(right.as_slice(), ":") {
                Some((t, l)) => (trimmed(t.as_slice()), trimmed(l.as_slice())),
                None => (trimmed(right.as_slice()), Vec::new()),
            };
            let lt = trimmed(left.as_slice());
            proof {
                lemma_trim_idempotent(left@);
                lemma_trim_idempotent(to_raw@);
                lemma_trim_idempotent(right@);
                match split_once(right@, ":"@) {
                    Some((t, l)) => lemma_trim_idempotent(t),
                    None => {},
                }
            }
            let (from, from_card) = match split_trailing_quoted_exec(lt.as_slice()) {
                Some((id, card)) => (id, Some(card)),
                None => (trimmed(lt.as_slice()), None),
            };
            let (to, to_card) = match split_leading_quoted_exec(to_raw.as_slice()) {
                Some((card, id)) => (id, Some(card)),
                None => (trimmed(to_raw.as_slice()), None),
            };
            if from.len() == 0 || to.len() == 0 {
                return Some(None);
            }
            let fc = match from_card {
                Some(c) => Some(string_of(c.as_slice())),
                None => None,
            };
            let tc = match to_card {
                Some(c) => Some(string_of(c.as_slice())),
                None => None,
            };
            Some(Some(Relation {
                from: string_of(from.as_slice()),
                to: string_of(to.as_slice()),
                kind,
                label: string_of(label.as_slice()),
                from_card: fc,
                to_card: tc,
            }))
        },
        None => None,
    }
}

pub(crate) fn relation_line_exec(text: &[char]) -> (r: Option<Relation>)
    ensures
        match relation_line(text@) {
            Some(v) => r matches Some(x) && rel_v(x) == v,
            None => r is None,
        },
{
    let kinds = [
        RelationKind::Realization,
        RelationKind::Inheritance,
        RelationKind::Composition,
        RelationKind::Aggregation,
        RelationKind::Association,
        RelationKind::Dependency,
        RelationKind::Link,
    ];
    assert(kinds@ == relation_order());
    let mut k: usize = 0;
    while k < 7
        invariant
            k <= 7,
            kinds@ == relation_order(),
            relation_from(text@, k as int) == relation_line(text@),
        decreases 7 - k,
    {
        match relation_with_exec(text, kinds[k]) {
            Some(r) => {
                return r;
            },
            None => {},
        }
        k = k + 1;
    }
    None
}

fn member_id_ok(s: &[char]) -> (b: bool)
    ensures
        b == forall|i: int| 0 <= i < s@.len() ==> member_id_char(#[trigger] s@[i]),
{
    let mut i: usize = 0;
    while i < s.len()
        invariant
            i <= s@.len(),
            forall|k: int| 0 <= k < i ==> member_id_char(#[trigger] s@[k]),
        decreases s@.len() - i,
    {
        let c = s[i];
        if !(is_alphanumeric(c) || c == '_' || c == '-' || c == '~') {
            return false;
        }
        i = i + 1;
    }
    true
}

fn member_annotation_exec(text: &[char]) -> (r: Option<(Vec<char>, Vec<char>)>)
    ensures
        match member_annotation(text@) {
            Some((a, b)) => r matches Some((x, y)) && x@ == a && y@ == b,
            None => r is None,
        },
{
    match split_once_exec(text, " : ") {
        Some((left, right)) => {
            let id = trimmed(left.as_slice());
            let m = trimmed(right.as_slice());
            if id.len() > 0 && m.len() > 0 && member_id_ok(id.as_slice()) {
                Some((id, m))
            } else {
                None
            }
        },
        None => None,
    }
}


pub open spec fn classes_v(cs: Seq<Class>) -> Seq<ClassV> {
    Seq::new(cs.len(), |i: int| class_v(cs[i]))
}

fn same_id(c: &Class, id: &[char]) -> (b: bool)
    ensures
        b == (c.id@ == id@),
{
    let cc = chars_of(c.id.as_str());
    eq_slice(cc.as_slice(), id)
}

pub(crate) fn ensure_class_exec(cs: &mut Vec<Class>, id: &[char])
    ensures
        classes_v(final(cs)@) == ensure_class(classes_v(old(cs)@), id@),
{
    let ghost v = classes_v(cs@);
    let mut i: usize = 0;
    while i < cs.len()
        invariant
            i <= cs@.len(),
            v == classes_v(cs@),
            forall|k: int| 0 <= k < i ==> (#[trigger] v[k]).0 != id@,
        decreases cs@.len() - i,
    {
        if same_id(&cs[i], id) {
            assert(v[i as int].0 == id@);
            return;
        }
        i = i + 1;
    }
    let ms: Vec<ClassMember> = Vec::new();
    assert(members_v(ms@) =~= Seq::<Seq<char>>::empty());
    cs.push(Class { id: string_of(id), members: ms, stereotype: None });
    assert(classes_v(cs@) =~= v.push((id@, Seq::empty(), None)));
}

pub(crate) fn set_stereotype_exec(cs: &mut Vec<Class>, id: &[char], st: &Option<Vec<char>>)
    ensures
        classes_v(final(cs)@) == set_stereotype(classes_v(old(cs)@), id@, match st {
            Some(v) => Some(v@),
            None => None,
        }),
{
    let ghost v = classes_v(cs@);
    match st {
        None => {},
        Some(stv) => {
            let ghost target = set_stereotype(v, id@, Some(stv@));
            let mut i: usize = 0;
            while i < cs.len()
                invariant
                    i <= cs@.len(),
                    cs@.len() == v.len(),
                    target == set_stereotype(v, id@, Some(stv@)),
                    forall|k: int| 0 <= k < i ==> class_v(#[trigger] cs@[k]) == target[k],
                    forall|k: int| i <= k < v.len() ==> class_v(#[trigger] cs@[k]) == v[k],
                decreases cs@.len() - i,
            {
                if same_id(&cs[i], id) && cs[i].stereotype.is_none() {
                    let c = Class {
                        id: cs[i].id.clone(),
                        members: clone_members(&cs[i].members),
                        stereotype: Some(string_of(stv.as_slice())),
                    };
                    cs.set(i, c);
                }
                i = i + 1;
            }
            assert(classes_v(cs@) =~= target);
        },
    }
}

fn clone_members(m: &Vec<ClassMember>) -> (r: Vec<ClassMember>)
    ensures
        members_v(r@) == members_v(m@),
{
    let mut r: Vec<ClassMember> = Vec::new();
    let mut i: usize = 0;
    while i < m.len()
        invariant
            i <= m@.len(),
            members_v(r@) == members_v(m@).take(i as int),
        decreases m@.len() - i,
    {
        let t = m[i].text.clone();
        let ghost before = r@;
        r.push(ClassMember { text: t });
        assert(members_v(r@) =~= members_v(before).push(m@[i as int].text@));
        i = i + 1;
        assert(members_v(r@) =~= members_v(m@).take(i as int));
    }
    assert(members_v(m@).take(m@.len() as int) =~= members_v(m@));
    r
}

pub(crate) fn add_member_exec(cs: &mut Vec<Class>, id: &[char], text: &[char])
    ensures
        classes_v(final(cs)@) == add_member(classes_v(old(cs)@), id@, text@),
{
    let ghost v = classes_v(cs@);
    let ghost target = add_member(v, id@, text@);
    let mut i: usize = 0;
    while i < cs.len()
        invariant
            i <= cs@.len(),
            cs@.len() == v.len(),
            target == add_member(v, id@, text@),
            forall|k: int| 0 <= k < i ==> class_v(#[trigger] cs@[k]) == target[k],
            forall|k: int| i <= k < v.len() ==> class_v(#[trigger] cs@[k]) == v[k],
        decreases cs@.len() - i,
    {
        if same_id(&cs[i], id) {
            let mut ms = clone_members(&cs[i].members);
            let ghost before = members_v(ms@);
            ms.push(ClassMember { text: string_of(text) });
            assert(members_v(ms@) =~= before.push(text@));
            let c = Class {
                id: cs[i].id.clone(),
                members: ms,
                stereotype: crate::text::clone_opt(&cs[i].stereotype),
            };
            cs.set(i, c);
        }
        i = i + 1;
    }
    assert(classes_v(cs@) =~= target);
}

fn member_or_stereotype_exec(cs: &mut Vec<Class>, id: &[char], text: &[char])
    ensures
        classes_v(final(cs)@) == member_or_stereotype(classes_v(old(cs)@), id@, text@),
{
    let t = trimmed(text);
    proof {
        lemma_trim_idempotent(text@);
    }
    match stereotype_only_exec(t.as_slice()) {
        Some(st) => set_stereotype_exec(cs, id, &Some(st)),
        None => add_member_exec(cs, id, t.as_slice()),
    }
}

pub(crate) fn trim_end_braces_exec(s: &[char]) -> (r: &[char])
    ensures
        r@ == trim_end_braces(s@),
{
    let mut j = s.len();
    assert(s@.subrange(0, j as int) =~= s@);
    while j > 0 && s[j - 1] == '}'
        invariant
            j <= s@.len(),
            trim_end_braces(s@) == trim_end_braces(s@.subrange(0, j as int)),
        decreases j,
    {
        assert(s@.subrange(0, j as int).drop_last() =~= s@.subrange(0, j - 1));
        j = j - 1;
    }
    &s[0..j]
}

fn inline_members_exec(cs: &mut Vec<Class>, id: &[char], inner: &[char])
    ensures
        classes_v(final(cs)@) == inline_members(classes_v(old(cs)@), id@, split_char(inner@, ';')),
{
    let parts = split_char_slice(inner, ';');
    let ghost ps = seqs(parts@);
    let ghost v = classes_v(cs@);
    let mut i: usize = 0;
    assert(ps.take(0) =~= Seq::<Seq<char>>::empty());
    while i < parts.len()
        invariant
            i <= parts@.len(),
            ps == seqs(parts@),
            ps == split_char(inner@, ';'),
            classes_v(cs@) == inline_members(v, id@, ps.take(i as int)),
        decreases parts@.len() - i,
    {
        proof {
            assert(ps.take(i + 1).drop_last() =~= ps.take(i as int));
        }
        let m = trimmed(parts[i].as_slice());
        if m.len() > 0 {
            member_or_stereotype_exec(cs, id, m.as_slice());
        }
        i = i + 1;
    }
    assert(ps.take(parts@.len() as int) =~= ps);
}

struct ClsX {
    d: ClassDiagram,
    body: Option<Vec<char>>,
}

spec fn cls_x(x: ClsX) -> ClsSt {
    ClsSt { d: cd_v(x.d), body: match x.body {
        Some(v) => Some(v@),
        None => None,
    } }
}

fn perr(msg: &str, line: Option<usize>) -> (e: ParseError)
    ensures
        e.message@ == msg@,
        e.line == line,
{
    ParseError { message: String::from_str(msg), line }
}

pub open spec fn cerr(e: ParseError) -> (Seq<char>, Option<int>) {
    (e.message@, match e.line {
        Some(l) => Some(l as int),
        None => None,
    })
}

fn class_stmt_exec(x: &mut ClsX, n: usize, rest0: &[char]) -> (r: Result<(), ParseError>)
    ensures
        match class_stmt(cls_x(*old(x)), n as int, rest0@) {
            Ok(st) => r is Ok && cls_x(*final(x)) == st,
            Err(e) => r matches Err(y) && cerr(y) == e,
        },
{
    let ghost d0 = cd_v(x.d);
    let rest = trim_slice(rest0);
    let nr = rest.len();
    match find_char_slice(rest, '{') {
        Some(brace) => {
            proof {
                lemma_find_char_from(rest@, '{', 0);
            }
            let (id, stereo) = split_id_stereotype_exec(trim_slice(&rest[0..brace]));
            if id.len() == 0 {
                return Err(perr("empty class name", Some(n)));
            }
            ensure_class_exec(&mut x.d.classes, id.as_slice());
            set_stereotype_exec(&mut x.d.classes, id.as_slice(), &stereo);
            let after = trim_slice(&rest[brace + 1..nr]);
            if ends_with(after, chars_of("}").as_slice()) {
                let inner = trimmed(trim_end_braces_exec(after));
                if inner.len() > 0 {
                    inline_members_exec(&mut x.d.classes, id.as_slice(), inner.as_slice());
                }
                x.body = None;
            } else {
                x.body = Some(id);
            }
            Ok(())
        },
        None => {
            let (id, stereo) = split_id_stereotype_exec(rest);
            proof {
                lemma_trim_idempotent(rest0@);
            }
            ensure_class_exec(&mut x.d.classes, id.as_slice());
            set_stereotype_exec(&mut x.d.classes, id.as_slice(), &stereo);
            x.body = None;
            Ok(())
        },
    }
}

fn cls_step_exec(x: &mut ClsX, n: usize, text: &[char]) -> (r: Result<(), ParseError>)
    ensures
        match cls_step(cls_x(*old(x)), n as int, text@) {
            Ok(st) => r is Ok && cls_x(*final(x)) == st,
            Err(e) => r matches Err(y) && cerr(y) == e,
        },
{
    let ghost d0 = cd_v(x.d);
    match &x.body {
        Some(idv) => {
            let id = slice_to_vec(idv.as_slice());
            if eq_slice(text, chars_of("}").as_slice()) {
                x.body = None;
                return Ok(());
            }
            if ends_with(text, chars_of("}").as_slice()) {
                proof {
                    reveal_strlit("}");
                }
                let m = trimmed(&text[0..text.len() - 1]);
                assert(text@.subrange(0, text@.len() - 1) =~= text@.drop_last());
                if m.len() > 0 {
                    member_or_stereotype_exec(&mut x.d.classes, id.as_slice(), m.as_slice());
                }
                x.body = None;
                return Ok(());
            }
            member_or_stereotype_exec(&mut x.d.classes, id.as_slice(), text);
            return Ok(());
        },
        None => {},
    }
    if let Some(rest) = strip_prefix_exec(text, "class ") {
        return class_stmt_exec(x, n, rest.as_slice());
    }
    if let Some((target, t)) = class_note_exec(text) {
        ensure_class_exec(&mut x.d.classes, target.as_slice());
        let ghost nv = x.d.notes@;
        x.d.notes.push(ClassNote { target: string_of(target.as_slice()), text: string_of(t.as_slice()) });
        assert(cd_v(x.d).notes =~= cd_v(old(x).d).notes.push((target@, t@))) by {
        }
        return Ok(());
    }
    if let Some((id, m)) = member_annotation_exec(text) {
        ensure_class_exec(&mut x.d.classes, id.as_slice());
        add_member_exec(&mut x.d.classes, id.as_slice(), m.as_slice());
        return Ok(());
    }
    if let Some(r) = relation_line_exec(text) {
        let f = chars_of(r.from.as_str());
        let t = chars_of(r.to.as_str());
        ensure_class_exec(&mut x.d.classes, f.as_slice());
        ensure_class_exec(&mut x.d.classes, t.as_slice());
        let ghost rv = rel_v(r);
        x.d.relations.push(r);
        assert(cd_v(x.d).relations =~= cd_v(old(x).d).relations.push(rv));
        return Ok(());
    }
    let mut msg = String::from_str("unrecognized class diagram line: ");
    push_chars(&mut msg, text);
    Err(ParseError { message: msg, line: Some(n) })
}

/// Read a Mermaid class diagram.
pub fn parse(source: &str) -> (r: Result<ClassDiagram, ParseError>)
    ensures
        match class_parse(source@) {
            Ok(v) => r matches Ok(d) && cd_v(d) == v,
            Err(e) => r matches Err(x) && cerr(x) == e,
        },
{
    let ls = numbered_lines(source);
    let ghost nl = numbered(ls@);
    if ls.len() == 0 {
        return Err(perr("expected classDiagram header", None));
    }
    assert(nl[0] == (ls@[0].0 as int, ls@[0].1@));
    if !starts_with(ls[0].1.as_slice(), chars_of("classDiagram").as_slice()) {
        return Err(perr("expected classDiagram header", Some(ls[0].0)));
    }
    let mut x = ClsX {
        d: ClassDiagram { classes: Vec::new(), relations: Vec::new(), notes: Vec::new() },
        body: None,
    };
    assert(cls_x(x) =~= empty_cls_st());
    let mut i: usize = 1;
    while i < ls.len()
        invariant
            1 <= i <= ls@.len(),
            nl == numbered(ls@),
            nl == kept_numbered(lines(source@), |l: Seq<char>| keep_content(l)),
            nl.len() > 0 && "classDiagram"@.is_prefix_of(nl[0].1),
            cls_run(nl, i as int, cls_x(x)) == cls_run(nl, 1, empty_cls_st()),
        decreases ls@.len() - i,
    {
        assert(nl[i as int] == (ls@[i as int].0 as int, ls@[i as int].1@));
        let ghost st0 = cls_x(x);
        match cls_step_exec(&mut x, ls[i].0, ls[i].1.as_slice()) {
            Ok(()) => {},
            Err(e) => {
                assert(cls_run(nl, i as int, st0) == Err::<ClsSt, (Seq<char>, Option<int>)>(cerr(e)));
                return Err(e);
            },
        }
        i = i + 1;
    }
    Ok(x.d)
}


// ================================================================ output

pub open spec fn stereo_text(st: Option<Seq<char>>) -> Seq<char> {
    match st {
        Some(s) => " <<"@ + s + ">>"@,
        None => Seq::empty(),
    }
}

pub open spec fn member_line(m: Seq<char>) -> Seq<char> {
    "        "@ + m + "\n"@
}

pub open spec fn class_block(c: ClassV) -> Seq<char> {
    if c.1.len() == 0 {
        "    class "@ + c.0 + stereo_text(c.2) + "\n"@
    } else {
        "    class "@ + c.0 + stereo_text(c.2) + " {\n"@ + flat(c.1, |m: Seq<char>| member_line(m))
            + "    }\n"@
    }
}

pub open spec fn left_card(c: Option<Seq<char>>) -> Seq<char> {
    match c {
        Some(x) => " \""@ + x + "\""@,
        None => Seq::empty(),
    }
}

pub open spec fn right_card(c: Option<Seq<char>>) -> Seq<char> {
    match c {
        Some(x) => "\""@ + x + "\" "@,
        None => Seq::empty(),
    }
}

pub open spec fn relation_text(r: RelV) -> Seq<char> {
    let left = r.0 + left_card(r.4);
    let right = right_card(r.5) + r.1;
    if r.3.len() == 0 {
        "    "@ + left + " "@ + relation_token(r.2) + " "@ + right + "\n"@
    } else {
        "    "@ + left + " "@ + relation_token(r.2) + " "@ + right + " : "@ + r.3 + "\n"@
    }
}

/// Backslashes and quotes escaped with a backslash.
pub open spec fn escape_note(s: Seq<char>) -> Seq<char>
    decreases s.len(),
{
    if s.len() == 0 {
        Seq::empty()
    } else {
        escape_note(s.drop_last()) + (if s.last() == '\\' {
            seq!['\\', '\\']
        } else if s.last() == '"' {
            seq!['\\', '"']
        } else {
            seq![s.last()]
        })
    }
}

pub open spec fn note_text(n: (Seq<char>, Seq<char>)) -> Seq<char> {
    "    note for "@ + n.0 + " \""@ + escape_note(n.1) + "\"\n"@
}

/// Mermaid text of a class diagram.
pub open spec fn class_mermaid(d: ClassDiagramV) -> Seq<char> {
    "classDiagram\n"@ + flat(d.classes, |c: ClassV| class_block(c)) + flat(
        d.relations,
        |r: RelV| relation_text(r),
    ) + flat(d.notes, |n: (Seq<char>, Seq<char>)| note_text(n))
}

pub(crate) fn escape_note_exec(s: &str) -> (r: String)
    ensures
        r@ == escape_note(s@),
{
    let cs = chars_of(s);
    let mut r = String::new();
    let mut i: usize = 0;
    while i < cs.len()
        invariant
            i <= cs@.len(),
            cs@ == s@,
            r@ == escape_note(cs@.take(i as int)),
        decreases cs@.len() - i,
    {
        proof {
            assert(cs@.take(i + 1).drop_last() =~= cs@.take(i as int));
        }
        let c = cs[i];
        if c == '\\' {
            crate::text::push_char(&mut r, '\\');
            crate::text::push_char(&mut r, '\\');
        } else if c == '"' {
            crate::text::push_char(&mut r, '\\');
            crate::text::push_char(&mut r, '"');
        } else {
            crate::text::push_char(&mut r, c);
        }
        i = i + 1;
        assert(r@ =~= escape_note(cs@.take(i as int)));
    }
    assert(cs@.take(cs@.len() as int) =~= cs@);
    r
}

fn class_block_exec(c: &Class) -> (r: String)
    ensures
        r@ == class_block(class_v(*c)),
{
    let mut out = String::from_str("    class ");
    out.append(c.id.as_str());
    match &c.stereotype {
        Some(s) => {
            out.append(" <<");
            out.append(s.as_str());
            out.append(">>");
        },
        None => {},
    }
    if c.members.len() == 0 {
        out.append("\n");
        return out;
    }
    out.append(" {\n");
    let ghost ms = members_v(c.members@);
    let ghost base = out@;
    let ghost fm = |m: Seq<char>| member_line(m);
    let mut i: usize = 0;
    while i < c.members.len()
        invariant
            i <= c.members@.len(),
            ms == members_v(c.members@),
            fm == (|m: Seq<char>| member_line(m)),
            out@ == base + flat(ms.take(i as int), fm),
        decreases c.members@.len() - i,
    {
        proof {
            lemma_flat_step(ms, fm, i as int);
        }
        out.append("        ");
        out.append(c.members[i].text.as_str());
        out.append("\n");
        i = i + 1;
    }
    proof {
        lemma_flat_all(ms, fm);
    }
    out.append("    }\n");
    out
}

fn relation_text_exec(r: &Relation) -> (out: String)
    ensures
        out@ == relation_text(rel_v(*r)),
{
    let mut out = String::from_str("    ");
    out.append(r.from.as_str());
    match &r.from_card {
        Some(c) => {
            out.append(" \"");
            out.append(c.as_str());
            out.append("\"");
        },
        None => {},
    }
    out.append(" ");
    out.append(r.kind.mermaid_str());
    out.append(" ");
    match &r.to_card {
        Some(c) => {
            out.append("\"");
            out.append(c.as_str());
            out.append("\" ");
        },
        None => {},
    }
    out.append(r.to.as_str());
    if !r.label.as_str().is_empty() {
        out.append(" : ");
        out.append(r.label.as_str());
    }
    out.append("\n");
    out
}

impl ClassDiagram {
    /// Mermaid text.
    pub fn to_mermaid(&self) -> (r: String)
        ensures
            r@ == class_mermaid(cd_v(*self)),
    {
        let ghost dv = cd_v(*self);
        let mut out = String::from_str("classDiagram\n");
        let ghost base = out@;
        let ghost fc = |c: ClassV| class_block(c);
        let mut i: usize = 0;
        while i < self.classes.len()
            invariant
                i <= self.classes@.len(),
                dv == cd_v(*self),
                fc == (|c: ClassV| class_block(c)),
                out@ == base + flat(dv.classes.take(i as int), fc),
            decreases self.classes@.len() - i,
        {
            proof {
                lemma_flat_step(dv.classes, fc, i as int);
            }
            out.append(class_block_exec(&self.classes[i]).as_str());
            i = i + 1;
        }
        proof {
            lemma_flat_all(dv.classes, fc);
        }
        let ghost base = out@;
        let ghost fr = |r: RelV| relation_text(r);
        let mut i: usize = 0;
        while i < self.relations.len()
            invariant
                i <= self.relations@.len(),
                dv == cd_v(*self),
                fr == (|r: RelV| relation_text(r)),
                out@ == base + flat(dv.relations.take(i as int), fr),
            decreases self.relations@.len() - i,
        {
            proof {
                lemma_flat_step(dv.relations, fr, i as int);
            }
            out.append(relation_text_exec(&self.relations[i]).as_str());
            i = i + 1;
        }
        proof {
            lemma_flat_all(dv.relations, fr);
        }
        let ghost base = out@;
        let ghost fnote = |n: (Seq<char>, Seq<char>)| note_text(n);
        let mut i: usize = 0;
        while i < self.notes.len()
            invariant
                i <= self.notes@.len(),
                dv == cd_v(*self),
                fnote == (|n: (Seq<char>, Seq<char>)| note_text(n)),
                out@ == base + flat(dv.notes.take(i as int), fnote),
            decreases self.notes@.len() - i,
        {
            proof {
                lemma_flat_step(dv.notes, fnote, i as int);
            }
            let n = &self.notes[i];
            out.append("    note for ");
            out.append(n.target.as_str());
            out.append(" \"");
            out.append(escape_note_exec(n.text.as_str()).as_str());
            out.append("\"\n");
            i = i + 1;
        }
        proof {
            lemma_flat_all(dv.notes, fnote);
        }
        out
    }
}

// ---------------------------------------------------------------- generics

/// How many times `c` occurs in `s`.
pub open spec fn count_char(s: Seq<char>, c: char) -> nat
    decreases s.len(),
{
    if s.len() == 0 {
        0
    } else {
        count_char(s.drop_last(), c) + if s.last() == c { 1nat } else { 0nat }
    }
}

pub proof fn lemma_count_add(a: Seq<char>, b: Seq<char>, c: char)
    ensures
        count_char(a + b, c) == count_char(a, c) + count_char(b, c),
    decreases b.len(),
{
    if b.len() > 0 {
        lemma_count_add(a, b.drop_last(), c);
        assert((a + b).drop_last() =~= a + b.drop_last());
    } else {
        assert(a + b =~= a);
    }
}

proof fn lemma_count_absent(s: Seq<char>, c: char)
    requires
        find_char_from(s, c, 0) is None,
    ensures
        count_char(s, c) == 0,
    decreases s.len(),
{
    lemma_find_char_from(s, c, 0);
    if s.len() > 0 {
        let p = s.drop_last();
        lemma_find_char_from(p, c, 0);
        if find_char_from(p, c, 0) is Some {
            let k = find_char_from(p, c, 0)->0;
            assert(s[k] == p[k]);
        }
        lemma_count_absent(p, c);
    }
}

/// `s` with the characters from `i` through `j` replaced by `r`.
pub open spec fn splice(s: Seq<char>, i: int, j: int, r: Seq<char>) -> Seq<char> {
    s.take(i) + r + s.skip(j + 1)
}

/// Splicing out `s[i]` and `s[j]`, both `c`, and what lies between for `r`
/// changes the count of `c` by that of `r` less two and that between.
proof fn lemma_count_splice(s: Seq<char>, i: int, j: int, r: Seq<char>, c: char)
    requires
        0 <= i < j < s.len(),
    ensures
        count_char(s, c) == count_char(s.take(i), c) + (if s[i] == c { 1nat } else { 0nat })
            + count_char(s.subrange(i + 1, j), c) + (if s[j] == c { 1nat } else { 0nat }) + count_char(s.skip(j + 1), c),
        count_char(splice(s, i, j, r), c) == count_char(s.take(i), c) + count_char(r, c) + count_char(s.skip(j + 1), c),
{
    assert(s =~= s.take(i) + seq![s[i]] + s.subrange(i + 1, j) + seq![s[j]] + s.skip(j + 1));
    lemma_count_add(s.take(i) + seq![s[i]] + s.subrange(i + 1, j) + seq![s[j]], s.skip(j + 1), c);
    lemma_count_add(s.take(i) + seq![s[i]] + s.subrange(i + 1, j), seq![s[j]], c);
    lemma_count_add(s.take(i) + seq![s[i]], s.subrange(i + 1, j), c);
    lemma_count_add(s.take(i), seq![s[i]], c);
    assert(seq![s[i]].drop_last() =~= Seq::<char>::empty());
    assert(seq![s[j]].drop_last() =~= Seq::<char>::empty());
    reveal_with_fuel(count_char, 2);
    assert(count_char(seq![s[i]], c) == if s[i] == c { 1nat } else { 0nat });
    assert(count_char(seq![s[j]], c) == if s[j] == c { 1nat } else { 0nat });
    lemma_count_add(s.take(i) + r, s.skip(j + 1), c);
    lemma_count_add(s.take(i), r, c);
}

/// A `~` at `i` whose next `~` is not right after it.
pub open spec fn tilde_pair_at(s: Seq<char>, i: int) -> bool {
    &&& 0 <= i < s.len()
    &&& s[i] == '~'
    &&& find_char_from(s, '~', i + 1) matches Some(j) && j > i + 1
}

/// The last such `~` at or before `i`.
pub open spec fn last_tilde_pair(s: Seq<char>, i: int) -> Option<int>
    decreases i + 1,
{
    if i < 0 {
        None
    } else if tilde_pair_at(s, i) {
        Some(i)
    } else {
        last_tilde_pair(s, i - 1)
    }
}

/// Each `~inner~` pair, innermost (last) first, written `open inner close`.
pub open spec fn tilde_pairs(s: Seq<char>, open: Seq<char>, close: Seq<char>) -> Seq<char>
    decreases count_char(s, '~'),
{
    match last_tilde_pair(s, s.len() - 1) {
        Some(i) => match find_char_from(s, '~', i + 1) {
            Some(j) => {
                let t = splice(s, i, j, open + s.subrange(i + 1, j) + close);
                if count_char(t, '~') < count_char(s, '~') {
                    tilde_pairs(t, open, close)
                } else {
                    s
                }
            },
            None => s,
        },
        None => s,
    }
}

fn tilde_pair_at_exec(s: &Vec<char>, i: usize) -> (r: Option<usize>)
    requires
        i < s.len(),
    ensures
        r is Some <==> tilde_pair_at(s@, i as int),
        r matches Some(j) ==> find_char_from(s@, '~', i + 1) == Some(j as int),
{
    if s[i] != '~' {
        return None;
    }
    match crate::text::find_char_slice_from(s.as_slice(), '~', i + 1) {
        Some(j) => if j > i + 1 { Some(j) } else { None },
        None => None,
    }
}

fn splice_exec(s: &Vec<char>, i: usize, j: usize, open: &str, close: &str) -> (t: Vec<char>)
    requires
        i < j < s.len(),
    ensures
        t@ == splice(s@, i as int, j as int, open@ + s@.subrange(i + 1, j as int) + close@),
{
    let mut t: Vec<char> = Vec::new();
    let mut k: usize = 0;
    while k < i
        invariant
            k <= i,
            i < s@.len(),
            t@ == s@.take(k as int),
        decreases i - k,
    {
        t.push(s[k]);
        assert(s@.take(k + 1) =~= s@.take(k as int).push(s@[k as int]));
        k = k + 1;
    }
    let o = chars_of(open);
    let c = chars_of(close);
    let ghost t0 = t@;
    k = 0;
    while k < o.len()
        invariant
            k <= o@.len(),
            t@ == t0 + o@.take(k as int),
        decreases o@.len() - k,
    {
        t.push(o[k]);
        assert(o@.take(k + 1) =~= o@.take(k as int).push(o@[k as int]));
        k = k + 1;
    }
    assert(o@.take(o@.len() as int) =~= o@);
    let ghost t1 = t@;
    k = i + 1;
    while k < j
        invariant
            i + 1 <= k <= j,
            j < s@.len(),
            t@ == t1 + s@.subrange(i + 1, k as int),
        decreases j - k,
    {
        t.push(s[k]);
        assert(s@.subrange(i + 1, k + 1) =~= s@.subrange(i + 1, k as int).push(s@[k as int]));
        k = k + 1;
    }
    let ghost t2 = t@;
    k = 0;
    while k < c.len()
        invariant
            k <= c@.len(),
            t@ == t2 + c@.take(k as int),
        decreases c@.len() - k,
    {
        t.push(c[k]);
        assert(c@.take(k + 1) =~= c@.take(k as int).push(c@[k as int]));
        k = k + 1;
    }
    assert(c@.take(c@.len() as int) =~= c@);
    let ghost t3 = t@;
    k = j + 1;
    while k < s.len()
        invariant
            j + 1 <= k <= s@.len(),
            t@ == t3 + s@.subrange(j + 1, k as int),
        decreases s@.len() - k,
    {
        t.push(s[k]);
        assert(s@.subrange(j + 1, k + 1) =~= s@.subrange(j + 1, k as int).push(s@[k as int]));
        k = k + 1;
    }
    assert(t@ =~= splice(s@, i as int, j as int, open@ + s@.subrange(i + 1, j as int) + close@));
    t
}

fn tilde_pairs_exec(s: Vec<char>, open: &str, close: &str) -> (r: Vec<char>)
    requires
        count_char(open@, '~') == 0,
        count_char(close@, '~') == 0,
    ensures
        r@ == tilde_pairs(s@, open@, close@),
    decreases count_char(s@, '~'),
{
    let mut i: usize = s.len();
    while i > 0 && tilde_pair_at_exec(&s, i - 1).is_none()
        invariant
            i <= s@.len(),
            last_tilde_pair(s@, s@.len() - 1) == last_tilde_pair(s@, i - 1),
        decreases i,
    {
        i = i - 1;
    }
    if i == 0 {
        assert(last_tilde_pair(s@, -1) is None);
        return s;
    }
    let p = i - 1;
    match tilde_pair_at_exec(&s, p) {
        None => {
            assert(false);
            s
        },
        Some(j) => {
            assert(last_tilde_pair(s@, s@.len() - 1) == Some(p as int));
            proof {
                lemma_find_char_from(s@, '~', p + 1);
            }
            let t = splice_exec(&s, p, j, open, close);
            proof {
                let r = open@ + s@.subrange(p + 1, j as int) + close@;
                lemma_count_splice(s@, p as int, j as int, r, '~');
                lemma_count_add(open@ + s@.subrange(p + 1, j as int), close@, '~');
                lemma_count_add(open@, s@.subrange(p + 1, j as int), '~');
            }
            tilde_pairs_exec(t, open, close)
        },
    }
}

/// Mermaid `~T~` generics shown as `‹T›`, innermost pair first
/// (`List~List~int~~` becomes `List‹List‹int››`).
pub fn display_generics(s: &str) -> (r: String)
    ensures
        r@ == tilde_pairs(s@, "‹"@, "›"@),
{
    proof {
        reveal_strlit("‹");
        reveal_strlit("›");
        assert("‹"@ =~= seq!['‹']);
        assert(seq!['‹'].drop_last() =~= Seq::<char>::empty());
        reveal_with_fuel(count_char, 2);
        assert(count_char(seq!['‹'], '~') == 0);
        assert("›"@ =~= seq!['›']);
        assert(seq!['›'].drop_last() =~= Seq::<char>::empty());
        assert(count_char(seq!['›'], '~') == 0);
    }
    let v = tilde_pairs_exec(chars_of(s), "‹", "›");
    string_of(v.as_slice())
}

/// Mermaid `~T~` generics written with angle brackets (`Stack<T>`).
pub fn generics_to_angle(s: &str) -> (r: String)
    ensures
        r@ == tilde_pairs(s@, "<"@, ">"@),
{
    proof {
        reveal_strlit("<");
        reveal_strlit(">");
        assert("<"@ =~= seq!['<']);
        assert(seq!['<'].drop_last() =~= Seq::<char>::empty());
        reveal_with_fuel(count_char, 2);
        assert(count_char(seq!['<'], '~') == 0);
        assert(">"@ =~= seq!['>']);
        assert(seq!['>'].drop_last() =~= Seq::<char>::empty());
        assert(count_char(seq!['>'], '~') == 0);
    }
    let v = tilde_pairs_exec(chars_of(s), "<", ">");
    string_of(v.as_slice())
}

/// First `>>` at or after `k`.
pub open spec fn gg_from(s: Seq<char>, k: int) -> Option<int>
    decreases s.len() - k,
{
    if k < 0 || k + 1 >= s.len() {
        None
    } else if s[k] == '>' && s[k + 1] == '>' {
        Some(k)
    } else {
        gg_from(s, k + 1)
    }
}

/// Where the last `<inner>` pair starts (inner non-empty and free of `<`), in
/// a left-to-right scan from `i` that steps over `<<stereotype>>` marks.
pub open spec fn angle_scan(s: Seq<char>, i: int, found: Option<int>) -> Option<int>
    decreases s.len() - i,
{
    if i < 0 || i >= s.len() {
        found
    } else if s[i] == '<' {
        if i + 1 < s.len() && s[i + 1] == '<' {
            match gg_from(s, i + 2) {
                Some(k) => if i < k + 2 <= s.len() {
                    angle_scan(s, k + 2, found)
                } else {
                    found
                },
                None => angle_scan(s, i + 2, found),
            }
        } else {
            let f = match find_char_from(s, '>', i + 1) {
                Some(j) => if j > i + 1 && find_char_from(s.subrange(i + 1, j), '<', 0) is None {
                    Some(i)
                } else {
                    found
                },
                None => found,
            };
            angle_scan(s, i + 1, f)
        }
    } else {
        angle_scan(s, i + 1, found)
    }
}

/// Each `<inner>` pair, innermost (last) first, written `~inner~`;
/// `<<stereotype>>` marks are left alone.
pub open spec fn angle_tilde(s: Seq<char>) -> Seq<char>
    decreases count_char(s, '<'),
{
    match angle_scan(s, 0, None) {
        Some(i) => match find_char_from(s, '>', i + 1) {
            Some(j) => {
                let t = splice(s, i, j, "~"@ + s.subrange(i + 1, j) + "~"@);
                if count_char(t, '<') < count_char(s, '<') {
                    angle_tilde(t)
                } else {
                    s
                }
            },
            None => s,
        },
        None => s,
    }
}

proof fn lemma_gg_from(s: Seq<char>, k: int)
    requires
        0 <= k,
    ensures
        gg_from(s, k) matches Some(x) ==> k <= x && x + 1 < s.len() && s[x] == '>' && s[x + 1] == '>',
    decreases s.len() - k,
{
    if k + 1 < s.len() && !(s[k] == '>' && s[k + 1] == '>') {
        lemma_gg_from(s, k + 1);
    }
}

fn gg_from_exec(s: &Vec<char>, k: usize) -> (r: Option<usize>)
    ensures
        r matches Some(x) ==> gg_from(s@, k as int) == Some(x as int),
        r is None ==> gg_from(s@, k as int) is None,
{
    let mut i = k;
    while i < s.len() && i + 1 < s.len() && !(s[i] == '>' && s[i + 1] == '>')
        invariant
            k <= i,
            gg_from(s@, k as int) == gg_from(s@, i as int),
        decreases s@.len() - i,
    {
        i = i + 1;
    }
    if i < s.len() && i + 1 < s.len() {
        Some(i)
    } else {
        None
    }
}

fn has_lt_between(s: &Vec<char>, a: usize, b: usize) -> (r: bool)
    requires
        a <= b <= s.len(),
    ensures
        r == (find_char_from(s@.subrange(a as int, b as int), '<', 0) is Some),
{
    let ghost sub = s@.subrange(a as int, b as int);
    proof {
        lemma_find_char_from(sub, '<', 0);
    }
    let mut k = a;
    while k < b
        invariant
            a <= k <= b,
            b <= s@.len(),
            sub == s@.subrange(a as int, b as int),
            forall|q: int| a <= q < k ==> s@[q] != '<',
        decreases b - k,
    {
        if s[k] == '<' {
            assert(sub[k - a] == '<');
            proof {
                lemma_find_char_from(sub, '<', 0);
                if find_char_from(sub, '<', 0) is None {
                    assert(sub[k - a] != '<');
                }
            }
            return true;
        }
        k = k + 1;
    }
    assert forall|q: int| 0 <= q < sub.len() implies sub[q] != '<' by {
        assert(sub[q] == s@[a + q]);
    }
    false
}

fn angle_scan_exec(s: &Vec<char>) -> (r: Option<usize>)
    ensures
        r matches Some(x) ==> angle_scan(s@, 0, None) == Some(x as int),
        r is None ==> angle_scan(s@, 0, None) is None,
{
    let mut i: usize = 0;
    let mut found: Option<usize> = None;
    while i < s.len()
        invariant
            angle_scan(s@, 0, None) == angle_scan(s@, i as int, match found {
                Some(x) => Some(x as int),
                None => None,
            }),
            found matches Some(x) ==> x < s@.len(),
        decreases s@.len() - i,
    {
        if s[i] == '<' {
            if i + 1 < s.len() && s[i + 1] == '<' {
                match gg_from_exec(s, i + 2) {
                    Some(k) => {
                        proof {
                            lemma_gg_from(s@, i + 2);
                        }
                        i = k + 2;
                    },
                    None => {
                        i = i + 2;
                    },
                }
            } else {
                match crate::text::find_char_slice_from(s.as_slice(), '>', i + 1) {
                    Some(j) => {
                        proof {
                            lemma_find_char_from(s@, '>', i + 1);
                        }
                        if j > i + 1 && !has_lt_between(s, i + 1, j) {
                            found = Some(i);
                        }
                    },
                    None => {},
                }
                i = i + 1;
            }
        } else {
            i = i + 1;
        }
    }
    found
}

fn angle_tilde_exec(s: Vec<char>) -> (r: Vec<char>)
    ensures
        r@ == angle_tilde(s@),
    decreases count_char(s@, '<'),
{
    match angle_scan_exec(&s) {
        None => s,
        Some(i) => {
            let n = s.len();
            proof {
                lemma_angle_scan(s@, 0, None);
                assert(angle_pair_at(s@, i as int));
            }
            assert(i < n);
            match crate::text::find_char_slice_from(s.as_slice(), '>', i + 1) {
                None => s,
                Some(j) => {
                    proof {
                        lemma_find_char_from(s@, '>', i + 1);
                        reveal_strlit("~");
                        assert("~"@ =~= seq!['~']);
                        reveal_with_fuel(count_char, 2);
                        assert(count_char(seq!['~'], '<') == 0);
                    }
                    let t = splice_exec(&s, i, j, "~", "~");
                    proof {
                        let inner = s@.subrange(i + 1, j as int);
                        lemma_angle_found(s@, i as int, j as int);
                        lemma_count_absent(inner, '<');
                        let r = "~"@ + inner + "~"@;
                        lemma_count_splice(s@, i as int, j as int, r, '<');
                        lemma_count_add("~"@ + inner, "~"@, '<');
                        lemma_count_add("~"@, inner, '<');
                    }
                    angle_tilde_exec(t)
                },
            }
        },
    }
}

/// A pair the scan reports starts with `<` and its inner part holds no `<`.
proof fn lemma_angle_found(s: Seq<char>, i: int, j: int)
    requires
        angle_scan(s, 0, None) == Some(i),
        find_char_from(s, '>', i + 1) == Some(j),
    ensures
        0 <= i < j < s.len(),
        s[i] == '<',
        s[j] == '>',
        find_char_from(s.subrange(i + 1, j), '<', 0) is None,
{
    lemma_angle_scan(s, 0, None);
    lemma_find_char_from(s, '>', i + 1);
}

/// A `<` at `x` whose next `>` closes a non-empty part free of `<`.
pub open spec fn angle_pair_at(s: Seq<char>, x: int) -> bool {
    &&& 0 <= x < s.len()
    &&& s[x] == '<'
    &&& find_char_from(s, '>', x + 1) matches Some(j) && j > x + 1 && find_char_from(s.subrange(x + 1, j), '<', 0) is None
}

/// What the scan reports is a real pair.
proof fn lemma_angle_scan(s: Seq<char>, i: int, found: Option<int>)
    requires
        found matches Some(x) ==> angle_pair_at(s, x),
    ensures
        angle_scan(s, i, found) matches Some(x) ==> angle_pair_at(s, x),
    decreases s.len() - i,
{
    if i < 0 || i >= s.len() {
    } else if s[i] == '<' {
        if i + 1 < s.len() && s[i + 1] == '<' {
            match gg_from(s, i + 2) {
                Some(k) => if i < k + 2 <= s.len() {
                    lemma_angle_scan(s, k + 2, found);
                },
                None => lemma_angle_scan(s, i + 2, found),
            }
        } else {
            let f = match find_char_from(s, '>', i + 1) {
                Some(j) => if j > i + 1 && find_char_from(s.subrange(i + 1, j), '<', 0) is None {
                    Some(i)
                } else {
                    found
                },
                None => found,
            };
            lemma_angle_scan(s, i + 1, f);
        }
    } else {
        lemma_angle_scan(s, i + 1, found);
    }
}

/// Angle-bracket generics (`Stack<T>`) written the Mermaid way (`Stack~T~`);
/// `<<stereotype>>` marks are left alone.
pub fn angle_generics_to_tilde(s: &str) -> (r: String)
    ensures
        r@ == angle_tilde(s@),
{
    let v = angle_tilde_exec(chars_of(s));
    string_of(v.as_slice())
}

} // verus!
