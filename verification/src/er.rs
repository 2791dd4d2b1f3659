//! Mermaid entity-relationship diagrams: model, parser and Mermaid output.

use vstd::prelude::*;
use crate::text::{
    chars_of, eq_slice, find, find_slice, first, flat, is_alphanumeric, alphanumeric,
    keep_content, kept_numbered, lemma_flat_all, lemma_flat_step, lines, numbered, numbered_lines,
    push_chars, seqs, slice_to_vec, split_char, split_char_slice, split_once, split_once_exec,
    starts_with, str_eq, string_of, trim, trim_slice, uppercase, to_uppercase, words, words_of,
    contains_char, ends_with, lemma_find_from, occurs_at,
};
use crate::state::{assoc_default, assoc_insert, key_pos, keys_of, lemma_key_pos_from, pos_in};

verus! {

/// How many of one side may relate to the other.
#[derive(Clone, Copy, Debug, PartialEq, Eq, Structural)]
pub enum Cardinality {
    /// Exactly one `||` or `|`
    One,
    /// Zero or one `|o` / `o|`
    ZeroOrOne,
    /// Zero or more `}o` / `o{`
    ZeroOrMore,
    /// One or more `}|` / `|{`
    OneOrMore,
}

impl Cardinality {
    /// Mermaid marker on the left of the line.
    pub fn mermaid_left(self) -> (r: &'static str)
        ensures
            r@ == card_left(self),
    {
        match self {
            Cardinality::One => "||",
            Cardinality::ZeroOrOne => "|o",
            Cardinality::ZeroOrMore => "}o",
            Cardinality::OneOrMore => "}|",
        }
    }

    /// Mermaid marker on the right of the line.
    pub fn mermaid_right(self) -> (r: &'static str)
        ensures
            r@ == card_right(self),
    {
        match self {
            Cardinality::One => "||",
            Cardinality::ZeroOrOne => "o|",
            Cardinality::ZeroOrMore => "o{",
            Cardinality::OneOrMore => "|{",
        }
    }

    /// Short label drawn next to a line end.
    pub fn symbol(self) -> (r: &'static str)
        ensures
            r@ == match self {
                Cardinality::One => "1"@,
                Cardinality::ZeroOrOne => "0..1"@,
                Cardinality::ZeroOrMore => "0..*"@,
                Cardinality::OneOrMore => "1..*"@,
            },
    {
        match self {
            Cardinality::One => "1",
            Cardinality::ZeroOrOne => "0..1",
            Cardinality::ZeroOrMore => "0..*",
            Cardinality::OneOrMore => "1..*",
        }
    }
}

pub open spec fn card_left(c: Cardinality) -> Seq<char> {
    match c {
        Cardinality::One => "||"@,
        Cardinality::ZeroOrOne => "|o"@,
        Cardinality::ZeroOrMore => "}o"@,
        Cardinality::OneOrMore => "}|"@,
    }
}

pub open spec fn card_right(c: Cardinality) -> Seq<char> {
    match c {
        Cardinality::One => "||"@,
        Cardinality::ZeroOrOne => "o|"@,
        Cardinality::ZeroOrMore => "o{"@,
        Cardinality::OneOrMore => "|{"@,
    }
}

#[derive(Clone, Debug)]
pub struct Attribute {
    pub name: String,
    pub data_type: String,
    pub pk: bool,
    pub fk: bool,
    pub uk: bool,
}

#[derive(Clone, Debug)]
pub struct Entity {
    pub id: String,
    pub attributes: Vec<Attribute>,
}

#[derive(Clone, Debug)]
pub struct Relationship {
    pub from: String,
    pub to: String,
    pub from_card: Cardinality,
    pub to_card: Cardinality,
    pub identifying: bool,
    pub label: String,
}

#[derive(Clone, Debug)]
pub struct ErDiagram {
    pub entities: Vec<Entity>,
    pub relationships: Vec<Relationship>,
}

#[derive(Clone, Debug)]
pub struct ParseError {
    pub message: String,
    pub line: Option<usize>,
}

// ---------------------------------------------------------------- values

/// name, type, PK, FK, UK
pub type AttrV = (Seq<char>, Seq<char>, bool, bool, bool);

pub type EntityV = (Seq<char>, Seq<AttrV>);

/// from, to, from cardinality, to cardinality, identifying, label
pub type RelV = (Seq<char>, Seq<char>, Cardinality, Cardinality, bool, Seq<char>);

#[verifier::ext_equal]
pub ghost struct ErDiagramV {
    pub entities: Seq<EntityV>,
    pub relationships: Seq<RelV>,
}

pub open spec fn attr_v(a: Attribute) -> AttrV {
    (a.name@, a.data_type@, a.pk, a.fk, a.uk)
}

pub open spec fn attrs_v(v: Seq<Attribute>) -> Seq<AttrV> {
    Seq::new(v.len(), |i: int| attr_v(v[i]))
}

pub open spec fn entity_v(e: Entity) -> EntityV {
    (e.id@, attrs_v(e.attributes@))
}

pub open spec fn rel_v(r: Relationship) -> RelV {
    (r.from@, r.to@, r.from_card, r.to_card, r.identifying, r.label@)
}

pub open spec fn er_v(d: ErDiagram) -> ErDiagramV {
    ErDiagramV {
        entities: Seq::new(d.entities@.len(), |i: int| entity_v(d.entities@[i])),
        relationships: Seq::new(d.relationships@.len(), |i: int| rel_v(d.relationships@[i])),
    }
}

pub open spec fn eerr(e: ParseError) -> (Seq<char>, Option<int>) {
    (e.message@, match e.line {
        Some(n) => Some(n as int),
        None => None,
    })
}

// ---------------------------------------------------------------- grammar

/// Letters, digits, `_` and `-`.
pub open spec fn word_char(c: char) -> bool {
    alphanumeric(c) || c == '_' || c == '-'
}

pub open spec fn all_word(s: Seq<char>) -> bool {
    forall|i: int| 0 <= i < s.len() ==> word_char(#[trigger] s[i])
}

/// Drop trailing `{` characters (`trim_end_matches('{')`).
pub open spec fn trim_end_braces(s: Seq<char>) -> Seq<char>
    decreases s.len(),
{
    if s.len() > 0 && s.last() == '{' {
        trim_end_braces(s.drop_last())
    } else {
        s
    }
}

/// `NAME {`
pub open spec fn entity_block_start(text: Seq<char>) -> bool {
    let t = trim(text);
    let name = trim(trim_end_braces(t));
    &&& t.len() > 0
    &&& t.last() == '{'
    &&& find(t, "--"@) is None
    &&& find(t, ".."@) is None
    &&& name.len() > 0
    &&& all_word(name)
}

/// Whether one of the words from index 2 on reads as `flag` in capitals.
pub open spec fn has_flag(ps: Seq<Seq<char>>, flag: Seq<char>) -> bool {
    exists|i: int| 2 <= i < ps.len() && uppercase(#[trigger] ps[i]) == flag
}

/// `type name [PK] [FK] [UK]`
pub open spec fn attribute(text: Seq<char>) -> Result<AttrV, Seq<char>> {
    let ps = words(text);
    if ps.len() < 2 {
        Err("attribute needs type and name: "@ + text)
    } else {
        Ok((ps[1], ps[0], has_flag(ps, "PK"@), has_flag(ps, "FK"@), has_flag(ps, "UK"@)))
    }
}

/// Attribute lines of a block from index `j` to its closing `}`.
pub open spec fn block_attrs(ls: Seq<(int, Seq<char>)>, j: int, name: Seq<char>, attrs: Seq<AttrV>, n0: int) -> Result<(EntityV, int), (Seq<char>, Option<int>)>
    decreases ls.len() - j,
{
    if j < 0 || j >= ls.len() {
        Err(("unclosed entity block"@, Some(n0)))
    } else {
        let (ln, t) = ls[j];
        if t.len() > 0 && t[0] == '}' {
            Ok(((name, attrs), j + 1))
        } else {
            match attribute(t) {
                Ok(a) => block_attrs(ls, j + 1, name, attrs.push(a), n0),
                Err(m) => Err((m, Some(ln))),
            }
        }
    }
}

/// The entity block starting at line `i`, and the index after it.
pub open spec fn block(ls: Seq<(int, Seq<char>)>, i: int) -> Result<(EntityV, int), (Seq<char>, Option<int>)> {
    let (n, text) = ls[i];
    let name = trim(split_char(text, '{')[0]);
    if name.len() == 0 {
        Err(("entity block missing name"@, Some(n)))
    } else if text.contains('}') {
        Ok(((name, Seq::empty()), i + 1))
    } else {
        block_attrs(ls, i + 1, name, Seq::empty(), n)
    }
}

/// The relationship operators, in the order they are tried.
pub open spec fn rel_ops() -> Seq<Seq<char>> {
    seq!["||--"@, "|o--"@, "}o--"@, "}|--"@, "||.."@, "|o.."@, "}o.."@, "}|.."@]
}

/// Split before the first operator of the list (from `k` on) that occurs.
pub open spec fn split_rel_from(text: Seq<char>, k: int) -> Option<(Seq<char>, Seq<char>)>
    decreases 8 - k,
{
    if k < 0 || k >= 8 {
        None
    } else {
        match find(text, rel_ops()[k]) {
            Some(idx) => Some((text.subrange(0, idx), text.subrange(idx, text.len() as int))),
            None => split_rel_from(text, k + 1),
        }
    }
}

pub open spec fn left_card(s: Seq<char>) -> Option<Cardinality> {
    if s == "||"@ {
        Some(Cardinality::One)
    } else if s == "|o"@ {
        Some(Cardinality::ZeroOrOne)
    } else if s == "}o"@ {
        Some(Cardinality::ZeroOrMore)
    } else if s == "}|"@ {
        Some(Cardinality::OneOrMore)
    } else {
        None
    }
}

pub open spec fn right_card(s: Seq<char>) -> Option<(Cardinality, Seq<char>)> {
    if "||"@.is_prefix_of(s) {
        Some((Cardinality::One, s.subrange(2, s.len() as int)))
    } else if "o|"@.is_prefix_of(s) {
        Some((Cardinality::ZeroOrOne, s.subrange(2, s.len() as int)))
    } else if "o{"@.is_prefix_of(s) {
        Some((Cardinality::ZeroOrMore, s.subrange(2, s.len() as int)))
    } else if "|{"@.is_prefix_of(s) {
        Some((Cardinality::OneOrMore, s.subrange(2, s.len() as int)))
    } else {
        None
    }
}

/// `||--o{ rest`: identifying, the two cardinalities and what follows.
pub open spec fn rel_op(rest: Seq<char>) -> Option<(bool, Cardinality, Cardinality, Seq<char>)> {
    let identifying = find(rest, "--"@) is Some;
    let sep = if identifying { "--"@ } else { ".."@ };
    match find(rest, sep) {
        Some(si) => match left_card(rest.subrange(0, si)) {
            Some(lc) => match right_card(rest.subrange(si + 2, rest.len() as int)) {
                Some((rc, after)) => Some((identifying, lc, rc, after)),
                None => None,
            },
            None => None,
        },
        None => None,
    }
}

/// `A ||--o{ B : label`
pub open spec fn relationship(text: Seq<char>) -> Option<RelV> {
    match split_rel_from(text, 0) {
        Some((l, rest)) => {
            let from = trim(l);
            if from.len() == 0 {
                None
            } else {
                match rel_op(rest) {
                    Some((ident, lc, rc, after0)) => {
                        let after = trim(after0);
                        let (to, label) = match split_once(after, ":"@) {
                            Some((t, l2)) => (trim(t), trim(l2)),
                            None => (if words(after).len() > 0 { words(after)[0] } else { Seq::empty() }, Seq::<char>::empty()),
                        };
                        if to.len() == 0 {
                            None
                        } else {
                            Some((from, to, lc, rc, ident, label))
                        }
                    },
                    None => None,
                }
            }
        },
        None => None,
    }
}

/// Reader state: entities by id in order of first appearance, and relationships.
#[verifier::ext_equal]
pub ghost struct ErSt {
    pub ents: Seq<(Seq<char>, Seq<AttrV>)>,
    pub rels: Seq<RelV>,
}

/// One line at index `i`: the index of the next line and the new state.
pub open spec fn er_step(ls: Seq<(int, Seq<char>)>, i: int, st: ErSt) -> Result<(int, ErSt), (Seq<char>, Option<int>)> {
    let (n, text) = ls[i];
    if entity_block_start(text) {
        match block(ls, i) {
            Ok((e, next)) => Ok((next, ErSt { ents: assoc_insert(st.ents, e.0, e.1), ..st })),
            Err(e) => Err(e),
        }
    } else if let Some(r) = relationship(text) {
        Ok((i + 1, ErSt {
            ents: assoc_default(assoc_default(st.ents, r.0, Seq::empty()), r.1, Seq::empty()),
            rels: st.rels.push(r),
        }))
    } else if all_word(text) {
        Ok((i + 1, ErSt { ents: assoc_default(st.ents, text, Seq::empty()), ..st }))
    } else {
        Err(("unrecognized ER line: "@ + text, Some(n)))
    }
}

pub open spec fn er_run(ls: Seq<(int, Seq<char>)>, i: int, st: ErSt) -> Result<ErSt, (Seq<char>, Option<int>)>
    decreases ls.len() - i,
{
    if i < 1 || i >= ls.len() {
        Ok(st)
    } else {
        match er_step(ls, i, st) {
            Ok((j, s2)) => if i < j && j <= ls.len() {
                er_run(ls, j, s2)
            } else {
                Ok(s2)
            },
            Err(e) => Err(e),
        }
    }
}

/// Lexicographic order of character sequences (the order of `String`).
pub open spec fn str_lt(a: Seq<char>, b: Seq<char>) -> bool
    decreases a.len(),
{
    if b.len() == 0 {
        false
    } else if a.len() == 0 {
        true
    } else if a[0] != b[0] {
        (a[0] as u32) < (b[0] as u32)
    } else {
        str_lt(a.drop_first(), b.drop_first())
    }
}

/// Insert before the first entity whose id is larger.
pub open spec fn ins(sorted: Seq<EntityV>, e: EntityV) -> Seq<EntityV> {
    match first(sorted, |x: EntityV| str_lt(e.0, x.0)) {
        Some(j) => sorted.insert(j, e),
        None => sorted.push(e),
    }
}

/// Entities ordered by id.
pub open spec fn sort_entities(s: Seq<EntityV>) -> Seq<EntityV>
    decreases s.len(),
{
    if s.len() == 0 {
        Seq::empty()
    } else {
        ins(sort_entities(s.drop_last()), s.last())
    }
}

/// What parsing an ER diagram source gives.
pub open spec fn er_parse(src: Seq<char>) -> Result<ErDiagramV, (Seq<char>, Option<int>)> {
    let ls = kept_numbered(lines(src), |l: Seq<char>| keep_content(l));
    if ls.len() == 0 {
        Err(("expected erDiagram header"@, None))
    } else if !("erDiagram"@.is_prefix_of(ls[0].1)) {
        Err(("expected erDiagram header"@, Some(ls[0].0)))
    } else {
        match er_run(ls, 1, ErSt { ents: Seq::empty(), rels: Seq::empty() }) {
            Ok(st) => Ok(ErDiagramV { entities: sort_entities(st.ents), relationships: st.rels }),
            Err(e) => Err(e),
        }
    }
}

// ---------------------------------------------------------------- writing

pub open spec fn attr_line(a: AttrV) -> Seq<char> {
    "        "@ + a.1 + " "@ + a.0 + (if a.2 { " PK"@ } else { Seq::empty() }) + (if a.3 { " FK"@ } else { Seq::empty() }) + (if a.4 { " UK"@ } else { Seq::empty() }) + "\n"@
}

pub open spec fn entity_text(e: EntityV) -> Seq<char> {
    if e.1.len() == 0 {
        Seq::empty()
    } else {
        "    "@ + e.0 + " {\n"@ + flat(e.1, |a: AttrV| attr_line(a)) + "    }\n"@
    }
}

pub open spec fn rel_text(r: RelV) -> Seq<char> {
    let op = card_left(r.2) + (if r.4 { "--"@ } else { ".."@ }) + card_right(r.3);
    if r.5.len() == 0 {
        "    "@ + r.0 + " "@ + op + " "@ + r.1 + "\n"@
    } else {
        "    "@ + r.0 + " "@ + op + " "@ + r.1 + " : "@ + r.5 + "\n"@
    }
}

/// Whether an id takes part in some relationship.
pub open spec fn related(rels: Seq<RelV>, id: Seq<char>) -> bool {
    exists|i: int| 0 <= i < rels.len() && ((#[trigger] rels[i]).0 == id || rels[i].1 == id)
}

pub open spec fn bare_text(rels: Seq<RelV>, e: EntityV) -> Seq<char> {
    if e.1.len() == 0 && !related(rels, e.0) {
        "    "@ + e.0 + "\n"@
    } else {
        Seq::empty()
    }
}

/// Mermaid text of an ER diagram.
pub open spec fn er_mermaid(d: ErDiagramV) -> Seq<char> {
    "erDiagram\n"@ + flat(d.entities, |e: EntityV| entity_text(e)) + flat(d.relationships, |r: RelV| rel_text(r)) + flat(
        d.entities,
        |e: EntityV| bare_text(d.relationships, e),
    )
}


// ---------------------------------------------------------------- reading

pub(crate) fn all_word_exec(s: &[char]) -> (b: bool)
    ensures
        b == all_word(s@),
{
    let mut i: usize = 0;
    while i < s.len()
        invariant
            i <= s@.len(),
            forall|j: int| 0 <= j < i ==> word_char(#[trigger] s@[j]),
        decreases s@.len() - i,
    {
        let c = s[i];
        if !(is_alphanumeric(c) || c == '_' || c == '-') {
            assert(!word_char(s@[i as int]));
            return false;
        }
        i = i + 1;
    }
    true
}

fn trim_end_braces_exec(s: &[char]) -> (r: &[char])
    ensures
        r@ == trim_end_braces(s@),
{
    let mut j = s.len();
    assert(s@.subrange(0, j as int) =~= s@);
    while j > 0 && s[j - 1] == '{'
        invariant
            j <= s@.len(),
            trim_end_braces(s@) == trim_end_braces(s@.subrange(0, j as int)),
        decreases j,
    {
        assert(s@.subrange(0, j as int).drop_last() =~= s@.subrange(0, j - 1));
        j = j - 1;
    }
    &s[0..j]
}

fn entity_block_start_exec(text: &[char]) -> (b: bool)
    ensures
        b == entity_block_start(text@),
{
    let t = trim_slice(text);
    if t.len() == 0 || t[t.len() - 1] != '{' {
        return false;
    }
    if find_slice(t, chars_of("--").as_slice()).is_some() || find_slice(t, chars_of("..").as_slice()).is_some() {
        return false;
    }
    let name = trim_slice(trim_end_braces_exec(t));
    name.len() > 0 && all_word_exec(name)
}

fn has_flag_exec(ps: &Vec<Vec<char>>, flag: &str) -> (b: bool)
    ensures
        b == has_flag(seqs(ps@), flag@),
{
    let ghost sv = seqs(ps@);
    let mut i: usize = 2;
    while i < ps.len()
        invariant
            2 <= i,
            sv == seqs(ps@),
            forall|j: int| 2 <= j < i && j < sv.len() ==> uppercase(#[trigger] sv[j]) != flag@,
        decreases ps@.len() - i,
    {
        let up = to_uppercase(string_of(ps[i].as_slice()).as_str());
        assert(sv[i as int] == ps@[i as int]@);
        if str_eq(up.as_str(), flag) {
            return true;
        }
        i = i + 1;
    }
    false
}

fn attribute_exec(text: &[char]) -> (r: Result<Attribute, String>)
    ensures
        match attribute(text@) {
            Ok(a) => r matches Ok(x) && attr_v(x) == a,
            Err(m) => r matches Err(s) && s@ == m,
        },
{
    let ps = words_of(text);
    let ghost sv = seqs(ps@);
    if ps.len() < 2 {
        let mut msg = String::from_str("attribute needs type and name: ");
        push_chars(&mut msg, text);
        return Err(msg);
    }
    assert(sv[0] == ps@[0]@ && sv[1] == ps@[1]@);
    let pk = has_flag_exec(&ps, "PK");
    let fk = has_flag_exec(&ps, "FK");
    let uk = has_flag_exec(&ps, "UK");
    Ok(Attribute {
        name: string_of(ps[1].as_slice()),
        data_type: string_of(ps[0].as_slice()),
        pk,
        fk,
        uk,
    })
}

fn perr(msg: &str, line: Option<usize>) -> (e: ParseError)
    ensures
        e.message@ == msg@,
        e.line == line,
{
    ParseError { message: String::from_str(msg), line }
}

fn block_exec(ls: &Vec<(usize, Vec<char>)>, i: usize) -> (r: Result<(Entity, usize), ParseError>)
    requires
        i < ls@.len(),
    ensures
        match block(numbered(ls@), i as int) {
            Ok((e, next)) => r matches Ok((x, k)) && entity_v(x) == e && k == next,
            Err(e) => r matches Err(x) && eerr(x) == e,
        },
{
    let ghost nl = numbered(ls@);
    let len = ls.len();
    assert(nl[i as int] == (ls@[i as int].0 as int, ls@[i as int].1@));
    let n = ls[i].0;
    let text = ls[i].1.as_slice();
    let parts = split_char_slice(text, '{');
    proof {
        crate::text::lemma_split_char_nonempty(text@, '{');
    }
    assert(seqs(parts@)[0] == parts@[0]@);
    let name = trim_slice(parts[0].as_slice());
    if name.len() == 0 {
        return Err(perr("entity block missing name", Some(n)));
    }
    if contains_char(text, '}') {
        let e = Entity { id: string_of(name), attributes: Vec::new() };
        assert(attrs_v(e.attributes@) =~= Seq::<AttrV>::empty());
        return Ok((e, i + 1));
    }
    let mut attrs: Vec<Attribute> = Vec::new();
    let mut j = i + 1;
    assert(attrs_v(attrs@) =~= Seq::<AttrV>::empty());
    assert(name@ == trim(split_char(text@, '{')[0]));
    while j < len
        invariant
            i < j <= len,
            len == ls@.len(),
            nl == numbered(ls@),
            block_attrs(nl, j as int, name@, attrs_v(attrs@), n as int) == block(nl, i as int),
        decreases len - j,
    {
        assert(nl[j as int] == (ls@[j as int].0 as int, ls@[j as int].1@));
        let t = ls[j].1.as_slice();
        if t.len() > 0 && t[0] == '}' {
            let e = Entity { id: string_of(name), attributes: attrs };
            return Ok((e, j + 1));
        }
        match attribute_exec(t) {
            Ok(a) => {
                let ghost before = attrs_v(attrs@);
                attrs.push(a);
                assert(attrs_v(attrs@) =~= before.push(attr_v(a)));
            },
            Err(m) => {
                return Err(ParseError { message: m, line: Some(ls[j].0) });
            },
        }
        j = j + 1;
    }
    Err(perr("unclosed entity block", Some(n)))
}

fn rel_op_str(k: usize) -> (r: &'static str)
    requires
        k < 8,
    ensures
        r@ == rel_ops()[k as int],
{
    if k == 0 {
        "||--"
    } else if k == 1 {
        "|o--"
    } else if k == 2 {
        "}o--"
    } else if k == 3 {
        "}|--"
    } else if k == 4 {
        "||.."
    } else if k == 5 {
        "|o.."
    } else if k == 6 {
        "}o.."
    } else {
        "}|.."
    }
}

fn split_rel_exec(text: &[char]) -> (r: Option<(Vec<char>, Vec<char>)>)
    ensures
        match split_rel_from(text@, 0) {
            Some((a, b)) => r matches Some((x, y)) && x@ == a && y@ == b,
            None => r is None,
        },
{
    let mut k: usize = 0;
    while k < 8
        invariant
            k <= 8,
            split_rel_from(text@, 0) == split_rel_from(text@, k as int),
        decreases 8 - k,
    {
        let op = chars_of(rel_op_str(k));
        proof {
            lemma_find_from(text@, op@, 0);
        }
        match find_slice(text, op.as_slice()) {
            Some(idx) => {
                return Some((slice_to_vec(&text[0..idx]), slice_to_vec(&text[idx..text.len()])));
            },
            None => {},
        }
        k = k + 1;
    }
    None
}

fn left_card_exec(s: &[char]) -> (r: Option<Cardinality>)
    ensures
        r == left_card(s@),
{
    if eq_slice(s, chars_of("||").as_slice()) {
        Some(Cardinality::One)
    } else if eq_slice(s, chars_of("|o").as_slice()) {
        Some(Cardinality::ZeroOrOne)
    } else if eq_slice(s, chars_of("}o").as_slice()) {
        Some(Cardinality::ZeroOrMore)
    } else if eq_slice(s, chars_of("}|").as_slice()) {
        Some(Cardinality::OneOrMore)
    } else {
        None
    }
}

fn right_card_exec(s: &[char]) -> (r: Option<(Cardinality, Vec<char>)>)
    ensures
        match right_card(s@) {
            Some((c, rest)) => r matches Some((x, v)) && x == c && v@ == rest,
            None => r is None,
        },
{
    proof {
        reveal_strlit("||");
        reveal_strlit("o|");
        reveal_strlit("o{");
        reveal_strlit("|{");
    }
    if starts_with(s, chars_of("||").as_slice()) {
        Some((Cardinality::One, slice_to_vec(&s[2..s.len()])))
    } else if starts_with(s, chars_of("o|").as_slice()) {
        Some((Cardinality::ZeroOrOne, slice_to_vec(&s[2..s.len()])))
    } else if starts_with(s, chars_of("o{").as_slice()) {
        Some((Cardinality::ZeroOrMore, slice_to_vec(&s[2..s.len()])))
    } else if starts_with(s, chars_of("|{").as_slice()) {
        Some((Cardinality::OneOrMore, slice_to_vec(&s[2..s.len()])))
    } else {
        None
    }
}

fn rel_op_exec(rest: &[char]) -> (r: Option<(bool, Cardinality, Cardinality, Vec<char>)>)
    ensures
        match rel_op(rest@) {
            Some((a, b, c, d)) => r matches Some((w, x, y, z)) && w == a && x == b && y == c && z@ == d,
            None => r is None,
        },
{
    let dash = chars_of("--");
    let dots = chars_of("..");
    proof {
        reveal_strlit("--");
        reveal_strlit("..");
    }
    let identifying = find_slice(rest, dash.as_slice()).is_some();
    let sep = if identifying { dash } else { dots };
    assert(sep@.len() == 2);
    proof {
        lemma_find_from(rest@, sep@, 0);
    }
    let si = match find_slice(rest, sep.as_slice()) {
        Some(si) => si,
        None => return None,
    };
    assert(occurs_at(rest@, sep@, si as int));
    let n = rest.len();
    let lc = match left_card_exec(&rest[0..si]) {
        Some(c) => c,
        None => return None,
    };
    match right_card_exec(&rest[si + 2..n]) {
        Some((rc, after)) => Some((identifying, lc, rc, after)),
        None => None,
    }
}

fn relationship_exec(text: &[char]) -> (r: Option<Relationship>)
    ensures
        match relationship(text@) {
            Some(v) => r matches Some(x) && rel_v(x) == v,
            None => r is None,
        },
{
    let (l, rest) = match split_rel_exec(text) {
        Some(p) => p,
        None => return None,
    };
    let from = trim_slice(l.as_slice());
    if from.len() == 0 {
        return None;
    }
    let (ident, lc, rc, after0) = match rel_op_exec(rest.as_slice()) {
        Some(q) => q,
        None => return None,
    };
    let after = trim_slice(after0.as_slice());
    let (to, label) = match split_once_exec(after, ":") {
        Some((t, l2)) => (slice_to_vec(trim_slice(t.as_slice())), slice_to_vec(trim_slice(l2.as_slice()))),
        None => {
            let ws = words_of(after);
            assert(ws@.len() > 0 ==> seqs(ws@)[0] == ws@[0]@);
            if ws.len() > 0 {
                (slice_to_vec(ws[0].as_slice()), Vec::new())
            } else {
                (Vec::new(), Vec::new())
            }
        },
    };
    if to.len() == 0 {
        return None;
    }
    Some(Relationship {
        from: string_of(from),
        to: string_of(to.as_slice()),
        from_card: lc,
        to_card: rc,
        identifying: ident,
        label: string_of(label.as_slice()),
    })
}

/// Entities by id in order of first appearance, with their ids alongside.
struct ErX {
    keys: Vec<Vec<char>>,
    ents: Vec<Entity>,
    rels: Vec<Relationship>,
}

spec fn erx_wf(x: ErX) -> bool {
    &&& x.keys@.len() == x.ents@.len()
    &&& forall|i: int| 0 <= i < x.keys@.len() ==> (#[trigger] x.ents@[i]).id@ == x.keys@[i]@
}

spec fn erx_v(x: ErX) -> ErSt {
    ErSt {
        ents: Seq::new(x.keys@.len(), |i: int| (x.keys@[i]@, attrs_v(x.ents@[i].attributes@))),
        rels: Seq::new(x.rels@.len(), |i: int| rel_v(x.rels@[i])),
    }
}

fn upsert_entity(x: &mut ErX, k: &[char], e: Entity, replace: bool)
    requires
        erx_wf(*old(x)),
        e.id@ == k@,
    ensures
        erx_wf(*final(x)),
        erx_v(*final(x)) == (ErSt {
            ents: if replace {
                assoc_insert(erx_v(*old(x)).ents, k@, attrs_v(e.attributes@))
            } else {
                assoc_default(erx_v(*old(x)).ents, k@, attrs_v(e.attributes@))
            },
            ..erx_v(*old(x))
        }),
{
    let ghost x0 = erx_v(*x);
    let ghost m = x0.ents;
    let ghost ev = attrs_v(e.attributes@);
    assert(keys_of(m) =~= seqs(x.keys@));
    match pos_in(&x.keys, k) {
        Some(j) => {
            if replace {
                x.ents.set(j, e);
                x.keys.set(j, slice_to_vec(k));
                assert(erx_v(*x).ents =~= m.update(j as int, (k@, ev)));
            }
        },
        None => {
            x.keys.push(slice_to_vec(k));
            x.ents.push(e);
            assert(erx_v(*x).ents =~= m.push((k@, ev)));
        },
    }
    assert(erx_v(*x).rels =~= x0.rels);
}

fn bare_entity(k: &[char]) -> (e: Entity)
    ensures
        e.id@ == k@,
        attrs_v(e.attributes@) == Seq::<AttrV>::empty(),
{
    let e = Entity { id: string_of(k), attributes: Vec::new() };
    assert(attrs_v(e.attributes@) =~= Seq::<AttrV>::empty());
    e
}

fn er_step_exec(x: &mut ErX, ls: &Vec<(usize, Vec<char>)>, i: usize) -> (r: Result<usize, ParseError>)
    requires
        erx_wf(*old(x)),
        1 <= i < ls@.len(),
    ensures
        erx_wf(*final(x)),
        match er_step(numbered(ls@), i as int, erx_v(*old(x))) {
            Ok((j, st)) => r matches Ok(k) && k == j && erx_v(*final(x)) == st && i < k <= ls@.len(),
            Err(e) => r matches Err(y) && eerr(y) == e,
        },
{
    let ghost nl = numbered(ls@);
    let len = ls.len();
    assert(nl[i as int] == (ls@[i as int].0 as int, ls@[i as int].1@));
    let n = ls[i].0;
    let text = ls[i].1.as_slice();
    if entity_block_start_exec(text) {
        proof {
            lemma_block_next(nl, i as int);
        }
        match block_exec(ls, i) {
            Ok((e, next)) => {
                let k = chars_of(e.id.as_str());
                upsert_entity(x, k.as_slice(), e, true);
                return Ok(next);
            },
            Err(e) => return Err(e),
        }
    }
    match relationship_exec(text) {
        Some(rel) => {
            let f = chars_of(rel.from.as_str());
            let t = chars_of(rel.to.as_str());
            upsert_entity(x, f.as_slice(), bare_entity(f.as_slice()), false);
            upsert_entity(x, t.as_slice(), bare_entity(t.as_slice()), false);
            let ghost before = erx_v(*x);
            let ghost rv = rel_v(rel);
            x.rels.push(rel);
            assert(erx_v(*x).rels =~= before.rels.push(rv));
            assert(erx_v(*x).ents =~= before.ents);
            return Ok(i + 1);
        },
        None => {},
    }
    if all_word_exec(text) {
        upsert_entity(x, text, bare_entity(text), false);
        return Ok(i + 1);
    }
    let mut msg = String::from_str("unrecognized ER line: ");
    push_chars(&mut msg, text);
    Err(ParseError { message: msg, line: Some(n) })
}

/// `a < b` in the order of `String`.
pub(crate) fn str_lt_exec(a: &[char], b: &[char]) -> (r: bool)
    ensures
        r == str_lt(a@, b@),
{
    let mut i: usize = 0;
    assert(a@.subrange(0, a@.len() as int) =~= a@);
    assert(b@.subrange(0, b@.len() as int) =~= b@);
    while i < a.len() && i < b.len() && a[i] == b[i]
        invariant
            i <= a@.len(),
            i <= b@.len(),
            str_lt(a@, b@) == str_lt(a@.subrange(i as int, a@.len() as int), b@.subrange(i as int, b@.len() as int)),
        decreases a@.len() - i,
    {
        assert(a@.subrange(i as int, a@.len() as int).drop_first() =~= a@.subrange(i + 1, a@.len() as int));
        assert(b@.subrange(i as int, b@.len() as int).drop_first() =~= b@.subrange(i + 1, b@.len() as int));
        i = i + 1;
    }
    let ghost sa = a@.subrange(i as int, a@.len() as int);
    let ghost sb = b@.subrange(i as int, b@.len() as int);
    if i == b.len() {
        assert(sb.len() == 0);
        false
    } else if i == a.len() {
        true
    } else {
        assert(sa[0] == a@[i as int] && sb[0] == b@[i as int]);
        (a[i] as u32) < (b[i] as u32)
    }
}

/// Entities ordered by id (insertion sort).
fn sort_entities_exec(ents: Vec<Entity>) -> (r: Vec<Entity>)
    ensures
        Seq::new(r@.len(), |i: int| entity_v(r@[i])) == sort_entities(Seq::new(ents@.len(), |i: int| entity_v(ents@[i]))),
{
    let ghost all = Seq::new(ents@.len(), |i: int| entity_v(ents@[i]));
    let mut sorted: Vec<Entity> = Vec::new();
    let mut rest = ents;
    let ghost f = |x: EntityV| x;
    assert(all.take(0) =~= Seq::<EntityV>::empty());
    while rest.len() > 0
        invariant
            all.len() == ents@.len(),
            rest@.len() <= all.len(),
            forall|k: int| 0 <= k < rest@.len() ==> entity_v(#[trigger] rest@[k]) == all[all.len() - rest@.len() + k],
            Seq::new(sorted@.len(), |i: int| entity_v(sorted@[i])) == sort_entities(all.take(all.len() - rest@.len())),
        decreases rest@.len(),
    {
        let ghost done = all.len() - rest@.len();
        let e = rest.remove(0);
        assert(entity_v(e) == all[done]);
        let ghost sv = Seq::new(sorted@.len(), |i: int| entity_v(sorted@[i]));
        let ghost p = |x: EntityV| str_lt(entity_v(e).0, x.0);
        let key = chars_of(e.id.as_str());
        let mut j: usize = 0;
        while j < sorted.len() && !str_lt_exec(key.as_slice(), chars_of(sorted[j].id.as_str()).as_slice())
            invariant
                j <= sorted@.len(),
                sv == Seq::new(sorted@.len(), |i: int| entity_v(sorted@[i])),
                key@ == e.id@,
                p == (|x: EntityV| str_lt(entity_v(e).0, x.0)),
                first(sv, p) == crate::text::first_from(sv, p, j as int),
            decreases sorted@.len() - j,
        {
            assert(sv[j as int] == entity_v(sorted@[j as int]));
            j = j + 1;
        }
        proof {
            if j < sorted@.len() {
                assert(sv[j as int] == entity_v(sorted@[j as int]));
            }
            let t1 = all.take(done + 1);
            assert(t1.drop_last() =~= all.take(done));
            assert(t1.last() == all[done]);
            crate::text::lemma_first_from(sv, p, j as int);
            assert(sort_entities(t1) == ins(sv, entity_v(e)));
        }
        if j < sorted.len() {
            sorted.insert(j, e);
            assert(Seq::new(sorted@.len(), |i: int| entity_v(sorted@[i])) =~= sv.insert(j as int, entity_v(e)));
        } else {
            sorted.push(e);
            assert(Seq::new(sorted@.len(), |i: int| entity_v(sorted@[i])) =~= sv.push(entity_v(e)));
        }
    }
    assert(all.take(all.len() as int) =~= all);
    sorted
}

/// Read a Mermaid ER diagram.
pub fn parse(source: &str) -> (r: Result<ErDiagram, ParseError>)
    ensures
        match er_parse(source@) {
            Ok(v) => r matches Ok(d) && er_v(d) == v,
            Err(e) => r matches Err(x) && eerr(x) == e,
        },
{
    let ls = numbered_lines(source);
    let ghost nl = numbered(ls@);
    if ls.len() == 0 {
        return Err(perr("expected erDiagram header", None));
    }
    assert(nl[0] == (ls@[0].0 as int, ls@[0].1@));
    if !starts_with(ls[0].1.as_slice(), chars_of("erDiagram").as_slice()) {
        return Err(perr("expected erDiagram header", Some(ls[0].0)));
    }
    let mut x = ErX { keys: Vec::new(), ents: Vec::new(), rels: Vec::new() };
    let ghost empty = ErSt { ents: Seq::empty(), rels: Seq::empty() };
    assert(erx_v(x) =~= empty);
    let mut i: usize = 1;
    while i < ls.len()
        invariant
            1 <= i <= ls@.len(),
            erx_wf(x),
            nl == numbered(ls@),
            nl == kept_numbered(lines(source@), |l: Seq<char>| keep_content(l)),
            nl.len() > 0 && "erDiagram"@.is_prefix_of(nl[0].1),
            empty == (ErSt { ents: Seq::empty(), rels: Seq::empty() }),
            er_run(nl, i as int, erx_v(x)) == er_run(nl, 1, empty),
        decreases ls@.len() - i,
    {
        match er_step_exec(&mut x, &ls, i) {
            Ok(k) => {
                i = k;
            },
            Err(e) => {
                return Err(e);
            },
        }
    }
    let ghost st = erx_v(x);
    assert(Seq::new(x.ents@.len(), |i: int| entity_v(x.ents@[i])) =~= st.ents);
    let ErX { keys, ents, rels } = x;
    let sorted = sort_entities_exec(ents);
    let d = ErDiagram { entities: sorted, relationships: rels };
    assert(er_v(d).relationships =~= st.rels);
    assert(er_v(d).entities =~= sort_entities(st.ents));
    Ok(d)
}

pub proof fn lemma_block_next(ls: Seq<(int, Seq<char>)>, i: int)
    requires
        0 <= i < ls.len(),
    ensures
        block(ls, i) matches Ok((e, next)) ==> i < next <= ls.len(),
{
    let (n, text) = ls[i];
    let name = trim(split_char(text, '{')[0]);
    if name.len() > 0 && !text.contains('}') {
        lemma_block_attrs_next(ls, i + 1, name, Seq::empty(), n);
    }
}

proof fn lemma_block_attrs_next(ls: Seq<(int, Seq<char>)>, j: int, name: Seq<char>, attrs: Seq<AttrV>, n0: int)
    requires
        0 <= j,
    ensures
        block_attrs(ls, j, name, attrs, n0) matches Ok((e, next)) ==> j < next <= ls.len(),
    decreases ls.len() - j,
{
    if j < ls.len() {
        let (ln, t) = ls[j];
        if !(t.len() > 0 && t[0] == '}') {
            if let Ok(a) = attribute(t) {
                lemma_block_attrs_next(ls, j + 1, name, attrs.push(a), n0);
            }
        }
    }
}


/// Whether the first content line starts an ER diagram.
pub fn is_er(source: &str) -> (b: bool)
    ensures
        b == crate::sequence::first_content_starts(source@, "erDiagram"@),
{
    let ls = numbered_lines(source);
    let ghost nl = numbered(ls@);
    if ls.len() == 0 {
        return false;
    }
    assert(nl[0] == (ls@[0].0 as int, ls@[0].1@));
    starts_with(ls[0].1.as_slice(), chars_of("erDiagram").as_slice())
}

#[verifier::rlimit(40)]
fn entity_text_exec(e: &Entity) -> (r: String)
    ensures
        r@ == entity_text(entity_v(*e)),
{
    let ghost ev = entity_v(*e);
    let mut out = String::new();
    if e.attributes.len() == 0 {
        return out;
    }
    out.append("    ");
    out.append(e.id.as_str());
    out.append(" {\n");
    let ghost base = out@;
    let ghost fa = |a: AttrV| attr_line(a);
    let mut i: usize = 0;
    while i < e.attributes.len()
        invariant
            i <= e.attributes@.len(),
            ev == entity_v(*e),
            fa == (|a: AttrV| attr_line(a)),
            out@ == base + flat(ev.1.take(i as int), fa),
        decreases e.attributes@.len() - i,
    {
        proof {
            lemma_flat_step(ev.1, fa, i as int);
        }
        let a = &e.attributes[i];
        out.append("        ");
        out.append(a.data_type.as_str());
        out.append(" ");
        out.append(a.name.as_str());
        if a.pk {
            out.append(" PK");
        }
        if a.fk {
            out.append(" FK");
        }
        if a.uk {
            out.append(" UK");
        }
        out.append("\n");
        assert(out@ =~= base + flat(ev.1.take(i + 1), fa));
        i = i + 1;
    }
    proof {
        lemma_flat_all(ev.1, fa);
    }
    out.append("    }\n");
    out
}

fn rel_text_exec(r: &Relationship) -> (out: String)
    ensures
        out@ == rel_text(rel_v(*r)),
{
    let mut out = String::from_str("    ");
    out.append(r.from.as_str());
    out.append(" ");
    out.append(r.from_card.mermaid_left());
    if r.identifying {
        out.append("--");
    } else {
        out.append("..");
    }
    out.append(r.to_card.mermaid_right());
    out.append(" ");
    out.append(r.to.as_str());
    proof {
        reveal_strlit("");
    }
    if str_eq(r.label.as_str(), "") {
        assert(r.label@.len() == 0);
        out.append("\n");
    } else {
        assert(r.label@.len() != 0) by {
            if r.label@.len() == 0 {
                assert(r.label@ =~= ""@);
            }
        }
        out.append(" : ");
        out.append(r.label.as_str());
        out.append("\n");
    }
    out
}

fn related_exec(rels: &Vec<Relationship>, id: &str) -> (b: bool)
    ensures
        b == related(Seq::new(rels@.len(), |i: int| rel_v(rels@[i])), id@),
{
    let ghost rv = Seq::new(rels@.len(), |i: int| rel_v(rels@[i]));
    let mut i: usize = 0;
    while i < rels.len()
        invariant
            i <= rels@.len(),
            rv == Seq::new(rels@.len(), |i: int| rel_v(rels@[i])),
            forall|k: int| 0 <= k < i ==> !((#[trigger] rv[k]).0 == id@ || rv[k].1 == id@),
        decreases rels@.len() - i,
    {
        assert(rv[i as int] == rel_v(rels@[i as int]));
        if str_eq(rels[i].from.as_str(), id) || str_eq(rels[i].to.as_str(), id) {
            return true;
        }
        i = i + 1;
    }
    false
}

impl ErDiagram {
    /// Mermaid text of the diagram.
    pub fn to_mermaid(&self) -> (r: String)
        ensures
            r@ == er_mermaid(er_v(*self)),
    {
        let ghost dv = er_v(*self);
        let mut out = String::from_str("erDiagram\n");
        let ghost base = out@;
        let ghost fe = |e: EntityV| entity_text(e);
        let mut i: usize = 0;
        while i < self.entities.len()
            invariant
                i <= self.entities@.len(),
                dv == er_v(*self),
                fe == (|e: EntityV| entity_text(e)),
                out@ == base + flat(dv.entities.take(i as int), fe),
            decreases self.entities@.len() - i,
        {
            proof {
                lemma_flat_step(dv.entities, fe, i as int);
            }
            out.append(entity_text_exec(&self.entities[i]).as_str());
            i = i + 1;
        }
        proof {
            lemma_flat_all(dv.entities, fe);
        }
        let ghost base = out@;
        let ghost fr = |r: RelV| rel_text(r);
        let mut i: usize = 0;
        while i < self.relationships.len()
            invariant
                i <= self.relationships@.len(),
                dv == er_v(*self),
                fr == (|r: RelV| rel_text(r)),
                out@ == base + flat(dv.relationships.take(i as int), fr),
            decreases self.relationships@.len() - i,
        {
            proof {
                lemma_flat_step(dv.relationships, fr, i as int);
            }
            out.append(rel_text_exec(&self.relationships[i]).as_str());
            i = i + 1;
        }
        proof {
            lemma_flat_all(dv.relationships, fr);
        }
        let ghost base = out@;
        let ghost fb = |e: EntityV| bare_text(dv.relationships, e);
        let mut i: usize = 0;
        while i < self.entities.len()
            invariant
                i <= self.entities@.len(),
                dv == er_v(*self),
                fb == (|e: EntityV| bare_text(dv.relationships, e)),
                out@ == base + flat(dv.entities.take(i as int), fb),
            decreases self.entities@.len() - i,
        {
            proof {
                lemma_flat_step(dv.entities, fb, i as int);
            }
            let e = &self.entities[i];
            if e.attributes.len() == 0 && !related_exec(&self.relationships, e.id.as_str()) {
                out.append("    ");
                out.append(e.id.as_str());
                out.append("\n");
            }
            i = i + 1;
        }
        proof {
            lemma_flat_all(dv.entities, fb);
        }
        out
    }
}

} // verus!
