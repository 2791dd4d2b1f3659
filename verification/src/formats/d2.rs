//! D2 text (a flowchart subset) to and from flowcharts.

use vstd::prelude::*;
use crate::text::{
    alphanumeric, chars_of, contains_char, decimal, eq_slice, find, find_slice, flat, is_alphanumeric,
    is_whitespace, is_ws, join, join_strings, lemma_flat_all, lemma_flat_step, lowercase, matches_at,
    occurs_at, push_chars, push_char, slice_to_vec, str_eq, string_from, string_of, to_lowercase,
    to_uppercase, trim, trim_slice, uppercase, views, words, words_of, lemma_find_from,
};
use crate::diagram::{Diagram, Edge, EdgeStyle, Node, NodeShape};
use crate::ir::{Document, IrError};
use crate::state::{assoc_default, assoc_insert, key_pos, keys_of, lookup, lemma_key_pos_from, pos_in};
use crate::formats::dot::replace_all;

verus! {

// ---------------------------------------------------------------- lexical layer

/// Position after whitespace and `#` comments from `p`.
pub open spec fn skip(s: Seq<char>, p: int) -> int
    decreases s.len() - p,
{
    if p < 0 || p >= s.len() {
        p
    } else if is_ws(s[p]) {
        skip(s, p + 1)
    } else if s[p] == '#' {
        let q = comment_end(s, p);
        if p < q <= s.len() {
            skip(s, q)
        } else {
            p
        }
    } else {
        p
    }
}

/// Position just after the newline that ends a comment at `p` (or the end).
pub open spec fn comment_end(s: Seq<char>, p: int) -> int
    decreases s.len() - p,
{
    if p < 0 || p >= s.len() {
        if p < 0 { 0 } else { p }
    } else if s[p] == '\n' {
        p + 1
    } else if p + 1 >= s.len() {
        s.len() as int
    } else {
        comment_end(s, p + 1)
    }
}

pub open spec fn at(s: Seq<char>, p: int, c: char) -> bool {
    0 <= p < s.len() && s[p] == c
}

pub open spec fn id_char(c: char) -> bool {
    alphanumeric(c) || c == '_' || c == '.' || c == '-'
}

/// End of the run of identifier characters from `p`.
pub open spec fn id_end(s: Seq<char>, p: int) -> int
    decreases s.len() - p,
{
    if p < 0 || p >= s.len() || !id_char(s[p]) {
        p
    } else {
        id_end(s, p + 1)
    }
}

/// The text of a quoted string whose opening quote is just before `k`, and
/// the position after it (an unterminated string runs to the end).
pub open spec fn quoted_body(s: Seq<char>, k: int, out: Seq<char>) -> (Seq<char>, int)
    decreases s.len() - k,
{
    if k < 0 || k >= s.len() {
        (out, if k < 0 { 0 } else { k })
    } else if s[k] == '"' {
        (out, k + 1)
    } else if s[k] == '\\' {
        if k + 1 < s.len() {
            quoted_body(s, k + 2, out.push(s[k + 1]))
        } else {
            (out, k + 1)
        }
    } else {
        quoted_body(s, k + 1, out.push(s[k]))
    }
}

/// `"..."` after skipping.
pub open spec fn quoted(s: Seq<char>, p: int) -> Result<(Seq<char>, int), Seq<char>> {
    let q = skip(s, p);
    if at(s, q, '"') {
        Ok(quoted_body(s, q + 1, Seq::empty()))
    } else {
        Err("D2: expected '\"'"@)
    }
}

/// An identifier after skipping: quoted, or a run of identifier characters.
pub open spec fn read_id(s: Seq<char>, p: int) -> Result<(Seq<char>, int), Seq<char>> {
    let q = skip(s, p);
    if at(s, q, '"') {
        quoted(s, q)
    } else {
        let e = id_end(s, q);
        if e == q {
            Err("D2: expected identifier"@)
        } else {
            Ok((s.subrange(q, e), e))
        }
    }
}

/// End of a label: the next newline or `{` (or the end).
pub open spec fn label_end(s: Seq<char>, p: int) -> int
    decreases s.len() - p,
{
    if p < 0 || p >= s.len() || s[p] == '\n' || s[p] == '{' {
        p
    } else {
        label_end(s, p + 1)
    }
}

/// A label after skipping: quoted, or the trimmed rest of the line up to `{`.
pub open spec fn label_token(s: Seq<char>, p: int) -> Result<(Seq<char>, int), Seq<char>> {
    let q = skip(s, p);
    if at(s, q, '"') {
        quoted(s, q)
    } else {
        let e = label_end(s, q);
        let raw = trim(s.subrange(q, e));
        if raw.len() == 0 {
            Err("D2: expected label"@)
        } else {
            Ok((raw, e))
        }
    }
}

/// End of an unquoted attribute value (whitespace or `}`).
pub open spec fn value_end(s: Seq<char>, p: int) -> int
    decreases s.len() - p,
{
    if p < 0 || p >= s.len() || is_ws(s[p]) || s[p] == '}' || s[p] == '\n' {
        p
    } else {
        value_end(s, p + 1)
    }
}

pub open spec fn attr_value(s: Seq<char>, p: int) -> Result<(Seq<char>, int), Seq<char>> {
    let q = skip(s, p);
    if at(s, q, '"') {
        quoted(s, q)
    } else {
        let e = value_end(s, q);
        if e == q {
            Err("D2: expected attribute value"@)
        } else {
            Ok((trim(s.subrange(q, e)), e))
        }
    }
}

/// A key at `p` itself (no skipping).
pub open spec fn attr_key(s: Seq<char>, p: int) -> Result<(Seq<char>, int), Seq<char>> {
    let e = id_end(s, p);
    if e == p {
        Err("D2: expected attribute key"@)
    } else {
        Ok((s.subrange(p, e), e))
    }
}

pub open spec fn expect(s: Seq<char>, p: int, c: char) -> Result<int, Seq<char>> {
    let q = skip(s, p);
    if at(s, q, c) {
        Ok(q + 1)
    } else {
        Err("D2: expected '"@ + seq![c] + "'"@)
    }
}

/// The entries of a `{ key: value ... }` block from `p` (inside the brace).
pub open spec fn block_items(s: Seq<char>, p: int, m: Seq<(Seq<char>, Seq<char>)>) -> Result<(Seq<(Seq<char>, Seq<char>)>, int), Seq<char>>
    decreases s.len() - p,
{
    let q = skip(s, p);
    if at(s, q, '}') {
        Ok((m, q + 1))
    } else {
        match attr_key(s, q) {
            Err(e) => Err(e),
            Ok((k, p1)) => match expect(s, skip(s, p1), ':') {
                Err(e) => Err(e),
                Ok(p2) => match attr_value(s, skip(s, p2)) {
                    Err(e) => Err(e),
                    Ok((v, p3)) => {
                        let p4 = skip(s, p3);
                        if p < p4 <= s.len() {
                            block_items(s, p4, assoc_insert(m, k, v))
                        } else {
                            Ok((assoc_insert(m, k, v), p4))
                        }
                    },
                },
            },
        }
    }
}

pub open spec fn block(s: Seq<char>, p: int) -> Result<(Seq<(Seq<char>, Seq<char>)>, int), Seq<char>> {
    match expect(s, p, '{') {
        Err(e) => Err(e),
        Ok(p1) => block_items(s, p1, Seq::empty()),
    }
}

/// A quoted value's text without its quotes.
pub open spec fn unquote(v: Seq<char>) -> Seq<char> {
    if v.len() >= 2 && v[0] == '"' && v.last() == '"' {
        replace_all(replace_all(v.subrange(1, v.len() - 1), "\\\""@, "\""@), "\\\\"@, "\\"@)
    } else {
        v
    }
}

pub open spec fn map_direction_in(v: Seq<char>) -> Seq<char> {
    let w = lowercase(trim(v));
    if w == "right"@ {
        "LR"@
    } else if w == "left"@ {
        "RL"@
    } else if w == "up"@ {
        "BT"@
    } else {
        "TD"@
    }
}

pub open spec fn shape_from_d2(v: Seq<char>) -> NodeShape {
    let w = lowercase(trim(v));
    if w == "diamond"@ {
        NodeShape::Diamond
    } else if w == "hexagon"@ {
        NodeShape::Hexagon
    } else if w == "cylinder"@ {
        NodeShape::Cylinder
    } else if w == "circle"@ {
        NodeShape::Circle
    } else if w == "oval"@ || w == "ellipse"@ || w == "stadium"@ {
        NodeShape::Stadium
    } else {
        NodeShape::Rect
    }
}

/// The connector operators, in the order they are tried.
pub open spec fn ops() -> Seq<Seq<char>> {
    seq!["<->"@, "->"@, "<-"@, "--"@]
}

pub open spec fn ok_before(c: char) -> bool {
    is_ws(c) || c == ')' || c == ']' || c == '"'
}

pub open spec fn ok_after(c: char) -> bool {
    is_ws(c) || c == '(' || c == '[' || c == '"' || alphanumeric(c) || c == '_'
}

/// The first operator (from index `k` of the list) found at `p` with
/// acceptable neighbours.
pub open spec fn connector_from(s: Seq<char>, p: int, k: int) -> Option<int>
    decreases 4 - k,
{
    if k < 0 || k >= 4 {
        None
    } else {
        let op = ops()[k];
        if occurs_at(s, op, p) && (p == 0 || (p > 0 && ok_before(s[p - 1]))) && (p + op.len() >= s.len()
            || ok_after(s[p + op.len()])) {
            Some(k)
        } else {
            connector_from(s, p, k + 1)
        }
    }
}


// ---------------------------------------------------------------- statements

/// Node entries: id with text and shape.
pub type NodeE = (Seq<char>, (Seq<char>, NodeShape));

#[verifier::ext_equal]
pub ghost struct D2S {
    pub pos: int,
    pub rankdir: Seq<char>,
    pub nodes: Seq<NodeE>,
    pub edges: Seq<crate::formats::dot::EdgeD>,
}

pub open spec fn word_char(c: char) -> bool {
    alphanumeric(c) || c == '_'
}

/// `kw` at `p`, not followed by a word character.
pub open spec fn keyword_at(s: Seq<char>, p: int, kw: Seq<char>) -> bool {
    occurs_at(s, kw, p) && !(p + kw.len() < s.len() && word_char(s[p + kw.len()]))
}

/// First newline at or after `p` (or the end).
pub open spec fn newline_from(s: Seq<char>, p: int) -> int
    decreases s.len() - p,
{
    if p < 0 || p >= s.len() || s[p] == '\n' {
        p
    } else {
        newline_from(s, p + 1)
    }
}

/// The trimmed rest of the line after skipping.
pub open spec fn line_value(s: Seq<char>, p: int) -> (Seq<char>, int) {
    let q = skip(s, p);
    let e = newline_from(s, q);
    (trim(s.subrange(q, e)), e)
}

/// Some key of the block mentions `stroke-dash`.
pub open spec fn dashed_keys(m: Seq<(Seq<char>, Seq<char>)>) -> bool {
    exists|i: int| 0 <= i < m.len() && find((#[trigger] m[i]).0, "stroke-dash"@) is Some
}

/// An optional label and attribute block after `:` at `p5` (already skipped):
/// label, dashed, attributes, position.
pub open spec fn label_and_block(s: Seq<char>, p6: int) -> Result<(Option<Seq<char>>, Option<Seq<(Seq<char>, Seq<char>)>>, int), Seq<char>> {
    let lt = if !at(s, p6, '{') {
        match label_token(s, p6) {
            Err(e) => Err(e),
            Ok((l, q)) => Ok((Some(l), skip(s, q))),
        }
    } else {
        Ok((None, p6))
    };
    match lt {
        Err(e) => Err(e),
        Ok((lab, p7)) => if at(s, p7, '{') {
            match block(s, p7) {
                Err(e) => Err(e),
                Ok((m, p8)) => Ok((lab, Some(m), p8)),
            }
        } else {
            Ok((lab, None, p7))
        },
    }
}

/// The label once a block has had its say.
pub open spec fn block_label(lab: Option<Seq<char>>, m: Option<Seq<(Seq<char>, Seq<char>)>>) -> Option<Seq<char>> {
    match m {
        Some(mm) => match lookup(mm, "label"@) {
            Some(l) => Some(unquote(l)),
            None => lab,
        },
        None => lab,
    }
}

/// A connection statement from `p`: `None` when no connector follows the
/// first identifier; else left, operator index, right, label, dashed, end.
pub open spec fn connection(s: Seq<char>, p: int) -> Result<Option<(Seq<char>, int, Seq<char>, Option<Seq<char>>, bool, int)>, Seq<char>> {
    match read_id(s, p) {
        Err(e) => Err(e),
        Ok((left, p1)) => {
            let p2 = skip(s, p1);
            match connector_from(s, p2, 0) {
                None => Ok(None),
                Some(k) => match read_id(s, skip(s, p2 + ops()[k].len())) {
                    Err(e) => Err(e),
                    Ok((right, p4)) => {
                        let p5 = skip(s, p4);
                        if at(s, p5, ':') {
                            match label_and_block(s, skip(s, p5 + 1)) {
                                Err(e) => Err(e),
                                Ok((lab, m, p8)) => Ok(Some((
                                    left,
                                    k,
                                    right,
                                    block_label(lab, m),
                                    match m {
                                        Some(mm) => dashed_keys(mm),
                                        None => false,
                                    },
                                    p8,
                                ))),
                            }
                        } else {
                            Ok(Some((left, k, right, None, false, p5)))
                        }
                    },
                },
            }
        },
    }
}

pub open spec fn ensure(nodes: Seq<NodeE>, id: Seq<char>) -> Seq<NodeE> {
    assoc_default(nodes, id, (id, NodeShape::Rect))
}

/// One statement from `st.pos`.
pub open spec fn d2_stmt(s: Seq<char>, st: D2S) -> Result<D2S, Seq<char>> {
    if keyword_at(s, st.pos, "direction"@) {
        match expect(s, st.pos + 9, ':') {
            Err(e) => Err(e),
            Ok(p2) => {
                let (v, p3) = line_value(s, p2);
                Ok(D2S { pos: p3, rankdir: map_direction_in(v), ..st })
            },
        }
    } else {
        match connection(s, st.pos) {
            Err(e) => Err(e),
            Ok(Some((l, k, r, lab, dashed, e))) => {
                let style = if dashed || ops()[k] == "--"@ { EdgeStyle::Dashed } else { EdgeStyle::Arrow };
                Ok(D2S {
                    pos: e,
                    nodes: ensure(ensure(st.nodes, l), r),
                    edges: st.edges.push((l, r, match lab {
                        Some(x) => x,
                        None => Seq::empty(),
                    }, style)),
                    ..st
                })
            },
            Ok(None) => match read_id(s, st.pos) {
                Err(e) => Err(e),
                Ok((id, p1)) => {
                    let p2 = skip(s, p1);
                    if !at(s, p2, ':') {
                        Ok(D2S { pos: p2, nodes: ensure(st.nodes, id), ..st })
                    } else {
                        match label_and_block(s, skip(s, p2 + 1)) {
                            Err(e) => Err(e),
                            Ok((lab, m, p5)) => {
                                let shape = match m {
                                    Some(mm) => match lookup(mm, "shape"@) {
                                        Some(v) => shape_from_d2(v),
                                        None => NodeShape::Rect,
                                    },
                                    None => NodeShape::Rect,
                                };
                                let text = match block_label(lab, m) {
                                    Some(t) => t,
                                    None => id,
                                };
                                Ok(D2S { pos: p5, nodes: assoc_insert(st.nodes, id, (text, shape)), ..st })
                            },
                        }
                    }
                },
            },
        }
    }
}

/// Statements from `st.pos` to the end.
pub open spec fn d2_stmts(s: Seq<char>, st: D2S) -> Result<D2S, Seq<char>>
    decreases s.len() - st.pos,
{
    if st.pos < 0 || st.pos >= s.len() {
        Ok(st)
    } else {
        match d2_stmt(s, st) {
            Err(e) => Err(e),
            Ok(st2) => {
                let p = skip(s, st2.pos);
                if st.pos < p <= s.len() {
                    d2_stmts(s, D2S { pos: p, ..st2 })
                } else {
                    Ok(D2S { pos: p, ..st2 })
                }
            },
        }
    }
}

/// Insert before the first entry whose id is larger.
pub open spec fn ins_node(sorted: Seq<NodeE>, e: NodeE) -> Seq<NodeE> {
    match crate::text::first(sorted, |x: NodeE| crate::er::str_lt(e.0, x.0)) {
        Some(j) => sorted.insert(j, e),
        None => sorted.push(e),
    }
}

pub open spec fn sort_nodes(s: Seq<NodeE>) -> Seq<NodeE>
    decreases s.len(),
{
    if s.len() == 0 {
        Seq::empty()
    } else {
        ins_node(sort_nodes(s.drop_last()), s.last())
    }
}

/// What reading D2 text gives: direction, nodes ordered by id, and edges.
pub open spec fn d2_parse(s: Seq<char>) -> Result<D2S, Seq<char>> {
    match d2_stmts(s, D2S { pos: skip(s, 0), rankdir: "TD"@, nodes: Seq::empty(), edges: Seq::empty() }) {
        Err(e) => Err(e),
        Ok(st) => Ok(D2S { nodes: sort_nodes(st.nodes), ..st }),
    }
}

/// The flowchart read from D2 text, as the parser state describes it.
pub open spec fn d2_diagram(d: Diagram, st: D2S) -> bool {
    &&& d.rankdir@ == st.rankdir
    &&& d.nodes@.len() == st.nodes.len()
    &&& forall|i: int| 0 <= i < st.nodes.len() ==> {
        let n = #[trigger] d.nodes@[i];
        (n.id@, (n.text@, n.shape)) == st.nodes[i] && n.href is None && n.tooltip is None
    }
    &&& d.edges@.len() == st.edges.len()
    &&& forall|i: int| 0 <= i < st.edges.len() ==> {
        let e = #[trigger] d.edges@[i];
        (e.from@, e.to@, e.label@, e.style) == st.edges[i]
    }
    &&& d.subgraphs@.len() == 0
    &&& d.styles@.len() == 0
    &&& d.class_defs@.len() == 0
    &&& d.class_applies@.len() == 0
    &&& d.link_styles@.len() == 0
}


// ---------------------------------------------------------------- lexical code

fn comment_end_exec(s: &[char], p: usize) -> (r: usize)
    requires
        p < s@.len(),
    ensures
        r == comment_end(s@, p as int),
        p < r <= s@.len(),
{
    let n = s.len();
    let mut k = p;
    loop
        invariant
            p <= k < n,
            n == s@.len(),
            comment_end(s@, p as int) == comment_end(s@, k as int),
        decreases n - k,
    {
        if s[k] == '\n' {
            return k + 1;
        }
        if k + 1 >= n {
            return n;
        }
        k = k + 1;
    }
}

fn skip_exec(s: &[char], p: usize) -> (r: usize)
    requires
        p <= s@.len(),
    ensures
        r == skip(s@, p as int),
        p <= r <= s@.len(),
{
    let n = s.len();
    let mut k = p;
    loop
        invariant
            p <= k <= n,
            n == s@.len(),
            skip(s@, p as int) == skip(s@, k as int),
        decreases n - k,
    {
        if k >= n {
            return k;
        }
        if is_whitespace(s[k]) {
            k = k + 1;
        } else if s[k] == '#' {
            k = comment_end_exec(s, k);
        } else {
            return k;
        }
    }
}

fn id_end_exec(s: &[char], p: usize) -> (r: usize)
    requires
        p <= s@.len(),
    ensures
        r == id_end(s@, p as int),
        p <= r <= s@.len(),
{
    let mut k = p;
    while k < s.len() && (is_alphanumeric(s[k]) || s[k] == '_' || s[k] == '.' || s[k] == '-')
        invariant
            p <= k <= s@.len(),
            id_end(s@, p as int) == id_end(s@, k as int),
        decreases s@.len() - k,
    {
        k = k + 1;
    }
    k
}

fn label_end_exec(s: &[char], p: usize) -> (r: usize)
    requires
        p <= s@.len(),
    ensures
        r == label_end(s@, p as int),
        p <= r <= s@.len(),
{
    let mut k = p;
    while k < s.len() && s[k] != '\n' && s[k] != '{'
        invariant
            p <= k <= s@.len(),
            label_end(s@, p as int) == label_end(s@, k as int),
        decreases s@.len() - k,
    {
        k = k + 1;
    }
    k
}

fn value_end_exec(s: &[char], p: usize) -> (r: usize)
    requires
        p <= s@.len(),
    ensures
        r == value_end(s@, p as int),
        p <= r <= s@.len(),
{
    let mut k = p;
    while k < s.len() && !(is_whitespace(s[k]) || s[k] == '}' || s[k] == '\n')
        invariant
            p <= k <= s@.len(),
            value_end(s@, p as int) == value_end(s@, k as int),
        decreases s@.len() - k,
    {
        k = k + 1;
    }
    k
}

fn newline_from_exec(s: &[char], p: usize) -> (r: usize)
    requires
        p <= s@.len(),
    ensures
        r == newline_from(s@, p as int),
        p <= r <= s@.len(),
{
    let mut k = p;
    while k < s.len() && s[k] != '\n'
        invariant
            p <= k <= s@.len(),
            newline_from(s@, p as int) == newline_from(s@, k as int),
        decreases s@.len() - k,
    {
        k = k + 1;
    }
    k
}

fn quoted_body_exec(s: &[char], p: usize) -> (r: (Vec<char>, usize))
    requires
        p <= s@.len(),
    ensures
        (r.0@, r.1 as int) == quoted_body(s@, p as int, Seq::empty()),
        p <= r.1 <= s@.len(),
{
    let n = s.len();
    let mut out: Vec<char> = Vec::new();
    let mut k = p;
    loop
        invariant
            p <= k <= n,
            n == s@.len(),
            quoted_body(s@, p as int, Seq::empty()) == quoted_body(s@, k as int, out@),
        decreases n - k,
    {
        if k >= n {
            return (out, k);
        }
        let c = s[k];
        if c == '"' {
            return (out, k + 1);
        }
        if c == '\\' {
            if k + 1 < n {
                out.push(s[k + 1]);
                k = k + 2;
            } else {
                return (out, k + 1);
            }
        } else {
            out.push(c);
            k = k + 1;
        }
    }
}

fn msg(m: &str) -> (r: String)
    ensures
        r@ == m@,
{
    string_from(m)
}

fn quoted_exec(s: &[char], p: usize) -> (r: Result<(Vec<char>, usize), String>)
    requires
        p <= s@.len(),
    ensures
        match quoted(s@, p as int) {
            Ok((v, e)) => r matches Ok((x, k)) && x@ == v && k == e && p < k <= s@.len(),
            Err(m) => r matches Err(x) && x@ == m,
        },
{
    let q = skip_exec(s, p);
    if q < s.len() && s[q] == '"' {
        Ok(quoted_body_exec(s, q + 1))
    } else {
        Err(msg("D2: expected '\"'"))
    }
}

fn read_id_exec(s: &[char], p: usize) -> (r: Result<(Vec<char>, usize), String>)
    requires
        p <= s@.len(),
    ensures
        match read_id(s@, p as int) {
            Ok((v, e)) => r matches Ok((x, k)) && x@ == v && k == e && p < k <= s@.len(),
            Err(m) => r matches Err(x) && x@ == m,
        },
{
    let q = skip_exec(s, p);
    if q < s.len() && s[q] == '"' {
        return quoted_exec(s, q);
    }
    let e = id_end_exec(s, q);
    if e == q {
        return Err(msg("D2: expected identifier"));
    }
    Ok((slice_to_vec(&s[q..e]), e))
}

fn label_token_exec(s: &[char], p: usize) -> (r: Result<(Vec<char>, usize), String>)
    requires
        p <= s@.len(),
    ensures
        match label_token(s@, p as int) {
            Ok((v, e)) => r matches Ok((x, k)) && x@ == v && k == e && p <= k <= s@.len(),
            Err(m) => r matches Err(x) && x@ == m,
        },
{
    let q = skip_exec(s, p);
    if q < s.len() && s[q] == '"' {
        return quoted_exec(s, q);
    }
    let e = label_end_exec(s, q);
    let raw = trim_slice(&s[q..e]);
    if raw.len() == 0 {
        return Err(msg("D2: expected label"));
    }
    Ok((slice_to_vec(raw), e))
}

fn attr_value_exec(s: &[char], p: usize) -> (r: Result<(Vec<char>, usize), String>)
    requires
        p <= s@.len(),
    ensures
        match attr_value(s@, p as int) {
            Ok((v, e)) => r matches Ok((x, k)) && x@ == v && k == e && p < k <= s@.len(),
            Err(m) => r matches Err(x) && x@ == m,
        },
{
    let q = skip_exec(s, p);
    if q < s.len() && s[q] == '"' {
        return quoted_exec(s, q);
    }
    let e = value_end_exec(s, q);
    if e == q {
        return Err(msg("D2: expected attribute value"));
    }
    Ok((slice_to_vec(trim_slice(&s[q..e])), e))
}

fn attr_key_exec(s: &[char], p: usize) -> (r: Result<(Vec<char>, usize), String>)
    requires
        p <= s@.len(),
    ensures
        match attr_key(s@, p as int) {
            Ok((v, e)) => r matches Ok((x, k)) && x@ == v && k == e && p < k <= s@.len(),
            Err(m) => r matches Err(x) && x@ == m,
        },
{
    let e = id_end_exec(s, p);
    if e == p {
        return Err(msg("D2: expected attribute key"));
    }
    Ok((slice_to_vec(&s[p..e]), e))
}

fn expect_exec(s: &[char], p: usize, c: char) -> (r: Result<usize, String>)
    requires
        p <= s@.len(),
    ensures
        match expect(s@, p as int, c) {
            Ok(e) => r == Ok::<usize, String>(e as usize) && p < e <= s@.len(),
            Err(m) => r matches Err(x) && x@ == m,
        },
{
    let q = skip_exec(s, p);
    if q < s.len() && s[q] == c {
        Ok(q + 1)
    } else {
        let mut m = msg("D2: expected '");
        push_char(&mut m, c);
        m.append("'");
        Err(m)
    }
}

/// An attribute block's entries, keys and values side by side.
struct Block {
    keys: Vec<Vec<char>>,
    vals: Vec<Vec<char>>,
}

spec fn block_v(b: Block) -> Seq<(Seq<char>, Seq<char>)> {
    Seq::new(b.keys@.len(), |i: int| (b.keys@[i]@, b.vals@[i]@))
}

fn block_exec(s: &[char], p: usize) -> (r: Result<(Block, usize), String>)
    requires
        p <= s@.len(),
    ensures
        match block(s@, p as int) {
            Ok((m, e)) => r matches Ok((x, k)) && block_v(x) == m && k == e && p < k <= s@.len()
                && x.keys@.len() == x.vals@.len(),
            Err(m) => r matches Err(x) && x@ == m,
        },
{
    let p1 = match expect_exec(s, p, '{') {
        Ok(v) => v,
        Err(m) => return Err(m),
    };
    let n = s.len();
    let mut b = Block { keys: Vec::new(), vals: Vec::new() };
    assert(block_v(b) =~= Seq::<(Seq<char>, Seq<char>)>::empty());
    let mut pos = p1;
    loop
        invariant
            p < p1 <= pos <= n,
            n == s@.len(),
            b.keys@.len() == b.vals@.len(),
            expect(s@, p as int, '{') == Ok::<int, Seq<char>>(p1 as int),
            block(s@, p as int) == block_items(s@, pos as int, block_v(b)),
        decreases n - pos,
    {
        let q = skip_exec(s, pos);
        if q < n && s[q] == '}' {
            return Ok((b, q + 1));
        }
        let (k, p1k) = match attr_key_exec(s, q) {
            Ok(v) => v,
            Err(m) => return Err(m),
        };
        let p2 = match expect_exec(s, skip_exec(s, p1k), ':') {
            Ok(v) => v,
            Err(m) => return Err(m),
        };
        let (v, p3) = match attr_value_exec(s, skip_exec(s, p2)) {
            Ok(x) => x,
            Err(m) => return Err(m),
        };
        let ghost m0 = block_v(b);
        assert(keys_of(m0) =~= crate::text::seqs(b.keys@));
        match pos_in(&b.keys, k.as_slice()) {
            Some(j) => {
                b.vals.set(j, v);
                b.keys.set(j, k);
                assert(block_v(b) =~= m0.update(j as int, (b.keys@[j as int]@, b.vals@[j as int]@)));
            },
            None => {
                b.keys.push(k);
                b.vals.push(v);
                assert(block_v(b) =~= m0.push((b.keys@.last()@, b.vals@.last()@)));
            },
        }
        let p4 = skip_exec(s, p3);
        if !(pos < p4) {
            return Ok((b, p4));
        }
        pos = p4;
    }
}

fn block_get(b: &Block, key: &str) -> (r: Option<Vec<char>>)
    requires
        b.keys@.len() == b.vals@.len(),
    ensures
        match lookup(block_v(*b), key@) {
            Some(v) => r matches Some(x) && x@ == v,
            None => r is None,
        },
{
    assert(keys_of(block_v(*b)) =~= crate::text::seqs(b.keys@));
    match pos_in(&b.keys, chars_of(key).as_slice()) {
        Some(j) => Some(slice_to_vec(b.vals[j].as_slice())),
        None => None,
    }
}

fn dashed_keys_exec(b: &Block) -> (r: bool)
    requires
        b.keys@.len() == b.vals@.len(),
    ensures
        r == dashed_keys(block_v(*b)),
{
    let pat = chars_of("stroke-dash");
    let mut i: usize = 0;
    while i < b.keys.len()
        invariant
            i <= b.keys@.len(),
            b.keys@.len() == b.vals@.len(),
            pat@ == "stroke-dash"@,
            forall|j: int| 0 <= j < i ==> find((#[trigger] block_v(*b)[j]).0, "stroke-dash"@) is None,
        decreases b.keys@.len() - i,
    {
        assert(block_v(*b)[i as int].0 == b.keys@[i as int]@);
        if find_slice(b.keys[i].as_slice(), pat.as_slice()).is_some() {
            return true;
        }
        i = i + 1;
    }
    false
}

fn unquote_exec(v: &[char]) -> (r: Vec<char>)
    ensures
        r@ == unquote(v@),
{
    let n = v.len();
    if n >= 2 && v[0] == '"' && v[n - 1] == '"' {
        let a = crate::formats::dot::replace_all_exec(&v[1..n - 1], "\\\"", "\"");
        crate::formats::dot::replace_all_exec(a.as_slice(), "\\\\", "\\")
    } else {
        slice_to_vec(v)
    }
}

fn map_direction_in_exec(v: &[char]) -> (r: Vec<char>)
    ensures
        r@ == map_direction_in(v@),
{
    let low = to_lowercase(string_of(trim_slice(v)).as_str());
    let w = low.as_str();
    if str_eq(w, "right") {
        chars_of("LR")
    } else if str_eq(w, "left") {
        chars_of("RL")
    } else if str_eq(w, "up") {
        chars_of("BT")
    } else {
        chars_of("TD")
    }
}

fn shape_from_d2_exec(v: &[char]) -> (r: NodeShape)
    ensures
        r == shape_from_d2(v@),
{
    let low = to_lowercase(string_of(trim_slice(v)).as_str());
    let w = low.as_str();
    if str_eq(w, "diamond") {
        NodeShape::Diamond
    } else if str_eq(w, "hexagon") {
        NodeShape::Hexagon
    } else if str_eq(w, "cylinder") {
        NodeShape::Cylinder
    } else if str_eq(w, "circle") {
        NodeShape::Circle
    } else if str_eq(w, "oval") || str_eq(w, "ellipse") || str_eq(w, "stadium") {
        NodeShape::Stadium
    } else {
        NodeShape::Rect
    }
}

fn op_str(k: usize) -> (r: &'static str)
    requires
        k < 4,
    ensures
        r@ == ops()[k as int],
{
    if k == 0 {
        "<->"
    } else if k == 1 {
        "->"
    } else if k == 2 {
        "<-"
    } else {
        "--"
    }
}

fn connector_exec(s: &[char], p: usize) -> (r: Option<usize>)
    requires
        p <= s@.len(),
    ensures
        r matches Some(k) ==> connector_from(s@, p as int, 0) == Some(k as int) && k < 4 && p + ops()[k as int].len() <= s@.len(),
        r is None ==> connector_from(s@, p as int, 0) is None,
{
    let n = s.len();
    let mut k: usize = 0;
    while k < 4
        invariant
            k <= 4,
            n == s@.len(),
            p <= n,
            connector_from(s@, p as int, 0) == connector_from(s@, p as int, k as int),
        decreases 4 - k,
    {
        let op = chars_of(op_str(k));
        let ol = op.len();
        if matches_at(s, op.as_slice(), p) {
            assert(occurs_at(s@, op@, p as int));
            assert(p + ol <= n);
            let before_ok = p == 0 || (is_whitespace(s[p - 1]) || s[p - 1] == ')' || s[p - 1] == ']' || s[p - 1] == '"');
            let e = p + ol;
            let after_ok = e >= n || (is_whitespace(s[e]) || s[e] == '(' || s[e] == '[' || s[e] == '"' || is_alphanumeric(s[e]) || s[e] == '_');
            if before_ok && after_ok {
                return Some(k);
            }
        }
        k = k + 1;
    }
    None
}


// ---------------------------------------------------------------- statement code

struct DX {
    pos: usize,
    rankdir: Vec<char>,
    keys: Vec<Vec<char>>,
    texts: Vec<Vec<char>>,
    shapes: Vec<NodeShape>,
    edges: Vec<Edge>,
}

spec fn dx_wf(x: DX) -> bool {
    x.keys@.len() == x.texts@.len() && x.keys@.len() == x.shapes@.len()
}

spec fn dx_v(x: DX) -> D2S {
    D2S {
        pos: x.pos as int,
        rankdir: x.rankdir@,
        nodes: Seq::new(x.keys@.len(), |i: int| (x.keys@[i]@, (x.texts@[i]@, x.shapes@[i]))),
        edges: Seq::new(x.edges@.len(), |i: int| (x.edges@[i].from@, x.edges@[i].to@, x.edges@[i].label@, x.edges@[i].style)),
    }
}

fn upsert_node(x: &mut DX, id: &[char], text: &[char], shape: NodeShape, replace: bool)
    requires
        dx_wf(*old(x)),
    ensures
        dx_wf(*final(x)),
        dx_v(*final(x)) == (D2S {
            nodes: if replace {
                assoc_insert(dx_v(*old(x)).nodes, id@, (text@, shape))
            } else {
                assoc_default(dx_v(*old(x)).nodes, id@, (text@, shape))
            },
            ..dx_v(*old(x))
        }),
        final(x).pos == old(x).pos,
{
    let ghost x0 = dx_v(*x);
    let ghost m = x0.nodes;
    assert(keys_of(m) =~= crate::text::seqs(x.keys@));
    match pos_in(&x.keys, id) {
        Some(j) => {
            if replace {
                x.texts.set(j, slice_to_vec(text));
                x.shapes.set(j, shape);
                x.keys.set(j, slice_to_vec(id));
                assert(dx_v(*x).nodes =~= m.update(j as int, (id@, (text@, shape))));
            }
        },
        None => {
            x.keys.push(slice_to_vec(id));
            x.texts.push(slice_to_vec(text));
            x.shapes.push(shape);
            assert(dx_v(*x).nodes =~= m.push((id@, (text@, shape))));
        },
    }
    assert(dx_v(*x).edges =~= x0.edges);
}

fn label_and_block_exec(s: &[char], p6: usize) -> (r: Result<(Option<Vec<char>>, Option<Block>, usize), String>)
    requires
        p6 <= s@.len(),
    ensures
        match label_and_block(s@, p6 as int) {
            Ok((lab, m, e)) => r matches Ok((l, b, k)) && ovc(l) == lab && k == e && p6 <= k <= s@.len()
                && match b {
                    Some(bb) => m == Some(block_v(bb)) && bb.keys@.len() == bb.vals@.len(),
                    None => m is None,
                },
            Err(e) => r matches Err(x) && x@ == e,
        },
{
    let n = s.len();
    let (lab, p7) = if !(p6 < n && s[p6] == '{') {
        match label_token_exec(s, p6) {
            Ok((l, q)) => (Some(l), skip_exec(s, q)),
            Err(e) => return Err(e),
        }
    } else {
        (None, p6)
    };
    if p7 < n && s[p7] == '{' {
        match block_exec(s, p7) {
            Ok((b, p8)) => Ok((lab, Some(b), p8)),
            Err(e) => Err(e),
        }
    } else {
        Ok((lab, None, p7))
    }
}

spec fn ovc(o: Option<Vec<char>>) -> Option<Seq<char>> {
    match o {
        Some(v) => Some(v@),
        None => None,
    }
}

fn block_label_exec(lab: Option<Vec<char>>, b: &Option<Block>) -> (r: Option<Vec<char>>)
    requires
        b matches Some(bb) ==> bb.keys@.len() == bb.vals@.len(),
    ensures
        ovc(r) == block_label(ovc(lab), match *b {
            Some(bb) => Some(block_v(bb)),
            None => None,
        }),
{
    match b {
        Some(bb) => match block_get(bb, "label") {
            Some(l) => Some(unquote_exec(l.as_slice())),
            None => lab,
        },
        None => lab,
    }
}

fn connection_exec(s: &[char], p: usize) -> (r: Result<Option<(Vec<char>, usize, Vec<char>, Option<Vec<char>>, bool, usize)>, String>)
    requires
        p <= s@.len(),
    ensures
        match connection(s@, p as int) {
            Ok(Some((l, k, rr, lab, dashed, e))) => r matches Ok(Some((a, b, c, d, f, g))) && a@ == l && b == k
                && c@ == rr && ovc(d) == lab && f == dashed && g == e && p < g <= s@.len() && b < 4,
            Ok(None) => r matches Ok(None),
            Err(e) => r matches Err(x) && x@ == e,
        },
{
    let (left, p1) = match read_id_exec(s, p) {
        Ok(v) => v,
        Err(e) => return Err(e),
    };
    let p2 = skip_exec(s, p1);
    let k = match connector_exec(s, p2) {
        Some(k) => k,
        None => return Ok(None),
    };
    let ol = chars_of(op_str(k)).len();
    let n = s.len();
    assert(p2 + ol <= n);
    let (right, p4) = match read_id_exec(s, skip_exec(s, p2 + ol)) {
        Ok(v) => v,
        Err(e) => return Err(e),
    };
    let p5 = skip_exec(s, p4);
    if p5 < s.len() && s[p5] == ':' {
        match label_and_block_exec(s, skip_exec(s, p5 + 1)) {
            Ok((lab, b, p8)) => {
                let dashed = match &b {
                    Some(bb) => dashed_keys_exec(bb),
                    None => false,
                };
                let label = block_label_exec(lab, &b);
                Ok(Some((left, k, right, label, dashed, p8)))
            },
            Err(e) => Err(e),
        }
    } else {
        Ok(Some((left, k, right, None, false, p5)))
    }
}

#[verifier::rlimit(40)]
fn d2_stmt_exec(s: &[char], x: &mut DX) -> (r: Result<(), String>)
    requires
        old(x).pos <= s@.len(),
        dx_wf(*old(x)),
    ensures
        match d2_stmt(s@, dx_v(*old(x))) {
            Ok(st) => r is Ok && dx_v(*final(x)) == st && dx_wf(*final(x)) && final(x).pos <= s@.len(),
            Err(e) => r matches Err(y) && y@ == e,
        },
{
    let n = s.len();
    let p = x.pos;
    let dir = chars_of("direction");
    proof {
        reveal_strlit("direction");
    }
    if matches_at(s, dir.as_slice(), p) && !(p + 9 < n && (is_alphanumeric(s[p + 9]) || s[p + 9] == '_')) {
        assert(p + 9 <= n);
        let p2 = match expect_exec(s, p + 9, ':') {
            Ok(v) => v,
            Err(e) => return Err(e),
        };
        let q = skip_exec(s, p2);
        let e = newline_from_exec(s, q);
        let v = trim_slice(&s[q..e]);
        x.rankdir = map_direction_in_exec(v);
        x.pos = e;
        return Ok(());
    }
    match connection_exec(s, p) {
        Err(e) => return Err(e),
        Ok(Some((l, k, r, lab, dashed, e))) => {
            let is_dash_op = str_eq(op_str(k), "--");
            let style = if dashed || is_dash_op { EdgeStyle::Dashed } else { EdgeStyle::Arrow };
            upsert_node(x, l.as_slice(), l.as_slice(), NodeShape::Rect, false);
            upsert_node(x, r.as_slice(), r.as_slice(), NodeShape::Rect, false);
            let label = match lab {
                Some(t) => string_of(t.as_slice()),
                None => String::new(),
            };
            let ghost before = dx_v(*x);
            let edge = Edge { from: string_of(l.as_slice()), to: string_of(r.as_slice()), label, style };
            let ghost ev = (edge.from@, edge.to@, edge.label@, edge.style);
            x.edges.push(edge);
            x.pos = e;
            assert(dx_v(*x).edges =~= before.edges.push(ev));
            assert(dx_v(*x).nodes =~= before.nodes);
            return Ok(());
        },
        Ok(None) => {},
    }
    let (id, p1) = match read_id_exec(s, p) {
        Ok(v) => v,
        Err(e) => return Err(e),
    };
    let p2 = skip_exec(s, p1);
    if !(p2 < n && s[p2] == ':') {
        upsert_node(x, id.as_slice(), id.as_slice(), NodeShape::Rect, false);
        x.pos = p2;
        return Ok(());
    }
    let (lab, b, p5) = match label_and_block_exec(s, skip_exec(s, p2 + 1)) {
        Ok(v) => v,
        Err(e) => return Err(e),
    };
    let shape = match &b {
        Some(bb) => match block_get(bb, "shape") {
            Some(v) => shape_from_d2_exec(v.as_slice()),
            None => NodeShape::Rect,
        },
        None => NodeShape::Rect,
    };
    let text = match block_label_exec(lab, &b) {
        Some(t) => t,
        None => slice_to_vec(id.as_slice()),
    };
    upsert_node(x, id.as_slice(), text.as_slice(), shape, true);
    x.pos = p5;
    Ok(())
}

fn d2_stmts_exec(s: &[char], x0: DX) -> (r: (DX, Result<(), String>))
    requires
        x0.pos <= s@.len(),
        dx_wf(x0),
    ensures
        match d2_stmts(s@, dx_v(x0)) {
            Ok(st) => r.1 is Ok && dx_v(r.0) == st && dx_wf(r.0),
            Err(e) => r.1 matches Err(y) && y@ == e,
        },
{
    let ghost goal = d2_stmts(s@, dx_v(x0));
    let n = s.len();
    let mut x = x0;
    loop
        invariant
            x.pos <= n,
            n == s@.len(),
            dx_wf(x),
            goal == d2_stmts(s@, dx_v(x0)),
            goal == d2_stmts(s@, dx_v(x)),
        decreases n - x.pos,
    {
        if x.pos >= n {
            return (x, Ok(()));
        }
        let pos0 = x.pos;
        match d2_stmt_exec(s, &mut x) {
            Ok(()) => {},
            Err(e) => return (x, Err(e)),
        }
        let p = skip_exec(s, x.pos);
        x.pos = p;
        if !(pos0 < p) {
            return (x, Ok(()));
        }
    }
}

spec fn node_e(n: Node) -> NodeE {
    (n.id@, (n.text@, n.shape))
}

fn sort_nodes_exec(nodes: Vec<Node>) -> (r: Vec<Node>)
    ensures
        Seq::new(r@.len(), |i: int| node_e(r@[i])) == sort_nodes(Seq::new(nodes@.len(), |i: int| node_e(nodes@[i]))),
        (forall|i: int| 0 <= i < nodes@.len() ==> (#[trigger] nodes@[i]).href is None && nodes@[i].tooltip is None)
            ==> (forall|i: int| 0 <= i < r@.len() ==> (#[trigger] r@[i]).href is None && r@[i].tooltip is None),
{
    let ghost all = Seq::new(nodes@.len(), |i: int| node_e(nodes@[i]));
    let ghost plain = forall|i: int| 0 <= i < nodes@.len() ==> (#[trigger] nodes@[i]).href is None && nodes@[i].tooltip is None;
    let mut sorted: Vec<Node> = Vec::new();
    let mut rest = nodes;
    assert(all.take(0) =~= Seq::<NodeE>::empty());
    while rest.len() > 0
        invariant
            all.len() == nodes@.len(),
            rest@.len() <= all.len(),
            forall|k: int| 0 <= k < rest@.len() ==> node_e(#[trigger] rest@[k]) == all[all.len() - rest@.len() + k],
            Seq::new(sorted@.len(), |i: int| node_e(sorted@[i])) == sort_nodes(all.take(all.len() - rest@.len())),
            plain ==> forall|k: int| 0 <= k < rest@.len() ==> (#[trigger] rest@[k]).href is None && rest@[k].tooltip is None,
            plain ==> forall|k: int| 0 <= k < sorted@.len() ==> (#[trigger] sorted@[k]).href is None && sorted@[k].tooltip is None,
            plain == (forall|i: int| 0 <= i < nodes@.len() ==> (#[trigger] nodes@[i]).href is None && nodes@[i].tooltip is None),
        decreases rest@.len(),
    {
        let ghost done = all.len() - rest@.len();
        let e = rest.remove(0);
        assert(node_e(e) == all[done]);
        let ghost sv = Seq::new(sorted@.len(), |i: int| node_e(sorted@[i]));
        let ghost p = |y: NodeE| crate::er::str_lt(node_e(e).0, y.0);
        let key = chars_of(e.id.as_str());
        let mut j: usize = 0;
        while j < sorted.len() && !crate::er::str_lt_exec(key.as_slice(), chars_of(sorted[j].id.as_str()).as_slice())
            invariant
                j <= sorted@.len(),
                sv == Seq::new(sorted@.len(), |i: int| node_e(sorted@[i])),
                key@ == e.id@,
                p == (|y: NodeE| crate::er::str_lt(node_e(e).0, y.0)),
                crate::text::first(sv, p) == crate::text::first_from(sv, p, j as int),
            decreases sorted@.len() - j,
        {
            assert(sv[j as int] == node_e(sorted@[j as int]));
            j = j + 1;
        }
        proof {
            if j < sorted@.len() {
                assert(sv[j as int] == node_e(sorted@[j as int]));
            }
            let t1 = all.take(done + 1);
            assert(t1.drop_last() =~= all.take(done));
            assert(t1.last() == all[done]);
            crate::text::lemma_first_from(sv, p, j as int);
            assert(sort_nodes(t1) == ins_node(sv, node_e(e)));
        }
        if j < sorted.len() {
            sorted.insert(j, e);
            assert(Seq::new(sorted@.len(), |i: int| node_e(sorted@[i])) =~= sv.insert(j as int, node_e(e)));
        } else {
            sorted.push(e);
            assert(Seq::new(sorted@.len(), |i: int| node_e(sorted@[i])) =~= sv.push(node_e(e)));
        }
    }
    assert(all.take(all.len() as int) =~= all);
    sorted
}

/// Read D2 text into a flowchart (nodes ordered by id).
pub fn parse(source: &str) -> (r: Result<Diagram, IrError>)
    ensures
        match d2_parse(source@) {
            Ok(st) => r matches Ok(d) && d2_diagram(d, st),
            Err(m) => r matches Err(e) && e.message@ == m,
        },
{
    let cs = chars_of(source);
    let s = cs.as_slice();
    let x = DX {
        pos: skip_exec(s, 0),
        rankdir: chars_of("TD"),
        keys: Vec::new(),
        texts: Vec::new(),
        shapes: Vec::new(),
        edges: Vec::new(),
    };
    assert(dx_v(x).nodes =~= Seq::<NodeE>::empty());
    assert(dx_v(x).edges =~= Seq::<crate::formats::dot::EdgeD>::empty());
    let (x, res) = d2_stmts_exec(s, x);
    match res {
        Ok(()) => {},
        Err(m) => return Err(IrError { message: m }),
    }
    let ghost st = dx_v(x);
    let DX { pos, rankdir, keys, texts, shapes, edges } = x;
    let mut nodes: Vec<Node> = Vec::new();
    let mut i: usize = 0;
    while i < keys.len()
        invariant
            i <= keys@.len(),
            keys@.len() == texts@.len(),
            keys@.len() == shapes@.len(),
            st.nodes == Seq::new(keys@.len(), |i: int| (keys@[i]@, (texts@[i]@, shapes@[i]))),
            nodes@.len() == i,
            forall|k: int| 0 <= k < i ==> node_e(#[trigger] nodes@[k]) == st.nodes[k] && nodes@[k].href is None
                && nodes@[k].tooltip is None,
        decreases keys@.len() - i,
    {
        nodes.push(Node {
            id: string_of(keys[i].as_slice()),
            text: string_of(texts[i].as_slice()),
            shape: shapes[i],
            href: None,
            tooltip: None,
        });
        i = i + 1;
    }
    assert(Seq::new(nodes@.len(), |i: int| node_e(nodes@[i])) =~= st.nodes);
    let sorted = sort_nodes_exec(nodes);
    let d = Diagram {
        rankdir: string_of(rankdir.as_slice()),
        nodes: sorted,
        edges,
        subgraphs: Vec::new(),
        styles: Vec::new(),
        class_defs: Vec::new(),
        class_applies: Vec::new(),
        link_styles: Vec::new(),
    };
    proof {
        let sn = sort_nodes(st.nodes);
        assert forall|i: int| 0 <= i < sn.len() implies {
            let n = #[trigger] d.nodes@[i];
            (n.id@, (n.text@, n.shape)) == sn[i] && n.href is None && n.tooltip is None
        } by {
            assert(Seq::new(d.nodes@.len(), |i: int| node_e(d.nodes@[i]))[i] == sn[i]);
        }
    }
    Ok(d)
}

/// Read D2 text into a one-diagram document.
pub fn parse_to_document(source: &str) -> (r: Result<Document, IrError>)
    ensures
        match d2_parse(source@) {
            Ok(st) => r matches Ok(doc) && doc.version == crate::ir::CURRENT_VERSION && doc.diagrams@.len() == 1
                && (doc.diagrams@[0] matches crate::ir::Diagram::Flowchart(d) && d2_diagram(d, st)),
            Err(m) => r matches Err(e) && e.message@ == m,
        },
{
    match parse(source) {
        Ok(d) => Ok(Document::single(crate::ir::Diagram::Flowchart(d))),
        Err(e) => Err(e),
    }
}


// ---------------------------------------------------------------- detection

/// `a <op> b` somewhere in a line (operators tried in order, from `k`).
pub open spec fn line_connects(line: Seq<char>, k: int) -> bool
    decreases 4 - k,
{
    if k < 0 || k >= 4 {
        false
    } else {
        match find(line, ops()[k]) {
            Some(idx) => {
                let left = trim(line.subrange(0, idx));
                let rest = trim(line.subrange(idx + ops()[k].len(), line.len() as int));
                let head = trim(crate::text::split_char(rest, ':')[0]);
                if left.len() > 0 && words(head).len() > 0 {
                    true
                } else {
                    line_connects(line, k + 1)
                }
            },
            None => line_connects(line, k + 1),
        }
    }
}

/// Some content line sets a direction or connects two shapes.
pub open spec fn d2_lines(ls: Seq<Seq<char>>) -> bool {
    exists|i: int| 0 <= i < ls.len() && {
        let l = trim(#[trigger] ls[i]);
        l.len() > 0 && l[0] != '#' && ("direction:"@.is_prefix_of(l) || line_connects(l, 0))
    }
}

/// Headers of other formats that D2 detection steps aside for.
pub open spec fn other_header(t: Seq<char>) -> bool {
    ||| "{"@.is_prefix_of(t)
    ||| "digraph"@.is_prefix_of(t)
    ||| "strict digraph"@.is_prefix_of(t)
    ||| "sequenceDiagram"@.is_prefix_of(t)
    ||| "classDiagram"@.is_prefix_of(t)
    ||| "gantt"@.is_prefix_of(t)
    ||| "stateDiagram"@.is_prefix_of(t)
    ||| "erDiagram"@.is_prefix_of(t)
    ||| "@startuml"@.is_prefix_of(t)
    ||| "graph "@.is_prefix_of(t)
    ||| "strict graph "@.is_prefix_of(t)
}

/// Whether text reads as D2.
pub open spec fn d2_like(src: Seq<char>) -> bool {
    !other_header(crate::text::trim_start(src)) && d2_lines(crate::text::lines(src))
}

fn line_connects_exec(line: &[char]) -> (b: bool)
    ensures
        b == line_connects(line@, 0),
{
    let mut k: usize = 0;
    while k < 4
        invariant
            k <= 4,
            line_connects(line@, 0) == line_connects(line@, k as int),
        decreases 4 - k,
    {
        let op = chars_of(op_str(k));
        proof {
            lemma_find_from(line@, op@, 0);
        }
        match find_slice(line, op.as_slice()) {
            Some(idx) => {
                let n = line.len();
                assert(idx + op@.len() <= n);
                let left = trim_slice(&line[0..idx]);
                let rest = trim_slice(&line[idx + op.len()..n]);
                let pieces = crate::text::split_char_slice(rest, ':');
                proof {
                    crate::text::lemma_split_char_nonempty(rest@, ':');
                }
                assert(crate::text::seqs(pieces@)[0] == pieces@[0]@);
                let head = trim_slice(pieces[0].as_slice());
                let ws = words_of(head);
                if left.len() > 0 && ws.len() > 0 {
                    return true;
                }
            },
            None => {},
        }
        k = k + 1;
    }
    false
}

/// Whether source looks like D2.
pub fn is_d2(source: &str) -> (b: bool)
    ensures
        b == d2_like(source@),
{
    let cs = chars_of(source);
    let k = crate::text::trim_start_index(cs.as_slice());
    let t = &cs.as_slice()[k..cs.len()];
    if crate::text::starts_with(t, chars_of("{").as_slice()) || crate::text::starts_with(t, chars_of("digraph").as_slice())
        || crate::text::starts_with(t, chars_of("strict digraph").as_slice()) || crate::text::starts_with(t, chars_of("sequenceDiagram").as_slice())
        || crate::text::starts_with(t, chars_of("classDiagram").as_slice()) || crate::text::starts_with(t, chars_of("gantt").as_slice())
        || crate::text::starts_with(t, chars_of("stateDiagram").as_slice()) || crate::text::starts_with(t, chars_of("erDiagram").as_slice())
        || crate::text::starts_with(t, chars_of("@startuml").as_slice()) || crate::text::starts_with(t, chars_of("graph ").as_slice())
        || crate::text::starts_with(t, chars_of("strict graph ").as_slice()) {
        return false;
    }
    assert(t@ == crate::text::trim_start(source@));
    assert(!other_header(crate::text::trim_start(source@)));
    let ls = crate::text::lines_of(cs.as_slice());
    let ghost lv = crate::text::seqs(ls@);
    let dir = chars_of("direction:");
    let mut i: usize = 0;
    while i < ls.len()
        invariant
            i <= ls@.len(),
            lv == crate::text::seqs(ls@),
            lv == crate::text::lines(source@),
            dir@ == "direction:"@,
            !other_header(crate::text::trim_start(source@)),
            forall|j: int| 0 <= j < i ==> !{
                let l = trim(#[trigger] lv[j]);
                l.len() > 0 && l[0] != '#' && ("direction:"@.is_prefix_of(l) || line_connects(l, 0))
            },
        decreases ls@.len() - i,
    {
        assert(lv[i as int] == ls@[i as int]@);
        let l = trim_slice(ls[i].as_slice());
        if l.len() > 0 && l[0] != '#' && (crate::text::starts_with(l, dir.as_slice()) || line_connects_exec(l)) {
            return true;
        }
        i = i + 1;
    }
    false
}

// ---------------------------------------------------------------- writing

pub open spec fn d2_quote(s: Seq<char>) -> Seq<char> {
    if s.len() > 0 && forall|i: int| 0 <= i < s.len() ==> (alphanumeric(#[trigger] s[i]) || s[i] == '_' || s[i] == ' ') {
        s
    } else {
        "\""@ + crate::class::escape_note(s) + "\""@
    }
}

pub open spec fn shape_to_d2(s: NodeShape) -> Option<Seq<char>> {
    match s {
        NodeShape::Rect => None,
        NodeShape::Diamond => Some("diamond"@),
        NodeShape::Stadium => Some("oval"@),
        NodeShape::Hexagon => Some("hexagon"@),
        NodeShape::Cylinder => Some("cylinder"@),
        NodeShape::Circle => Some("circle"@),
    }
}

pub open spec fn direction_out(v: Seq<char>) -> Option<Seq<char>> {
    let u = uppercase(v);
    if u == "LR"@ {
        Some("right"@)
    } else if u == "RL"@ {
        Some("left"@)
    } else if u == "BT"@ {
        Some("up"@)
    } else {
        None
    }
}

pub open spec fn d2_node(n: Node) -> Seq<char> {
    let labeled = n.text@ != n.id@;
    crate::diagram::fmt_id(n.id@) + if labeled || shape_to_d2(n.shape) is Some {
        ": "@ + (if labeled { d2_quote(n.text@) } else { Seq::empty() }) + match shape_to_d2(n.shape) {
            Some(sh) => (if labeled { " {\n  shape: "@ } else { "{\n  shape: "@ }) + sh + "\n}\n"@,
            None => "\n"@,
        }
    } else {
        "\n"@
    }
}

pub open spec fn d2_sub(g: crate::diagram::Subgraph) -> Seq<char> {
    crate::diagram::fmt_id(g.id@) + ": {\n"@ + flat(views(g.nodes@), |id: Seq<char>| "  "@ + crate::diagram::fmt_id(id) + "\n"@)
        + "}\n\n"@
}

pub open spec fn d2_edge(e: Edge) -> Seq<char> {
    let labeled = e.label@.len() > 0;
    crate::diagram::fmt_id(e.from@) + " -> "@ + crate::diagram::fmt_id(e.to@) + (if labeled || e.style != EdgeStyle::Arrow {
        ": "@ + (if labeled { d2_quote(e.label@) } else { Seq::empty() }) + (if e.style == EdgeStyle::Dashed {
            if labeled {
                " {\n  style.stroke-dash: 3\n}"@
            } else {
                "{\n  style.stroke-dash: 3\n}"@
            }
        } else {
            Seq::empty()
        })
    } else {
        Seq::empty()
    }) + "\n"@
}

pub open spec fn flowchart_d2(d: Diagram) -> Seq<char> {
    (match direction_out(d.rankdir@) {
        Some(dir) => "direction: "@ + dir + "\n\n"@,
        None => Seq::empty(),
    }) + flat(d.nodes@, |n: Node| d2_node(n)) + flat(d.subgraphs@, |g: crate::diagram::Subgraph| d2_sub(g)) + flat(
        d.edges@,
        |e: Edge| d2_edge(e),
    )
}

pub open spec fn d2_blocks(ds: Seq<crate::ir::Diagram>, multi: bool) -> Seq<Seq<char>>
    decreases ds.len(),
{
    if ds.len() == 0 {
        Seq::empty()
    } else {
        let prev = d2_blocks(ds.drop_last(), multi);
        let i = ds.len() - 1;
        match ds.last() {
            crate::ir::Diagram::Flowchart(fc) => prev.push(
                if multi {
                    "# diagram "@ + decimal(i as nat) + ": flowchart\n"@ + flowchart_d2(fc)
                } else {
                    flowchart_d2(fc)
                },
            ),
            _ => prev,
        }
    }
}

pub open spec fn d2_text(ds: Seq<crate::ir::Diagram>) -> Result<Seq<char>, Seq<char>> {
    let blocks = d2_blocks(ds, ds.len() > 1);
    if blocks.len() == 0 {
        Err("D2 export supports flowchart diagrams only"@)
    } else {
        Ok(join(blocks, "\n\n"@))
    }
}

fn d2_quote_exec(s: &str) -> (r: String)
    ensures
        r@ == d2_quote(s@),
{
    let cs = chars_of(s);
    let mut i: usize = 0;
    while i < cs.len() && (is_alphanumeric(cs[i]) || cs[i] == '_' || cs[i] == ' ')
        invariant
            i <= cs@.len(),
            cs@ == s@,
            forall|j: int| 0 <= j < i ==> (alphanumeric(#[trigger] cs@[j]) || cs@[j] == '_' || cs@[j] == ' '),
        decreases cs@.len() - i,
    {
        i = i + 1;
    }
    if cs.len() > 0 && i == cs.len() {
        return string_from(s);
    }
    let mut out = string_from("\"");
    out.append(crate::class::escape_note_exec(s).as_str());
    out.append("\"");
    out
}

fn shape_to_d2_exec(s: NodeShape) -> (r: Option<&'static str>)
    ensures
        match shape_to_d2(s) {
            Some(t) => r matches Some(x) && x@ == t,
            None => r is None,
        },
{
    match s {
        NodeShape::Rect => None,
        NodeShape::Diamond => Some("diamond"),
        NodeShape::Stadium => Some("oval"),
        NodeShape::Hexagon => Some("hexagon"),
        NodeShape::Cylinder => Some("cylinder"),
        NodeShape::Circle => Some("circle"),
    }
}

fn d2_node_exec(n: &Node) -> (r: String)
    ensures
        r@ == d2_node(*n),
{
    let mut out = crate::diagram::format_id(n.id.as_str());
    let labeled = !str_eq(n.text.as_str(), n.id.as_str());
    let sh = shape_to_d2_exec(n.shape);
    if labeled || sh.is_some() {
        out.append(": ");
        if labeled {
            out.append(d2_quote_exec(n.text.as_str()).as_str());
        }
        match sh {
            Some(shape) => {
                if labeled {
                    out.append(" {\n  shape: ");
                } else {
                    out.append("{\n  shape: ");
                }
                out.append(shape);
                out.append("\n}\n");
            },
            None => {
                out.append("\n");
            },
        }
    } else {
        out.append("\n");
    }
    out
}

fn d2_edge_exec(e: &Edge) -> (r: String)
    ensures
        r@ == d2_edge(*e),
{
    proof {
        reveal_strlit("");
    }
    let labeled = !str_eq(e.label.as_str(), "");
    assert(labeled == (e.label@.len() > 0)) by {
        if e.label@.len() == 0 {
            assert(e.label@ =~= ""@);
        }
    }
    let mut out = crate::diagram::format_id(e.from.as_str());
    out.append(" -> ");
    out.append(crate::diagram::format_id(e.to.as_str()).as_str());
    let not_arrow = match e.style {
        EdgeStyle::Arrow => false,
        _ => true,
    };
    if labeled || not_arrow {
        out.append(": ");
        if labeled {
            out.append(d2_quote_exec(e.label.as_str()).as_str());
        }
        match e.style {
            EdgeStyle::Dashed => {
                if labeled {
                    out.append(" {\n  style.stroke-dash: 3\n}");
                } else {
                    out.append("{\n  style.stroke-dash: 3\n}");
                }
            },
            _ => {},
        }
    }
    out.append("\n");
    out
}

fn d2_sub_exec(g: &crate::diagram::Subgraph) -> (r: String)
    ensures
        r@ == d2_sub(*g),
{
    let mut out = crate::diagram::format_id(g.id.as_str());
    out.append(": {\n");
    let ghost ids = views(g.nodes@);
    let ghost f = |id: Seq<char>| "  "@ + crate::diagram::fmt_id(id) + "\n"@;
    let ghost base = out@;
    let mut i: usize = 0;
    while i < g.nodes.len()
        invariant
            i <= g.nodes@.len(),
            ids == views(g.nodes@),
            f == (|id: Seq<char>| "  "@ + crate::diagram::fmt_id(id) + "\n"@),
            out@ == base + flat(ids.take(i as int), f),
        decreases g.nodes@.len() - i,
    {
        proof {
            lemma_flat_step(ids, f, i as int);
        }
        out.append("  ");
        out.append(crate::diagram::format_id(g.nodes[i].as_str()).as_str());
        out.append("\n");
        i = i + 1;
    }
    proof {
        lemma_flat_all(ids, f);
    }
    out.append("}\n\n");
    out
}

fn flowchart_d2_exec(d: &Diagram) -> (r: String)
    ensures
        r@ == flowchart_d2(*d),
{
    let mut out = String::new();
    let up = to_uppercase(d.rankdir.as_str());
    let u = up.as_str();
    let dir: Option<&str> = if str_eq(u, "LR") {
        Some("right")
    } else if str_eq(u, "RL") {
        Some("left")
    } else if str_eq(u, "BT") {
        Some("up")
    } else {
        None
    };
    match dir {
        Some(x) => {
            out.append("direction: ");
            out.append(x);
            out.append("\n\n");
        },
        None => {},
    }
    let ghost base = out@;
    let ghost fnode = |n: Node| d2_node(n);
    let mut i: usize = 0;
    while i < d.nodes.len()
        invariant
            i <= d.nodes@.len(),
            fnode == (|n: Node| d2_node(n)),
            out@ == base + flat(d.nodes@.take(i as int), fnode),
        decreases d.nodes@.len() - i,
    {
        proof {
            lemma_flat_step(d.nodes@, fnode, i as int);
        }
        out.append(d2_node_exec(&d.nodes[i]).as_str());
        i = i + 1;
    }
    proof {
        lemma_flat_all(d.nodes@, fnode);
    }
    let ghost base = out@;
    let ghost fsub = |g: crate::diagram::Subgraph| d2_sub(g);
    let mut i: usize = 0;
    while i < d.subgraphs.len()
        invariant
            i <= d.subgraphs@.len(),
            fsub == (|g: crate::diagram::Subgraph| d2_sub(g)),
            out@ == base + flat(d.subgraphs@.take(i as int), fsub),
        decreases d.subgraphs@.len() - i,
    {
        proof {
            lemma_flat_step(d.subgraphs@, fsub, i as int);
        }
        out.append(d2_sub_exec(&d.subgraphs[i]).as_str());
        i = i + 1;
    }
    proof {
        lemma_flat_all(d.subgraphs@, fsub);
    }
    let ghost base = out@;
    let ghost fedge = |e: Edge| d2_edge(e);
    let mut i: usize = 0;
    while i < d.edges.len()
        invariant
            i <= d.edges@.len(),
            fedge == (|e: Edge| d2_edge(e)),
            out@ == base + flat(d.edges@.take(i as int), fedge),
        decreases d.edges@.len() - i,
    {
        proof {
            lemma_flat_step(d.edges@, fedge, i as int);
        }
        out.append(d2_edge_exec(&d.edges[i]).as_str());
        i = i + 1;
    }
    proof {
        lemma_flat_all(d.edges@, fedge);
    }
    out
}

/// D2 text of a document's flowcharts.
pub fn export_document(doc: &Document) -> (r: Result<String, IrError>)
    ensures
        match d2_text(doc.diagrams@) {
            Ok(t) => r matches Ok(s) && s@ == t,
            Err(m) => r matches Err(e) && e.message@ == m,
        },
{
    let multi = doc.diagrams.len() > 1;
    let ghost ds = doc.diagrams@;
    let mut blocks: Vec<String> = Vec::new();
    let mut i: usize = 0;
    while i < doc.diagrams.len()
        invariant
            i <= ds.len(),
            ds == doc.diagrams@,
            multi == (ds.len() > 1),
            views(blocks@) == d2_blocks(ds.take(i as int), multi),
        decreases ds.len() - i,
    {
        let ghost t = ds.take(i + 1);
        assert(t.drop_last() =~= ds.take(i as int));
        assert(t.last() == ds[i as int]);
        match &doc.diagrams[i] {
            crate::ir::Diagram::Flowchart(fc) => {
                let ghost before = views(blocks@);
                let b = if multi {
                    let mut b = string_from("# diagram ");
                    crate::text::push_decimal(&mut b, i);
                    b.append(": flowchart\n");
                    b.append(flowchart_d2_exec(fc).as_str());
                    b
                } else {
                    flowchart_d2_exec(fc)
                };
                blocks.push(b);
                assert(views(blocks@) =~= before.push(b@));
            },
            _ => {},
        }
        i = i + 1;
    }
    assert(ds.take(ds.len() as int) =~= ds);
    if blocks.len() == 0 {
        return Err(IrError::new("D2 export supports flowchart diagrams only"));
    }
    Ok(join_strings(&blocks, "\n\n"))
}

/// Every node shape survives D2 export and import: a rectangle is written
/// with no `shape`, every other shape with a D2 shape word that the reader
/// maps back to that same shape (the standard lower-casing leaving a
/// lower-case word unchanged), and where that word is also a Mermaid shape
/// keyword it names the same shape there.
pub proof fn law_d2_shape_reads_back(s: NodeShape)
    ensures
        shape_to_d2(s) is None <==> s == NodeShape::Rect,
        crate::text::lowercase_keeps_lower() ==> match shape_to_d2(s) {
            Some(w) => shape_from_d2(w) == s,
            None => true,
        },
        s != NodeShape::Rect && s != NodeShape::Stadium ==> (shape_to_d2(s) matches Some(w)
            && crate::diagram::shape_keyword(w) == Some(s)),
{
    reveal_strlit("circle");
    reveal_strlit("cylinder");
    reveal_strlit("diamond");
    reveal_strlit("ellipse");
    reveal_strlit("hexagon");
    reveal_strlit("oval");
    reveal_strlit("rect");
    reveal_strlit("rectangle");
    reveal_strlit("stadium");
    match s {
        NodeShape::Rect => {},
        NodeShape::Diamond => {
            assert("diamond"@ != "circle"@) by { assert("diamond"@.len() != "circle"@.len()); }
            assert("diamond"@ != "cylinder"@) by { assert("diamond"@.len() != "cylinder"@.len()); }
            assert("diamond"@ != "ellipse"@) by { assert("diamond"@[0] != "ellipse"@[0]); }
            assert("diamond"@ != "hexagon"@) by { assert("diamond"@[0] != "hexagon"@[0]); }
            assert("diamond"@ != "oval"@) by { assert("diamond"@.len() != "oval"@.len()); }
            assert("diamond"@ != "rect"@) by { assert("diamond"@.len() != "rect"@.len()); }
            assert("diamond"@ != "rectangle"@) by { assert("diamond"@.len() != "rectangle"@.len()); }
            assert("diamond"@ != "stadium"@) by { assert("diamond"@[0] != "stadium"@[0]); }
            assert(crate::text::lower_word("diamond"@));
            crate::text::lemma_trim_fixed("diamond"@);
            if crate::text::lowercase_keeps_lower() {
                assert(lowercase("diamond"@) == "diamond"@);
            }
        },
        NodeShape::Stadium => {
            assert("oval"@ != "circle"@) by { assert("oval"@.len() != "circle"@.len()); }
            assert("oval"@ != "cylinder"@) by { assert("oval"@.len() != "cylinder"@.len()); }
            assert("oval"@ != "diamond"@) by { assert("oval"@.len() != "diamond"@.len()); }
            assert("oval"@ != "ellipse"@) by { assert("oval"@.len() != "ellipse"@.len()); }
            assert("oval"@ != "hexagon"@) by { assert("oval"@.len() != "hexagon"@.len()); }
            assert("oval"@ != "rect"@) by { assert("oval"@[0] != "rect"@[0]); }
            assert("oval"@ != "rectangle"@) by { assert("oval"@.len() != "rectangle"@.len()); }
            assert("oval"@ != "stadium"@) by { assert("oval"@.len() != "stadium"@.len()); }
            assert(crate::text::lower_word("oval"@));
            crate::text::lemma_trim_fixed("oval"@);
            if crate::text::lowercase_keeps_lower() {
                assert(lowercase("oval"@) == "oval"@);
            }
        },
        NodeShape::Hexagon => {
            assert("hexagon"@ != "circle"@) by { assert("hexagon"@.len() != "circle"@.len()); }
            assert("hexagon"@ != "cylinder"@) by { assert("hexagon"@.len() != "cylinder"@.len()); }
            assert("hexagon"@ != "diamond"@) by { assert("hexagon"@[0] != "diamond"@[0]); }
            assert("hexagon"@ != "ellipse"@) by { assert("hexagon"@[0] != "ellipse"@[0]); }
            assert("hexagon"@ != "oval"@) by { assert("hexagon"@.len() != "oval"@.len()); }
            assert("hexagon"@ != "rect"@) by { assert("hexagon"@.len() != "rect"@.len()); }
            assert("hexagon"@ != "rectangle"@) by { assert("hexagon"@.len() != "rectangle"@.len()); }
            assert("hexagon"@ != "stadium"@) by { assert("hexagon"@[0] != "stadium"@[0]); }
            assert(crate::text::lower_word("hexagon"@));
            crate::text::lemma_trim_fixed("hexagon"@);
            if crate::text::lowercase_keeps_lower() {
                assert(lowercase("hexagon"@) == "hexagon"@);
            }
        },
        NodeShape::Cylinder => {
            assert("cylinder"@ != "circle"@) by { assert("cylinder"@.len() != "circle"@.len()); }
            assert("cylinder"@ != "diamond"@) by { assert("cylinder"@.len() != "diamond"@.len()); }
            assert("cylinder"@ != "ellipse"@) by { assert("cylinder"@.len() != "ellipse"@.len()); }
            assert("cylinder"@ != "hexagon"@) by { assert("cylinder"@.len() != "hexagon"@.len()); }
            assert("cylinder"@ != "oval"@) by { assert("cylinder"@.len() != "oval"@.len()); }
            assert("cylinder"@ != "rect"@) by { assert("cylinder"@.len() != "rect"@.len()); }
            assert("cylinder"@ != "rectangle"@) by { assert("cylinder"@.len() != "rectangle"@.len()); }
            assert("cylinder"@ != "stadium"@) by { assert("cylinder"@.len() != "stadium"@.len()); }
            assert(crate::text::lower_word("cylinder"@));
            crate::text::lemma_trim_fixed("cylinder"@);
            if crate::text::lowercase_keeps_lower() {
                assert(lowercase("cylinder"@) == "cylinder"@);
            }
        },
        NodeShape::Circle => {
            assert("circle"@ != "cylinder"@) by { assert("circle"@.len() != "cylinder"@.len()); }
            assert("circle"@ != "diamond"@) by { assert("circle"@.len() != "diamond"@.len()); }
            assert("circle"@ != "ellipse"@) by { assert("circle"@.len() != "ellipse"@.len()); }
            assert("circle"@ != "hexagon"@) by { assert("circle"@.len() != "hexagon"@.len()); }
            assert("circle"@ != "oval"@) by { assert("circle"@.len() != "oval"@.len()); }
            assert("circle"@ != "rect"@) by { assert("circle"@.len() != "rect"@.len()); }
            assert("circle"@ != "rectangle"@) by { assert("circle"@.len() != "rectangle"@.len()); }
            assert("circle"@ != "stadium"@) by { assert("circle"@.len() != "stadium"@.len()); }
            assert(crate::text::lower_word("circle"@));
            crate::text::lemma_trim_fixed("circle"@);
            if crate::text::lowercase_keeps_lower() {
                assert(lowercase("circle"@) == "circle"@);
            }
        },
    }
}

/// The D2 and DOT readers agree on shape names: every lower-case name the
/// DOT reader knows, the D2 reader maps to the same node shape (the standard
/// lower-casing leaving a lower-case word unchanged).
pub proof fn law_d2_dot_shapes_agree(w: Seq<char>)
    requires
        crate::text::lower_word(w),
    ensures
        crate::text::lowercase_keeps_lower() && crate::formats::dot::map_shape(w) is Some ==> shape_from_d2(w)
            == crate::formats::dot::map_shape(w)->Some_0,
{
    if crate::text::lowercase_keeps_lower() {
        reveal_strlit("box");
        reveal_strlit("circle");
        reveal_strlit("cylinder");
        reveal_strlit("diamond");
        reveal_strlit("ellipse");
        reveal_strlit("hexagon");
        reveal_strlit("oval");
        reveal_strlit("rect");
        reveal_strlit("rectangle");
        reveal_strlit("square");
        reveal_strlit("stadium");
        assert(lowercase(w) == w);
        if w.len() > 0 {
            assert('a' <= w[0] <= 'z');
            assert('a' <= w[w.len() - 1] <= 'z');
        }
        crate::text::lemma_trim_fixed(w);
        if w == "box"@ {
            assert("box"@ != "circle"@) by { assert("box"@.len() != "circle"@.len()); }
            assert("box"@ != "cylinder"@) by { assert("box"@.len() != "cylinder"@.len()); }
            assert("box"@ != "diamond"@) by { assert("box"@.len() != "diamond"@.len()); }
            assert("box"@ != "ellipse"@) by { assert("box"@.len() != "ellipse"@.len()); }
            assert("box"@ != "hexagon"@) by { assert("box"@.len() != "hexagon"@.len()); }
            assert("box"@ != "oval"@) by { assert("box"@.len() != "oval"@.len()); }
            assert("box"@ != "stadium"@) by { assert("box"@.len() != "stadium"@.len()); }
        } else if w == "rect"@ {
            assert("rect"@ != "circle"@) by { assert("rect"@.len() != "circle"@.len()); }
            assert("rect"@ != "cylinder"@) by { assert("rect"@.len() != "cylinder"@.len()); }
            assert("rect"@ != "diamond"@) by { assert("rect"@.len() != "diamond"@.len()); }
            assert("rect"@ != "ellipse"@) by { assert("rect"@.len() != "ellipse"@.len()); }
            assert("rect"@ != "hexagon"@) by { assert("rect"@.len() != "hexagon"@.len()); }
            assert("rect"@ != "oval"@) by { assert("rect"@[0] != "oval"@[0]); }
            assert("rect"@ != "stadium"@) by { assert("rect"@.len() != "stadium"@.len()); }
        } else if w == "rectangle"@ {
            assert("rectangle"@ != "circle"@) by { assert("rectangle"@.len() != "circle"@.len()); }
            assert("rectangle"@ != "cylinder"@) by { assert("rectangle"@.len() != "cylinder"@.len()); }
            assert("rectangle"@ != "diamond"@) by { assert("rectangle"@.len() != "diamond"@.len()); }
            assert("rectangle"@ != "ellipse"@) by { assert("rectangle"@.len() != "ellipse"@.len()); }
            assert("rectangle"@ != "hexagon"@) by { assert("rectangle"@.len() != "hexagon"@.len()); }
            assert("rectangle"@ != "oval"@) by { assert("rectangle"@.len() != "oval"@.len()); }
            assert("rectangle"@ != "stadium"@) by { assert("rectangle"@.len() != "stadium"@.len()); }
        } else if w == "square"@ {
            assert("square"@ != "circle"@) by { assert("square"@[0] != "circle"@[0]); }
            assert("square"@ != "cylinder"@) by { assert("square"@.len() != "cylinder"@.len()); }
            assert("square"@ != "diamond"@) by { assert("square"@.len() != "diamond"@.len()); }
            assert("square"@ != "ellipse"@) by { assert("square"@.len() != "ellipse"@.len()); }
            assert("square"@ != "hexagon"@) by { assert("square"@.len() != "hexagon"@.len()); }
            assert("square"@ != "oval"@) by { assert("square"@.len() != "oval"@.len()); }
            assert("square"@ != "stadium"@) by { assert("square"@.len() != "stadium"@.len()); }
        } else if w == "diamond"@ {
            assert("diamond"@ != "circle"@) by { assert("diamond"@.len() != "circle"@.len()); }
            assert("diamond"@ != "cylinder"@) by { assert("diamond"@.len() != "cylinder"@.len()); }
            assert("diamond"@ != "ellipse"@) by { assert("diamond"@[0] != "ellipse"@[0]); }
            assert("diamond"@ != "hexagon"@) by { assert("diamond"@[0] != "hexagon"@[0]); }
            assert("diamond"@ != "oval"@) by { assert("diamond"@.len() != "oval"@.len()); }
            assert("diamond"@ != "stadium"@) by { assert("diamond"@[0] != "stadium"@[0]); }
        } else if w == "ellipse"@ {
            assert("ellipse"@ != "circle"@) by { assert("ellipse"@.len() != "circle"@.len()); }
            assert("ellipse"@ != "cylinder"@) by { assert("ellipse"@.len() != "cylinder"@.len()); }
            assert("ellipse"@ != "diamond"@) by { assert("ellipse"@[0] != "diamond"@[0]); }
            assert("ellipse"@ != "hexagon"@) by { assert("ellipse"@[0] != "hexagon"@[0]); }
            assert("ellipse"@ != "oval"@) by { assert("ellipse"@.len() != "oval"@.len()); }
            assert("ellipse"@ != "stadium"@) by { assert("ellipse"@[0] != "stadium"@[0]); }
        } else if w == "oval"@ {
            assert("oval"@ != "circle"@) by { assert("oval"@.len() != "circle"@.len()); }
            assert("oval"@ != "cylinder"@) by { assert("oval"@.len() != "cylinder"@.len()); }
            assert("oval"@ != "diamond"@) by { assert("oval"@.len() != "diamond"@.len()); }
            assert("oval"@ != "ellipse"@) by { assert("oval"@.len() != "ellipse"@.len()); }
            assert("oval"@ != "hexagon"@) by { assert("oval"@.len() != "hexagon"@.len()); }
            assert("oval"@ != "stadium"@) by { assert("oval"@.len() != "stadium"@.len()); }
        } else if w == "hexagon"@ {
            assert("hexagon"@ != "circle"@) by { assert("hexagon"@.len() != "circle"@.len()); }
            assert("hexagon"@ != "cylinder"@) by { assert("hexagon"@.len() != "cylinder"@.len()); }
            assert("hexagon"@ != "diamond"@) by { assert("hexagon"@[0] != "diamond"@[0]); }
            assert("hexagon"@ != "ellipse"@) by { assert("hexagon"@[0] != "ellipse"@[0]); }
            assert("hexagon"@ != "oval"@) by { assert("hexagon"@.len() != "oval"@.len()); }
            assert("hexagon"@ != "stadium"@) by { assert("hexagon"@[0] != "stadium"@[0]); }
        } else if w == "cylinder"@ {
            assert("cylinder"@ != "circle"@) by { assert("cylinder"@.len() != "circle"@.len()); }
            assert("cylinder"@ != "diamond"@) by { assert("cylinder"@.len() != "diamond"@.len()); }
            assert("cylinder"@ != "ellipse"@) by { assert("cylinder"@.len() != "ellipse"@.len()); }
            assert("cylinder"@ != "hexagon"@) by { assert("cylinder"@.len() != "hexagon"@.len()); }
            assert("cylinder"@ != "oval"@) by { assert("cylinder"@.len() != "oval"@.len()); }
            assert("cylinder"@ != "stadium"@) by { assert("cylinder"@.len() != "stadium"@.len()); }
        } else if w == "circle"@ {
            assert("circle"@ != "cylinder"@) by { assert("circle"@.len() != "cylinder"@.len()); }
            assert("circle"@ != "diamond"@) by { assert("circle"@.len() != "diamond"@.len()); }
            assert("circle"@ != "ellipse"@) by { assert("circle"@.len() != "ellipse"@.len()); }
            assert("circle"@ != "hexagon"@) by { assert("circle"@.len() != "hexagon"@.len()); }
            assert("circle"@ != "oval"@) by { assert("circle"@.len() != "oval"@.len()); }
            assert("circle"@ != "stadium"@) by { assert("circle"@.len() != "stadium"@.len()); }
        }
    }
}

} // verus!
