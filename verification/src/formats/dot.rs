//! Graphviz DOT text (a digraph subset) to and from flowcharts.

use vstd::prelude::*;
use crate::text::{
    alphanumeric, chars_of, contains_char, find, find_slice, is_alphanumeric, is_whitespace, is_ws,
    join, lowercase, matches_at, occurs_at, push_chars, slice_to_vec, str_eq, string_from, string_of,
    to_lowercase, to_uppercase, uppercase, views, join_strings, lemma_find_from, flat, decimal,
    lemma_flat_step, lemma_flat_all,
};
use crate::diagram::{Diagram, Edge, EdgeStyle, Node, NodeShape, NodeStyle, Subgraph};
use crate::ir::{Document, IrError};

verus! {

// ---------------------------------------------------------------- lexical layer

/// End of a `//` comment starting at `p`: the next newline, or the end.
pub open spec fn line_end(s: Seq<char>, p: int) -> int
    decreases s.len() - p,
{
    if p < 0 || p >= s.len() || s[p] == '\n' {
        p
    } else {
        line_end(s, p + 1)
    }
}

/// Scan of a `/*` comment body from `q`: where `*/` starts, or the last index.
pub open spec fn block_scan(s: Seq<char>, q: int) -> int
    decreases s.len() - q,
{
    if q < 0 || q + 1 >= s.len() || occurs_at(s, "*/"@, q) {
        q
    } else {
        block_scan(s, q + 1)
    }
}

/// Position after whitespace and comments from `p`.
pub open spec fn skip(s: Seq<char>, p: int) -> int
    decreases s.len() - p,
{
    if p < 0 || p >= s.len() {
        p
    } else if is_ws(s[p]) {
        skip(s, p + 1)
    } else if occurs_at(s, "//"@, p) {
        let q = line_end(s, p);
        if q > p && q <= s.len() {
            skip(s, q)
        } else {
            p
        }
    } else if occurs_at(s, "/*"@, p) {
        let q = block_scan(s, p + 2);
        let r = if q + 2 < s.len() { q + 2 } else { s.len() as int };
        if r > p {
            skip(s, r)
        } else {
            p
        }
    } else {
        p
    }
}

/// Skipping never moves back, and stays within the text.
pub proof fn lemma_skip_ge(s: Seq<char>, p: int)
    ensures
        skip(s, p) >= p,
        0 <= p <= s.len() ==> skip(s, p) <= s.len(),
    decreases s.len() - p,
{
    if 0 <= p < s.len() {
        if is_ws(s[p]) {
            lemma_skip_ge(s, p + 1);
        } else if occurs_at(s, "//"@, p) {
            let q = line_end(s, p);
            if q > p && q <= s.len() {
                lemma_skip_ge(s, q);
            }
        } else if occurs_at(s, "/*"@, p) {
            let q = block_scan(s, p + 2);
            let r = if q + 2 < s.len() { q + 2 } else { s.len() as int };
            if r > p {
                lemma_skip_ge(s, r);
            }
        }
    }
}

pub open spec fn at(s: Seq<char>, p: int, c: char) -> bool {
    0 <= p < s.len() && s[p] == c
}

pub open spec fn word_char(c: char) -> bool {
    alphanumeric(c) || c == '_'
}

/// End of the run of letters, digits and `_` from `p`.
pub open spec fn word_end(s: Seq<char>, p: int) -> int
    decreases s.len() - p,
{
    if p < 0 || p >= s.len() || !word_char(s[p]) {
        p
    } else {
        word_end(s, p + 1)
    }
}

/// After skipping, the keyword `kw` not followed by a word character:
/// whether it was there, and the new position.
pub open spec fn keyword(s: Seq<char>, p: int, kw: Seq<char>) -> (bool, int) {
    let q = skip(s, p);
    if occurs_at(s, kw, q) && !(q + kw.len() < s.len() && word_char(s[q + kw.len()])) {
        (true, q + kw.len())
    } else {
        (false, q)
    }
}

/// Scan of a quoted text from `k`: the index of the closing quote (or past the end).
pub open spec fn quote_scan(s: Seq<char>, k: int, quote: char) -> int
    decreases s.len() + 2 - k,
{
    if k < 0 || k >= s.len() || s[k] == quote {
        k
    } else if s[k] == '\\' {
        if k + 2 >= s.len() {
            s.len() as int
        } else {
            quote_scan(s, k + 2, quote)
        }
    } else {
        quote_scan(s, k + 1, quote)
    }
}

/// Every `pat` replaced by `rep`, left to right (`str::replace`).
pub open spec fn replace_all(s: Seq<char>, pat: Seq<char>, rep: Seq<char>) -> Seq<char>
    decreases s.len(),
{
    if s.len() == 0 || pat.len() == 0 {
        s
    } else if pat.is_prefix_of(s) {
        rep + replace_all(s.subrange(pat.len() as int, s.len() as int), pat, rep)
    } else {
        seq![s[0]] + replace_all(s.drop_first(), pat, rep)
    }
}

/// An identifier from `p`: quoted, or a run of word characters.
pub open spec fn ident(s: Seq<char>, p: int) -> Result<(Seq<char>, int), Seq<char>> {
    let q = skip(s, p);
    if q >= s.len() {
        Err("DOT: expected identifier"@)
    } else if s[q] == '"' || s[q] == '\'' {
        let k = quote_scan(s, q + 1, s[q]);
        if k >= s.len() {
            Err("DOT: unterminated quoted id"@)
        } else {
            Ok((replace_all(replace_all(s.subrange(q + 1, k), "\\\""@, "\""@), "\\'"@, "'"@), k + 1))
        }
    } else if s[q] == ':' {
        Err("DOT: port identifiers not supported"@)
    } else if s[q] == '-' && occurs_at(s, "--"@, q) {
        Err("DOT: expected identifier"@)
    } else {
        let e = word_end(s, q);
        if e == q {
            Err("DOT: expected identifier"@)
        } else {
            Ok((s.subrange(q, e), e))
        }
    }
}

/// An attribute key from `p`.
pub open spec fn attr_key(s: Seq<char>, p: int) -> Result<(Seq<char>, int), Seq<char>> {
    let q = skip(s, p);
    let e = word_end(s, q);
    if e == q {
        Err("DOT: expected attribute key"@)
    } else {
        Ok((s.subrange(q, e), e))
    }
}

/// End of an unquoted attribute value from `p`.
pub open spec fn value_end(s: Seq<char>, p: int) -> int
    decreases s.len() - p,
{
    if p < 0 || p >= s.len() || is_ws(s[p]) || s[p] == ',' || s[p] == ']' {
        p
    } else {
        value_end(s, p + 1)
    }
}

/// An attribute value from `p`: quoted, or text up to whitespace, `,` or `]`.
pub open spec fn attr_value(s: Seq<char>, p: int) -> Result<(Seq<char>, int), Seq<char>> {
    let q = skip(s, p);
    if q < s.len() && (s[q] == '"' || s[q] == '\'') {
        let k = quote_scan(s, q + 1, s[q]);
        if k >= s.len() {
            Err("DOT: unterminated attribute value"@)
        } else {
            Ok((replace_all(s.subrange(q + 1, k), "\\\""@, "\""@), k + 1))
        }
    } else {
        let e = value_end(s, q);
        if e == q {
            Err("DOT: expected attribute value"@)
        } else {
            Ok((s.subrange(q, e), e))
        }
    }
}

/// `c` after skipping: the position after it, or the error.
pub open spec fn expect(s: Seq<char>, p: int, c: char) -> Result<int, Seq<char>> {
    let q = skip(s, p);
    if at(s, q, c) {
        Ok(q + 1)
    } else {
        Err("DOT: expected '"@ + seq![c] + "'"@)
    }
}

/// `c` after skipping, if present.
pub open spec fn try_char(s: Seq<char>, p: int, c: char) -> int {
    let q = skip(s, p);
    if at(s, q, c) {
        q + 1
    } else {
        q
    }
}

// ---------------------------------------------------------------- attributes

/// What an attribute list says.
#[verifier::ext_equal]
pub ghost struct AttrsV {
    pub label: Option<Seq<char>>,
    pub shape: Option<NodeShape>,
    pub edge_style: Option<EdgeStyle>,
    pub href: Option<Seq<char>>,
    pub fillcolor: Option<Seq<char>>,
    pub color: Option<Seq<char>>,
    pub fontcolor: Option<Seq<char>>,
}

pub open spec fn no_attrs() -> AttrsV {
    AttrsV { label: None, shape: None, edge_style: None, href: None, fillcolor: None, color: None, fontcolor: None }
}

/// A DOT shape name as a node shape.
pub open spec fn map_shape(v: Seq<char>) -> Option<NodeShape> {
    let w = lowercase(v);
    if w == "box"@ || w == "rect"@ || w == "rectangle"@ || w == "square"@ {
        Some(NodeShape::Rect)
    } else if w == "diamond"@ {
        Some(NodeShape::Diamond)
    } else if w == "ellipse"@ || w == "oval"@ {
        Some(NodeShape::Stadium)
    } else if w == "hexagon"@ {
        Some(NodeShape::Hexagon)
    } else if w == "cylinder"@ {
        Some(NodeShape::Cylinder)
    } else if w == "circle"@ {
        Some(NodeShape::Circle)
    } else {
        None
    }
}

/// One `key=value` applied.
pub open spec fn apply_attr(a: AttrsV, key: Seq<char>, value: Seq<char>) -> AttrsV {
    let k = lowercase(key);
    if k == "label"@ {
        AttrsV { label: Some(value), ..a }
    } else if k == "shape"@ {
        AttrsV { shape: map_shape(value), ..a }
    } else if k == "style"@ {
        if find(value, "dashed"@) is Some {
            AttrsV { edge_style: Some(EdgeStyle::Dashed), ..a }
        } else if find(value, "bold"@) is Some {
            AttrsV { edge_style: Some(EdgeStyle::Thick), ..a }
        } else {
            a
        }
    } else if k == "url"@ || k == "href"@ {
        AttrsV { href: Some(value), ..a }
    } else if k == "fillcolor"@ {
        AttrsV { fillcolor: Some(value), ..a }
    } else if k == "color"@ {
        AttrsV { color: Some(value), ..a }
    } else if k == "fontcolor"@ {
        AttrsV { fontcolor: Some(value), ..a }
    } else {
        a
    }
}

/// The entries of an attribute list from `p` up to and past `]`.
pub open spec fn attr_items(s: Seq<char>, p: int, a: AttrsV) -> Result<(AttrsV, int), Seq<char>>
    decreases s.len() - p,
{
    let q = skip(s, p);
    if at(s, q, ']') {
        Ok((a, q + 1))
    } else {
        match attr_key(s, q) {
            Err(m) => Err(m),
            Ok((key, p1)) => match expect(s, skip(s, p1), '=') {
                Err(m) => Err(m),
                Ok(p2) => match attr_value(s, skip(s, p2)) {
                    Err(m) => Err(m),
                    Ok((value, p3)) => {
                        let p4 = try_char(s, skip(s, p3), ',');
                        if p < p4 <= s.len() {
                            attr_items(s, p4, apply_attr(a, key, value))
                        } else {
                            Ok((apply_attr(a, key, value), p4))
                        }
                    },
                },
            },
        }
    }
}

/// `[ key=value, ... ]` from `p`.
pub open spec fn attr_list(s: Seq<char>, p: int) -> Result<(AttrsV, int), Seq<char>> {
    match expect(s, p, '[') {
        Err(m) => Err(m),
        Ok(p1) => attr_items(s, p1, no_attrs()),
    }
}


// ---------------------------------------------------------------- statements

/// id, text, shape, link
pub type NodeD = (Seq<char>, Seq<char>, NodeShape, Option<Seq<char>>);

/// from, to, label, style
pub type EdgeD = (Seq<char>, Seq<char>, Seq<char>, EdgeStyle);

/// Parser state: position, graph kind and what has been read.
#[verifier::ext_equal]
pub ghost struct DS {
    pub pos: int,
    pub directed: bool,
    pub rankdir: Seq<char>,
    pub nodes: Seq<NodeD>,
    pub edges: Seq<EdgeD>,
    pub subgraphs: Seq<(Seq<char>, Seq<Seq<char>>)>,
    pub stack: Seq<Seq<char>>,
    pub styles: Seq<(Seq<char>, Seq<char>)>,
}

pub open spec fn at_pos(st: DS, p: int) -> DS {
    DS { pos: p, ..st }
}

/// The style entries an attribute list asks for.
pub open spec fn style_parts(a: AttrsV) -> Seq<Seq<char>> {
    (match a.fillcolor {
        Some(f) => seq!["fill:"@ + f],
        None => Seq::empty(),
    }) + (match a.color {
        Some(c) => seq!["stroke:"@ + c],
        None => Seq::empty(),
    }) + (match a.fontcolor {
        Some(c) => seq!["color:"@ + c],
        None => Seq::empty(),
    })
}

/// Set a node's style from its attributes (when they name colors).
pub open spec fn apply_style(st: DS, id: Seq<char>, a: AttrsV) -> DS {
    let parts = style_parts(a);
    if parts.len() == 0 {
        st
    } else {
        let props = join(parts, ","@);
        match crate::text::first(st.styles, |x: (Seq<char>, Seq<char>)| x.0 == id) {
            Some(j) => DS { styles: st.styles.update(j, (st.styles[j].0, props)), ..st },
            None => DS { styles: st.styles.push((id, props)), ..st },
        }
    }
}

/// Put `id` in the innermost open subgraph, once.
pub open spec fn enter_subgraph(st: DS, id: Seq<char>) -> DS {
    if st.stack.len() == 0 {
        st
    } else {
        let sg = st.stack.last();
        match crate::state::key_pos(crate::state::keys_of(st.subgraphs), sg) {
            Some(k) => if st.subgraphs[k].1.contains(id) {
                st
            } else {
                DS { subgraphs: st.subgraphs.update(k, (st.subgraphs[k].0, st.subgraphs[k].1.push(id))), ..st }
            },
            None => st,
        }
    }
}

/// Create a node, or update it with what the attributes say.
pub open spec fn ensure_node(st: DS, id: Seq<char>, a: AttrsV) -> DS {
    match crate::text::first(st.nodes, |n: NodeD| n.0 == id) {
        Some(j) => {
            let n = st.nodes[j];
            let n2 = (
                n.0,
                match a.label {
                    Some(t) => t,
                    None => n.1,
                },
                match a.shape {
                    Some(sh) => sh,
                    None => n.2,
                },
                match a.href {
                    Some(h) => Some(h),
                    None => n.3,
                },
            );
            apply_style(DS { nodes: st.nodes.update(j, n2), ..st }, id, a)
        },
        None => {
            let n = (
                id,
                match a.label {
                    Some(t) => t,
                    None => id,
                },
                match a.shape {
                    Some(sh) => sh,
                    None => NodeShape::Rect,
                },
                a.href,
            );
            enter_subgraph(apply_style(DS { nodes: st.nodes.push(n), ..st }, id, a), id)
        },
    }
}

pub open spec fn add_edge(st: DS, from: Seq<char>, to: Seq<char>, a: AttrsV) -> DS {
    DS {
        edges: st.edges.push((
            from,
            to,
            match a.label {
                Some(l) => l,
                None => Seq::empty(),
            },
            match a.edge_style {
                Some(e) => e,
                None => EdgeStyle::Arrow,
            },
        )),
        ..st
    }
}

/// A DOT `rankdir` value as a flowchart direction.
pub open spec fn map_rankdir(v: Seq<char>) -> Seq<char> {
    let u = uppercase(v);
    if u == "LR"@ {
        "LR"@
    } else if u == "BT"@ {
        "BT"@
    } else if u == "RL"@ {
        "RL"@
    } else {
        "TD"@
    }
}

/// The edge operator of the graph follows (after skipping).
pub open spec fn edge_op_here(s: Seq<char>, st: DS) -> bool {
    occurs_at(s, if st.directed { "->"@ } else { "--"@ }, skip(s, st.pos))
}

/// The rest of an edge chain after `prev`.
pub open spec fn chain(s: Seq<char>, st: DS, prev: Seq<char>) -> Result<DS, Seq<char>>
    decreases s.len() - st.pos,
{
    if !edge_op_here(s, st) {
        Ok(st)
    } else {
        let p2 = skip(s, skip(s, st.pos) + 2);
        let la = if at(s, p2, '[') {
            attr_list(s, p2)
        } else {
            Ok((no_attrs(), p2))
        };
        match la {
            Err(m) => Err(m),
            Ok((a, p3)) => match ident(s, p3) {
                Err(m) => Err(m),
                Ok((to, p4)) => {
                    let st2 = add_edge(
                        ensure_node(ensure_node(at_pos(st, p4), prev, no_attrs()), to, no_attrs()),
                        prev,
                        to,
                        a,
                    );
                    if st.pos < p4 <= s.len() {
                        chain(s, st2, to)
                    } else {
                        Ok(st2)
                    }
                },
            },
        }
    }
}

/// Label and style of a trailing attribute list applied to the last edge.
pub open spec fn override_last(st: DS, a: AttrsV) -> DS {
    if st.edges.len() == 0 {
        st
    } else {
        let e = st.edges.last();
        DS {
            edges: st.edges.update(
                st.edges.len() - 1,
                (
                    e.0,
                    e.1,
                    match a.label {
                        Some(l) => l,
                        None => e.2,
                    },
                    match a.edge_style {
                        Some(x) => x,
                        None => e.3,
                    },
                ),
            ),
            ..st
        }
    }
}

/// A statement that is not a subgraph, from `p1` (already past whitespace).
pub open spec fn plain_stmt(s: Seq<char>, st: DS, p1: int) -> Result<DS, Seq<char>> {
    let (k1, q1) = keyword(s, p1, "node"@);
    let (k2, q2) = if k1 { (true, q1) } else { keyword(s, q1, "edge"@) };
    let (k3, q3) = if k2 { (true, q2) } else { keyword(s, q2, "graph"@) };
    if k3 {
        let q4 = skip(s, q3);
        if at(s, q4, '[') {
            match attr_list(s, q4) {
                Err(m) => Err(m),
                Ok((_, q5)) => Ok(at_pos(st, q5)),
            }
        } else {
            Ok(at_pos(st, q4))
        }
    } else {
        let (kr, r1) = keyword(s, q3, "rankdir"@);
        if kr {
            match expect(s, r1, '=') {
                Err(m) => Err(m),
                Ok(r2) => match ident(s, r2) {
                    Err(m) => Err(m),
                    Ok((v, r3)) => Ok(DS { pos: r3, rankdir: map_rankdir(v), ..st }),
                },
            }
        } else {
            match ident(s, r1) {
                Err(m) => Err(m),
                Ok((first, f1)) => {
                    let f2 = skip(s, f1);
                    let na = if at(s, f2, '[') {
                        match attr_list(s, f2) {
                            Err(m) => Err(m),
                            Ok((a, f3)) => Ok((Some(a), f3)),
                        }
                    } else {
                        Ok((None, f2))
                    };
                    match na {
                        Err(m) => Err(m),
                        Ok((oa, f3)) => {
                            let st1 = match oa {
                                Some(a) => at_pos(ensure_node(st, first, a), skip(s, f3)),
                                None => at_pos(st, f3),
                            };
                            if edge_op_here(s, st1) {
                                match chain(s, st1, first) {
                                    Err(m) => Err(m),
                                    Ok(st2) => {
                                        let g1 = skip(s, st2.pos);
                                        if at(s, g1, '[') {
                                            match attr_list(s, g1) {
                                                Err(m) => Err(m),
                                                Ok((a, g2)) => Ok(override_last(at_pos(st2, g2), a)),
                                            }
                                        } else {
                                            Ok(at_pos(st2, g1))
                                        }
                                    },
                                }
                            } else if oa is Some {
                                Ok(st1)
                            } else {
                                Ok(ensure_node(st1, first, no_attrs()))
                            }
                        },
                    }
                },
            }
        }
    }
}

/// One statement from `st.pos`.
pub open spec fn stmt(s: Seq<char>, st: DS) -> Result<DS, Seq<char>>
    decreases s.len() - st.pos, 0int,
{
    let (is_sub, p1) = keyword(s, st.pos, "subgraph"@);
    if is_sub {
        match ident(s, p1) {
            Err(m) => Err(m),
            Ok((id, p2)) => match expect(s, skip(s, p2), '{') {
                Err(m) => Err(m),
                Ok(p4) => {
                    let st1 = DS {
                        pos: p4,
                        stack: st.stack.push(id),
                        subgraphs: st.subgraphs.push((id, Seq::empty())),
                        ..st
                    };
                    if st.pos < p4 <= s.len() {
                        match stmts(s, st1) {
                            Err(m) => Err(m),
                            Ok(st2) => match expect(s, st2.pos, '}') {
                                Err(m) => Err(m),
                                Ok(p5) => Ok(DS { pos: p5, stack: drop_top(st2.stack), ..st2 }),
                            },
                        }
                    } else {
                        Ok(st1)
                    }
                },
            },
        }
    } else {
        plain_stmt(s, st, p1)
    }
}

/// The stack without its top entry (unchanged when empty).
pub open spec fn drop_top(st: Seq<Seq<char>>) -> Seq<Seq<char>> {
    if st.len() > 0 {
        st.drop_last()
    } else {
        st
    }
}

/// Statements up to a closing `}` (not consumed) or the end.
pub open spec fn stmts(s: Seq<char>, st: DS) -> Result<DS, Seq<char>>
    decreases s.len() - st.pos, 1int,
{
    if at(s, st.pos, '}') || st.pos >= s.len() || st.pos < 0 {
        Ok(st)
    } else {
        let p = skip(s, st.pos);
        if at(s, p, '}') || p > s.len() {
            Ok(at_pos(st, p))
        } else {
            proof {
                lemma_skip_ge(s, st.pos);
            }
            match stmt(s, at_pos(st, p)) {
                Err(m) => Err(m),
                Ok(st2) => {
                    let p4 = skip(s, try_char(s, skip(s, st2.pos), ';'));
                    if st.pos < p4 <= s.len() {
                        stmts(s, at_pos(st2, p4))
                    } else {
                        Ok(at_pos(st2, p4))
                    }
                },
            }
        }
    }
}

/// Where parsing an identifier stops when it fails.
pub open spec fn ident_stop(s: Seq<char>, p: int) -> int {
    let q = skip(s, p);
    if q < s.len() && (s[q] == '"' || s[q] == '\'') {
        quote_scan(s, q + 1, s[q])
    } else {
        q
    }
}

/// What reading a DOT source gives.
pub open spec fn dot_parse(s: Seq<char>) -> Result<DS, Seq<char>> {
    let p0 = skip(s, 0);
    let (strict, p1) = keyword(s, p0, "strict"@);
    let p2 = if strict { skip(s, p1) } else { p1 };
    let (dg, p3) = keyword(s, p2, "digraph"@);
    let (g, p3b) = keyword(s, p3, "graph"@);
    if !dg && !g {
        Err("DOT: expected digraph or graph"@)
    } else {
        let p4 = if dg { p3 } else { p3b };
        let p5 = skip(s, p4);
        let p6 = if at(s, p5, '{') {
            p5
        } else {
            match ident(s, p5) {
                Ok((_, e)) => e,
                Err(_) => ident_stop(s, p5),
            }
        };
        match expect(s, skip(s, p6), '{') {
            Err(m) => Err(m),
            Ok(p7) => {
                let st0 = DS {
                    pos: p7,
                    directed: dg,
                    rankdir: "TD"@,
                    nodes: Seq::empty(),
                    edges: Seq::empty(),
                    subgraphs: Seq::empty(),
                    stack: Seq::empty(),
                    styles: Seq::empty(),
                };
                match stmts(s, st0) {
                    Err(m) => Err(m),
                    Ok(st) => match expect(s, st.pos, '}') {
                        Err(m) => Err(m),
                        Ok(_) => Ok(st),
                    },
                }
            },
        }
    }
}

/// The flowchart read from DOT text, as the parser state describes it.
pub open spec fn dot_diagram(d: Diagram, st: DS) -> bool {
    &&& d.rankdir@ == st.rankdir
    &&& d.nodes@.len() == st.nodes.len()
    &&& forall|i: int| 0 <= i < st.nodes.len() ==> {
        let n = #[trigger] d.nodes@[i];
        (n.id@, n.text@, n.shape, crate::gantt::opt_v(n.href)) == st.nodes[i] && n.tooltip is None
    }
    &&& d.edges@.len() == st.edges.len()
    &&& forall|i: int| 0 <= i < st.edges.len() ==> {
        let e = #[trigger] d.edges@[i];
        (e.from@, e.to@, e.label@, e.style) == st.edges[i]
    }
    &&& d.subgraphs@.len() == st.subgraphs.len()
    &&& forall|i: int| 0 <= i < st.subgraphs.len() ==> {
        let g = #[trigger] d.subgraphs@[i];
        (g.id@, views(g.nodes@)) == st.subgraphs[i]
    }
    &&& d.styles@.len() == st.styles.len()
    &&& forall|i: int| 0 <= i < st.styles.len() ==> {
        let x = #[trigger] d.styles@[i];
        (x.node_id@, x.properties@) == st.styles[i]
    }
    &&& d.class_defs@.len() == 0
    &&& d.class_applies@.len() == 0
    &&& d.link_styles@.len() == 0
}


// ---------------------------------------------------------------- lexical code

fn line_end_exec(s: &[char], p: usize) -> (r: usize)
    requires
        p <= s@.len(),
    ensures
        r == line_end(s@, p as int),
        p <= r <= s@.len(),
        p < s@.len() && s@[p as int] != '\n' ==> r > p,
{
    let mut k = p;
    while k < s.len() && s[k] != '\n'
        invariant
            p <= k <= s@.len(),
            line_end(s@, p as int) == line_end(s@, k as int),
        decreases s@.len() - k,
    {
        k = k + 1;
    }
    k
}

fn block_scan_exec(s: &[char], q: usize) -> (r: usize)
    requires
        q <= s@.len(),
    ensures
        r == block_scan(s@, q as int),
        q <= r <= s@.len(),
{
    let star = chars_of("*/");
    let n = s.len();
    let mut k = q;
    while k < n && k + 1 < n && !matches_at(s, star.as_slice(), k)
        invariant
            q <= k <= s@.len(),
            n == s@.len(),
            star@ == "*/"@,
            block_scan(s@, q as int) == block_scan(s@, k as int),
        decreases s@.len() - k,
    {
        k = k + 1;
    }
    k
}

/// Past whitespace and comments.
fn skip_exec(s: &[char], p: usize) -> (r: usize)
    requires
        p <= s@.len(),
    ensures
        r == skip(s@, p as int),
        p <= r <= s@.len(),
{
    let slash2 = chars_of("//");
    let open = chars_of("/*");
    proof {
        reveal_strlit("//");
        reveal_strlit("/*");
    }
    let n = s.len();
    let mut k = p;
    loop
        invariant
            p <= k <= n,
            n == s@.len(),
            slash2@ == "//"@,
            open@ == "/*"@,
            open@.len() == 2,
            skip(s@, p as int) == skip(s@, k as int),
        decreases n - k,
    {
        if k >= n {
            return k;
        }
        if is_whitespace(s[k]) {
            k = k + 1;
        } else if matches_at(s, slash2.as_slice(), k) {
            k = line_end_exec(s, k);
        } else if matches_at(s, open.as_slice(), k) {
            assert(k + 2 <= n);
            let q = block_scan_exec(s, k + 2);
            k = if q < n && n - q > 2 { q + 2 } else { n };
        } else {
            return k;
        }
    }
}

fn word_end_exec(s: &[char], p: usize) -> (r: usize)
    requires
        p <= s@.len(),
    ensures
        r == word_end(s@, p as int),
        p <= r <= s@.len(),
{
    let mut k = p;
    while k < s.len() && (is_alphanumeric(s[k]) || s[k] == '_')
        invariant
            p <= k <= s@.len(),
            word_end(s@, p as int) == word_end(s@, k as int),
        decreases s@.len() - k,
    {
        k = k + 1;
    }
    k
}

fn value_end_exec(s: &[char], p: usize) -> (r: usize)
    requires
        p <= s@.len(),
    ensures
        r == value_end(s@, p as int),
        p <= r <= s@.len(),
{
    let mut k = p;
    while k < s.len() && !(is_whitespace(s[k]) || s[k] == ',' || s[k] == ']')
        invariant
            p <= k <= s@.len(),
            value_end(s@, p as int) == value_end(s@, k as int),
        decreases s@.len() - k,
    {
        k = k + 1;
    }
    k
}

fn quote_scan_exec(s: &[char], p: usize, quote: char) -> (r: usize)
    requires
        p <= s@.len(),
    ensures
        r == quote_scan(s@, p as int, quote),
        p <= r <= s@.len(),
{
    let n = s.len();
    let mut k = p;
    while k < n && s[k] != quote
        invariant
            p <= k <= n,
            n == s@.len(),
            quote_scan(s@, p as int, quote) == quote_scan(s@, k as int, quote),
        decreases n - k,
    {
        if s[k] == '\\' {
            if n - k <= 2 {
                return n;
            }
            k = k + 2;
        } else {
            k = k + 1;
        }
    }
    k
}

fn keyword_exec(s: &[char], p: usize, kw: &str) -> (r: (bool, usize))
    requires
        p <= s@.len(),
    ensures
        (r.0, r.1 as int) == keyword(s@, p as int, kw@),
        p <= r.1 <= s@.len(),
{
    let q = skip_exec(s, p);
    let k = chars_of(kw);
    let kl = k.len();
    let n = s.len();
    if matches_at(s, k.as_slice(), q) {
        assert(occurs_at(s@, k@, q as int));
        assert(q + kl <= n);
        let e = q + kl;
        if !(e < n && (is_alphanumeric(s[e]) || s[e] == '_')) {
            return (true, e);
        }
    }
    (false, q)
}

pub(crate) fn replace_all_exec(s: &[char], pat: &str, rep: &str) -> (r: Vec<char>)
    ensures
        r@ == replace_all(s@, pat@, rep@),
{
    let p = chars_of(pat);
    let rp = chars_of(rep);
    let mut out: Vec<char> = Vec::new();
    let mut k: usize = 0;
    let n = s.len();
    assert(s@.subrange(0, n as int) =~= s@);
    while k < n
        invariant
            k <= n,
            n == s@.len(),
            p@ == pat@,
            rp@ == rep@,
            out@ + replace_all(s@.subrange(k as int, n as int), pat@, rep@) == replace_all(s@, pat@, rep@),
        decreases n - k,
    {
        let ghost rest = s@.subrange(k as int, n as int);
        if p.len() > 0 && matches_at(s, p.as_slice(), k) {
            assert(p@.is_prefix_of(rest)) by {
                assert(rest.subrange(0, p@.len() as int) =~= s@.subrange(k as int, k + p@.len()));
            }
            assert(rest.subrange(p@.len() as int, rest.len() as int) =~= s@.subrange(k + p@.len(), n as int));
            let mut j: usize = 0;
            let ghost o0 = out@;
            while j < rp.len()
                invariant
                    j <= rp@.len(),
                    out@ == o0 + rp@.take(j as int),
                decreases rp@.len() - j,
            {
                out.push(rp[j]);
                assert(rp@.take(j + 1) =~= rp@.take(j as int).push(rp@[j as int]));
                j = j + 1;
            }
            assert(rp@.take(rp@.len() as int) =~= rp@);
            assert(out@ + replace_all(s@.subrange(k + p@.len(), n as int), pat@, rep@) =~= o0 + replace_all(rest, pat@, rep@));
            k = k + p.len();
        } else {
            proof {
                if p@.len() > 0 && p@.is_prefix_of(rest) {
                    assert(rest.subrange(0, p@.len() as int) =~= s@.subrange(k as int, k + p@.len()));
                    assert(occurs_at(s@, p@, k as int));
                }
            }
            let ghost o0 = out@;
            out.push(s[k]);
            assert(rest.drop_first() =~= s@.subrange(k + 1, n as int));
            assert(out@ + replace_all(s@.subrange(k + 1, n as int), pat@, rep@) =~= o0 + replace_all(rest, pat@, rep@));
            k = k + 1;
        }
    }
    assert(s@.subrange(n as int, n as int) =~= Seq::<char>::empty());
    assert(out@ + Seq::<char>::empty() =~= out@);
    out
}

fn msg(m: &str) -> (r: String)
    ensures
        r@ == m@,
{
    string_from(m)
}

fn ident_exec(s: &[char], p: usize) -> (r: Result<(Vec<char>, usize), String>)
    requires
        p <= s@.len(),
    ensures
        match ident(s@, p as int) {
            Ok((v, e)) => r matches Ok((x, k)) && x@ == v && k == e && k <= s@.len(),
            Err(m) => r matches Err(x) && x@ == m,
        },
{
    let q = skip_exec(s, p);
    let n = s.len();
    if q >= n {
        return Err(msg("DOT: expected identifier"));
    }
    let c = s[q];
    if c == '"' || c == '\'' {
        let k = quote_scan_exec(s, q + 1, c);
        if k >= n {
            return Err(msg("DOT: unterminated quoted id"));
        }
        let a = replace_all_exec(&s[q + 1..k], "\\\"", "\"");
        let b = replace_all_exec(a.as_slice(), "\\'", "'");
        return Ok((b, k + 1));
    }
    if c == ':' {
        return Err(msg("DOT: port identifiers not supported"));
    }
    if c == '-' && matches_at(s, chars_of("--").as_slice(), q) {
        return Err(msg("DOT: expected identifier"));
    }
    let e = word_end_exec(s, q);
    if e == q {
        return Err(msg("DOT: expected identifier"));
    }
    Ok((slice_to_vec(&s[q..e]), e))
}

fn ident_stop_exec(s: &[char], p: usize) -> (r: usize)
    requires
        p <= s@.len(),
    ensures
        r == ident_stop(s@, p as int),
        r <= s@.len(),
{
    let q = skip_exec(s, p);
    if q < s.len() && (s[q] == '"' || s[q] == '\'') {
        quote_scan_exec(s, q + 1, s[q])
    } else {
        q
    }
}

fn attr_key_exec(s: &[char], p: usize) -> (r: Result<(Vec<char>, usize), String>)
    requires
        p <= s@.len(),
    ensures
        match attr_key(s@, p as int) {
            Ok((v, e)) => r matches Ok((x, k)) && x@ == v && k == e && p < k <= s@.len(),
            Err(m) => r matches Err(x) && x@ == m,
        },
{
    let q = skip_exec(s, p);
    let e = word_end_exec(s, q);
    if e == q {
        return Err(msg("DOT: expected attribute key"));
    }
    Ok((slice_to_vec(&s[q..e]), e))
}

fn attr_value_exec(s: &[char], p: usize) -> (r: Result<(Vec<char>, usize), String>)
    requires
        p <= s@.len(),
    ensures
        match attr_value(s@, p as int) {
            Ok((v, e)) => r matches Ok((x, k)) && x@ == v && k == e && p < k <= s@.len(),
            Err(m) => r matches Err(x) && x@ == m,
        },
{
    let q = skip_exec(s, p);
    let n = s.len();
    if q < n && (s[q] == '"' || s[q] == '\'') {
        let k = quote_scan_exec(s, q + 1, s[q]);
        if k >= n {
            return Err(msg("DOT: unterminated attribute value"));
        }
        return Ok((replace_all_exec(&s[q + 1..k], "\\\"", "\""), k + 1));
    }
    let e = value_end_exec(s, q);
    if e == q {
        return Err(msg("DOT: expected attribute value"));
    }
    Ok((slice_to_vec(&s[q..e]), e))
}

fn expect_exec(s: &[char], p: usize, c: char) -> (r: Result<usize, String>)
    requires
        p <= s@.len(),
    ensures
        match expect(s@, p as int, c) {
            Ok(e) => r == Ok::<usize, String>(e as usize) && p < e <= s@.len(),
            Err(m) => r matches Err(x) && x@ == m,
        },
{
    let q = skip_exec(s, p);
    if q < s.len() && s[q] == c {
        Ok(q + 1)
    } else {
        let mut m = msg("DOT: expected '");
        crate::text::push_char(&mut m, c);
        m.append("'");
        Err(m)
    }
}

fn try_char_exec(s: &[char], p: usize, c: char) -> (r: usize)
    requires
        p <= s@.len(),
    ensures
        r == try_char(s@, p as int, c),
        p <= r <= s@.len(),
{
    let q = skip_exec(s, p);
    if q < s.len() && s[q] == c {
        q + 1
    } else {
        q
    }
}


// ---------------------------------------------------------------- attribute code

struct AX {
    label: Option<Vec<char>>,
    shape: Option<NodeShape>,
    edge_style: Option<EdgeStyle>,
    href: Option<Vec<char>>,
    fillcolor: Option<Vec<char>>,
    color: Option<Vec<char>>,
    fontcolor: Option<Vec<char>>,
}

spec fn ovc(o: Option<Vec<char>>) -> Option<Seq<char>> {
    match o {
        Some(v) => Some(v@),
        None => None,
    }
}

spec fn ax_v(a: AX) -> AttrsV {
    AttrsV {
        label: ovc(a.label),
        shape: a.shape,
        edge_style: a.edge_style,
        href: ovc(a.href),
        fillcolor: ovc(a.fillcolor),
        color: ovc(a.color),
        fontcolor: ovc(a.fontcolor),
    }
}

fn no_ax() -> (a: AX)
    ensures
        ax_v(a) == no_attrs(),
{
    AX { label: None, shape: None, edge_style: None, href: None, fillcolor: None, color: None, fontcolor: None }
}

fn map_shape_exec(v: &[char]) -> (r: Option<NodeShape>)
    ensures
        r == map_shape(v@),
{
    let low = to_lowercase(string_of(v).as_str());
    let w = low.as_str();
    if str_eq(w, "box") || str_eq(w, "rect") || str_eq(w, "rectangle") || str_eq(w, "square") {
        Some(NodeShape::Rect)
    } else if str_eq(w, "diamond") {
        Some(NodeShape::Diamond)
    } else if str_eq(w, "ellipse") || str_eq(w, "oval") {
        Some(NodeShape::Stadium)
    } else if str_eq(w, "hexagon") {
        Some(NodeShape::Hexagon)
    } else if str_eq(w, "cylinder") {
        Some(NodeShape::Cylinder)
    } else if str_eq(w, "circle") {
        Some(NodeShape::Circle)
    } else {
        None
    }
}

fn apply_attr_exec(a: &mut AX, key: &[char], value: &[char])
    ensures
        ax_v(*final(a)) == apply_attr(ax_v(*old(a)), key@, value@),
{
    let low = to_lowercase(string_of(key).as_str());
    let k = low.as_str();
    if str_eq(k, "label") {
        a.label = Some(slice_to_vec(value));
    } else if str_eq(k, "shape") {
        a.shape = map_shape_exec(value);
    } else if str_eq(k, "style") {
        if find_slice(value, chars_of("dashed").as_slice()).is_some() {
            a.edge_style = Some(EdgeStyle::Dashed);
        } else if find_slice(value, chars_of("bold").as_slice()).is_some() {
            a.edge_style = Some(EdgeStyle::Thick);
        }
    } else if str_eq(k, "url") || str_eq(k, "href") {
        a.href = Some(slice_to_vec(value));
    } else if str_eq(k, "fillcolor") {
        a.fillcolor = Some(slice_to_vec(value));
    } else if str_eq(k, "color") {
        a.color = Some(slice_to_vec(value));
    } else if str_eq(k, "fontcolor") {
        a.fontcolor = Some(slice_to_vec(value));
    }
}

fn attr_list_exec(s: &[char], p: usize) -> (r: Result<(AX, usize), String>)
    requires
        p <= s@.len(),
    ensures
        match attr_list(s@, p as int) {
            Ok((a, e)) => r matches Ok((x, k)) && ax_v(x) == a && k == e && p < k <= s@.len(),
            Err(m) => r matches Err(x) && x@ == m,
        },
{
    let p1 = match expect_exec(s, p, '[') {
        Ok(v) => v,
        Err(m) => return Err(m),
    };
    let mut a = no_ax();
    let mut pos = p1;
    let n = s.len();
    loop
        invariant
            p < p1 <= pos <= n,
            n == s@.len(),
            expect(s@, p as int, '[') == Ok::<int, Seq<char>>(p1 as int),
            attr_list(s@, p as int) == attr_items(s@, pos as int, ax_v(a)),
        decreases n - pos,
    {
        let q = skip_exec(s, pos);
        if q < n && s[q] == ']' {
            return Ok((a, q + 1));
        }
        let (key, p1k) = match attr_key_exec(s, q) {
            Ok(v) => v,
            Err(m) => return Err(m),
        };
        let p2 = match expect_exec(s, skip_exec(s, p1k), '=') {
            Ok(v) => v,
            Err(m) => return Err(m),
        };
        let (value, p3) = match attr_value_exec(s, skip_exec(s, p2)) {
            Ok(v) => v,
            Err(m) => return Err(m),
        };
        apply_attr_exec(&mut a, key.as_slice(), value.as_slice());
        let p4 = try_char_exec(s, skip_exec(s, p3), ',');
        if !(pos < p4) {
            return Ok((a, p4));
        }
        pos = p4;
    }
}

// ---------------------------------------------------------------- state code

struct PS {
    pos: usize,
    directed: bool,
    rankdir: Vec<char>,
    nodes: Vec<Node>,
    edges: Vec<Edge>,
    subgraphs: Vec<Subgraph>,
    stack: Vec<Vec<char>>,
    styles: Vec<NodeStyle>,
}

spec fn node_d(n: Node) -> NodeD {
    (n.id@, n.text@, n.shape, crate::gantt::opt_v(n.href))
}

spec fn ps_v(x: PS) -> DS {
    DS {
        pos: x.pos as int,
        directed: x.directed,
        rankdir: x.rankdir@,
        nodes: Seq::new(x.nodes@.len(), |i: int| node_d(x.nodes@[i])),
        edges: Seq::new(x.edges@.len(), |i: int| (x.edges@[i].from@, x.edges@[i].to@, x.edges@[i].label@, x.edges@[i].style)),
        subgraphs: Seq::new(x.subgraphs@.len(), |i: int| (x.subgraphs@[i].id@, views(x.subgraphs@[i].nodes@))),
        stack: crate::text::seqs(x.stack@),
        styles: Seq::new(x.styles@.len(), |i: int| (x.styles@[i].node_id@, x.styles@[i].properties@)),
    }
}

spec fn ps_wf(x: PS) -> bool {
    forall|i: int| 0 <= i < x.nodes@.len() ==> (#[trigger] x.nodes@[i]).tooltip is None
}

fn opt_string_of(o: &Option<Vec<char>>) -> (r: Option<String>)
    ensures
        crate::gantt::opt_v(r) == ovc(*o),
{
    match o {
        Some(v) => Some(string_of(v.as_slice())),
        None => None,
    }
}

fn apply_style_exec(x: &mut PS, id: &[char], a: &AX)
    ensures
        ps_v(*final(x)) == apply_style(ps_v(*old(x)), id@, ax_v(*a)),
        ps_wf(*old(x)) ==> ps_wf(*final(x)),
        final(x).pos == old(x).pos,
{
    let ghost st = ps_v(*x);
    let ghost av = ax_v(*a);
    let mut parts: Vec<String> = Vec::new();
    match &a.fillcolor {
        Some(f) => {
            let mut t = string_from("fill:");
            push_chars(&mut t, f.as_slice());
            parts.push(t);
        },
        None => {},
    }
    let ghost p1 = views(parts@);
    match &a.color {
        Some(c) => {
            let mut t = string_from("stroke:");
            push_chars(&mut t, c.as_slice());
            parts.push(t);
        },
        None => {},
    }
    let ghost p2 = views(parts@);
    match &a.fontcolor {
        Some(c) => {
            let mut t = string_from("color:");
            push_chars(&mut t, c.as_slice());
            parts.push(t);
        },
        None => {},
    }
    assert(views(parts@) =~= style_parts(av)) by {
        assert(p1 =~= match av.fillcolor {
            Some(f) => seq!["fill:"@ + f],
            None => Seq::<Seq<char>>::empty(),
        });
    }
    if parts.len() == 0 {
        return;
    }
    let props = join_strings(&parts, ",");
    let ghost f = |y: (Seq<char>, Seq<char>)| y.0 == id@;
    let mut j: usize = 0;
    while j < x.styles.len() && !eq_chars_str(id, x.styles[j].node_id.as_str())
        invariant
            j <= x.styles@.len(),
            st == ps_v(*x),
            f == (|y: (Seq<char>, Seq<char>)| y.0 == id@),
            crate::text::first(st.styles, f) == crate::text::first_from(st.styles, f, j as int),
        decreases x.styles@.len() - j,
    {
        assert(st.styles[j as int] == (x.styles@[j as int].node_id@, x.styles@[j as int].properties@));
        j = j + 1;
    }
    proof {
        crate::text::lemma_first_from(st.styles, f, j as int);
        if j < x.styles@.len() {
            assert(st.styles[j as int] == (x.styles@[j as int].node_id@, x.styles@[j as int].properties@));
        }
    }
    if j < x.styles.len() {
        assert(st.styles[j as int].0 == id@);
        let nid = string_of(id);
        x.styles.set(j, NodeStyle { node_id: nid, properties: props });
        assert(ps_v(*x).styles =~= st.styles.update(j as int, (st.styles[j as int].0, join(style_parts(av), ","@))));
    } else {
        x.styles.push(NodeStyle { node_id: string_of(id), properties: props });
        assert(ps_v(*x).styles =~= st.styles.push((id@, join(style_parts(av), ","@))));
    }
    assert(ps_v(*x) =~= apply_style(st, id@, av));
}

fn eq_chars_str(a: &[char], b: &str) -> (r: bool)
    ensures
        r == (a@ == b@),
{
    crate::text::eq_slice(a, chars_of(b).as_slice())
}

fn enter_subgraph_exec(x: &mut PS, id: &[char])
    ensures
        ps_v(*final(x)) == enter_subgraph(ps_v(*old(x)), id@),
        ps_wf(*old(x)) ==> ps_wf(*final(x)),
        final(x).pos == old(x).pos,
{
    let ghost st = ps_v(*x);
    let ns = x.stack.len();
    if ns > 0 {
        let sg = slice_to_vec(x.stack[ns - 1].as_slice());
        assert(st.stack.last() == sg@);
        let mut ids: Vec<Vec<char>> = Vec::new();
        let mut i: usize = 0;
        while i < x.subgraphs.len()
            invariant
                i <= x.subgraphs@.len(),
                st == ps_v(*x),
                crate::text::seqs(ids@) =~= crate::state::keys_of(st.subgraphs).take(i as int),
            decreases x.subgraphs@.len() - i,
        {
            let ghost before = crate::text::seqs(ids@);
            ids.push(chars_of(x.subgraphs[i].id.as_str()));
            assert(crate::text::seqs(ids@) =~= before.push(x.subgraphs@[i as int].id@));
            assert(crate::state::keys_of(st.subgraphs)[i as int] == x.subgraphs@[i as int].id@);
            i = i + 1;
        }
        assert(crate::state::keys_of(st.subgraphs).take(x.subgraphs@.len() as int) =~= crate::state::keys_of(st.subgraphs));
        match crate::state::pos_in(&ids, sg.as_slice()) {
            Some(k) => {
                proof {
                    crate::state::lemma_key_pos_from(crate::text::seqs(ids@), sg@, 0);
                }
                let ghost members = st.subgraphs[k as int].1;
                assert(members == views(x.subgraphs@[k as int].nodes@));
                let m = member_index(&x.subgraphs[k].nodes, id);
                if m >= x.subgraphs[k].nodes.len() {
                    let mut g = Subgraph { id: string_from(x.subgraphs[k].id.as_str()), nodes: crate::text::clone_strings(&x.subgraphs[k].nodes) };
                    g.nodes.push(string_of(id));
                    assert(views(g.nodes@) =~= members.push(id@));
                    x.subgraphs.set(k, g);
                    assert(ps_v(*x).subgraphs =~= st.subgraphs.update(k as int, (st.subgraphs[k as int].0, members.push(id@))));
                    assert(ps_v(*x) =~= enter_subgraph(st, id@));
                } else {
                    assert(members[m as int] == id@);
                    assert(members.contains(id@));
                }
            },
            None => {},
        }
    }
}

fn member_index(v: &Vec<String>, id: &[char]) -> (m: usize)
    ensures
        m <= v@.len(),
        m < v@.len() ==> v@[m as int]@ == id@,
        m == v@.len() ==> !views(v@).contains(id@),
{
    let mut m: usize = 0;
    while m < v.len() && !eq_chars_str(id, v[m].as_str())
        invariant
            m <= v@.len(),
            forall|t: int| 0 <= t < m ==> v@[t]@ != id@,
        decreases v@.len() - m,
    {
        m = m + 1;
    }
    proof {
        if m == v@.len() && views(v@).contains(id@) {
            let t = choose|t: int| 0 <= t < views(v@).len() && views(v@)[t] == id@;
            assert(v@[t]@ == id@);
        }
    }
    m
}

fn ensure_node_exec(x: &mut PS, id: &[char], a: &AX)
    ensures
        ps_v(*final(x)) == ensure_node(ps_v(*old(x)), id@, ax_v(*a)),
        ps_wf(*old(x)) ==> ps_wf(*final(x)),
        final(x).pos == old(x).pos,
{
    let ghost st = ps_v(*x);
    let ghost av = ax_v(*a);
    let ghost f = |n: NodeD| n.0 == id@;
    let mut j: usize = 0;
    while j < x.nodes.len() && !eq_chars_str(id, x.nodes[j].id.as_str())
        invariant
            j <= x.nodes@.len(),
            st == ps_v(*x),
            f == (|n: NodeD| n.0 == id@),
            crate::text::first(st.nodes, f) == crate::text::first_from(st.nodes, f, j as int),
        decreases x.nodes@.len() - j,
    {
        assert(st.nodes[j as int] == node_d(x.nodes@[j as int]));
        j = j + 1;
    }
    proof {
        crate::text::lemma_first_from(st.nodes, f, j as int);
        if j < x.nodes@.len() {
            assert(st.nodes[j as int] == node_d(x.nodes@[j as int]));
        }
    }
    if j < x.nodes.len() {
        let old_n = crate::diagram::clone_node(&x.nodes[j]);
        let text = match &a.label {
            Some(t) => string_of(t.as_slice()),
            None => old_n.text,
        };
        let shape = match a.shape {
            Some(sh) => sh,
            None => old_n.shape,
        };
        let href = match &a.href {
            Some(h) => Some(string_of(h.as_slice())),
            None => old_n.href,
        };
        let n2 = Node { id: old_n.id, text, shape, href, tooltip: old_n.tooltip };
        let ghost nd = node_d(n2);
        x.nodes.set(j, n2);
        assert(ps_v(*x) =~= DS { nodes: st.nodes.update(j as int, nd), ..st });
        apply_style_exec(x, id, a);
    } else {
        let text = match &a.label {
            Some(t) => string_of(t.as_slice()),
            None => string_of(id),
        };
        let shape = match a.shape {
            Some(sh) => sh,
            None => NodeShape::Rect,
        };
        let n = Node { id: string_of(id), text, shape, href: opt_string_of(&a.href), tooltip: None };
        let ghost nd = node_d(n);
        x.nodes.push(n);
        assert(ps_v(*x) =~= DS { nodes: st.nodes.push(nd), ..st });
        apply_style_exec(x, id, a);
        enter_subgraph_exec(x, id);
    }
}

fn add_edge_exec(x: &mut PS, from: &[char], to: &[char], a: &AX)
    ensures
        ps_v(*final(x)) == add_edge(ps_v(*old(x)), from@, to@, ax_v(*a)),
        ps_wf(*old(x)) ==> ps_wf(*final(x)),
        final(x).pos == old(x).pos,
{
    let ghost st = ps_v(*x);
    let label = match &a.label {
        Some(l) => string_of(l.as_slice()),
        None => String::new(),
    };
    let style = match a.edge_style {
        Some(e) => e,
        None => EdgeStyle::Arrow,
    };
    let e = Edge { from: string_of(from), to: string_of(to), label, style };
    let ghost ed = (e.from@, e.to@, e.label@, e.style);
    x.edges.push(e);
    assert(ps_v(*x) =~= add_edge(st, from@, to@, ax_v(*a)));
}


// ---------------------------------------------------------------- statement code

fn edge_op_here_exec(s: &[char], x: &PS) -> (b: bool)
    requires
        x.pos <= s@.len(),
    ensures
        b == edge_op_here(s@, ps_v(*x)),
{
    let q = skip_exec(s, x.pos);
    let op = if x.directed { chars_of("->") } else { chars_of("--") };
    matches_at(s, op.as_slice(), q)
}

fn chain_exec(s: &[char], x0: PS, prev0: Vec<char>) -> (r: (PS, Result<(), String>))
    requires
        x0.pos <= s@.len(),
        ps_wf(x0),
    ensures
        match chain(s@, ps_v(x0), prev0@) {
            Ok(st) => r.1 is Ok && ps_v(r.0) == st && ps_wf(r.0) && r.0.pos <= s@.len(),
            Err(m) => r.1 matches Err(y) && y@ == m,
        },
{
    let ghost goal = chain(s@, ps_v(x0), prev0@);
    let mut x = x0;
    let mut prev = prev0;
    let n = s.len();
    loop
        invariant
            x.pos <= n,
            n == s@.len(),
            ps_wf(x),
            goal == chain(s@, ps_v(x0), prev0@),
            goal == chain(s@, ps_v(x), prev@),
        decreases n - x.pos,
    {
        if !edge_op_here_exec(s, &x) {
            return (x, Ok(()));
        }
        let q = skip_exec(s, x.pos);
        proof {
            reveal_strlit("->");
            reveal_strlit("--");
        }
        assert(q + 2 <= n);
        let p2 = skip_exec(s, q + 2);
        let (a, p3) = if p2 < n && s[p2] == '[' {
            match attr_list_exec(s, p2) {
                Ok(v) => v,
                Err(m) => return (x, Err(m)),
            }
        } else {
            (no_ax(), p2)
        };
        let (to, p4) = match ident_exec(s, p3) {
            Ok(v) => v,
            Err(m) => return (x, Err(m)),
        };
        let old_pos = x.pos;
        x.pos = p4;
        let none = no_ax();
        ensure_node_exec(&mut x, prev.as_slice(), &none);
        ensure_node_exec(&mut x, to.as_slice(), &none);
        add_edge_exec(&mut x, prev.as_slice(), to.as_slice(), &a);
        if !(old_pos < p4) {
            return (x, Ok(()));
        }
        prev = to;
    }
}

fn empty_ps() -> (x: PS)
    ensures
        x.pos == 0,
        ps_wf(x),
{
    PS {
        pos: 0,
        directed: true,
        rankdir: Vec::new(),
        nodes: Vec::new(),
        edges: Vec::new(),
        subgraphs: Vec::new(),
        stack: Vec::new(),
        styles: Vec::new(),
    }
}

fn override_last_exec(x: &mut PS, a: &AX)
    ensures
        ps_v(*final(x)) == override_last(ps_v(*old(x)), ax_v(*a)),
        ps_wf(*old(x)) ==> ps_wf(*final(x)),
        final(x).pos == old(x).pos,
{
    let ghost st = ps_v(*x);
    let ne = x.edges.len();
    if ne > 0 {
        let e = crate::diagram::clone_edge(&x.edges[ne - 1]);
        let label = match &a.label {
            Some(l) => string_of(l.as_slice()),
            None => e.label,
        };
        let style = match a.edge_style {
            Some(v) => v,
            None => e.style,
        };
        x.edges.set(ne - 1, Edge { from: e.from, to: e.to, label, style });
        assert(ps_v(*x) =~= override_last(st, ax_v(*a)));
    }
}

fn plain_stmt_exec(s: &[char], x: &mut PS, p1: usize) -> (r: Result<(), String>)
    requires
        p1 <= s@.len(),
        old(x).pos <= s@.len(),
        ps_wf(*old(x)),
    ensures
        match plain_stmt(s@, ps_v(*old(x)), p1 as int) {
            Ok(st) => r is Ok && ps_v(*final(x)) == st && ps_wf(*final(x)) && final(x).pos <= s@.len(),
            Err(m) => r matches Err(y) && y@ == m,
        },
{
    let n = s.len();
    let (k1, q1) = keyword_exec(s, p1, "node");
    let (k2, q2) = if k1 { (true, q1) } else { keyword_exec(s, q1, "edge") };
    let (k3, q3) = if k2 { (true, q2) } else { keyword_exec(s, q2, "graph") };
    if k3 {
        let q4 = skip_exec(s, q3);
        if q4 < n && s[q4] == '[' {
            match attr_list_exec(s, q4) {
                Ok((_, q5)) => {
                    x.pos = q5;
                    return Ok(());
                },
                Err(m) => return Err(m),
            }
        }
        x.pos = q4;
        return Ok(());
    }
    let (kr, r1) = keyword_exec(s, q3, "rankdir");
    if kr {
        let r2 = match expect_exec(s, r1, '=') {
            Ok(v) => v,
            Err(m) => return Err(m),
        };
        let (v, r3) = match ident_exec(s, r2) {
            Ok(v) => v,
            Err(m) => return Err(m),
        };
        let up = to_uppercase(string_of(v.as_slice()).as_str());
        let u = up.as_str();
        x.rankdir = if str_eq(u, "LR") {
            chars_of("LR")
        } else if str_eq(u, "BT") {
            chars_of("BT")
        } else if str_eq(u, "RL") {
            chars_of("RL")
        } else {
            chars_of("TD")
        };
        x.pos = r3;
        return Ok(());
    }
    let (first, f1) = match ident_exec(s, r1) {
        Ok(v) => v,
        Err(m) => return Err(m),
    };
    let f2 = skip_exec(s, f1);
    let mut had_attrs = false;
    if f2 < n && s[f2] == '[' {
        match attr_list_exec(s, f2) {
            Ok((a, f3)) => {
                ensure_node_exec(x, first.as_slice(), &a);
                x.pos = skip_exec(s, f3);
                had_attrs = true;
            },
            Err(m) => return Err(m),
        }
    } else {
        x.pos = f2;
    }
    if edge_op_here_exec(s, x) {
        let mut cur = empty_ps();
        std::mem::swap(&mut cur, x);
        let (after, res) = chain_exec(s, cur, first);
        *x = after;
        match res {
            Ok(()) => {},
            Err(m) => return Err(m),
        }
        let g1 = skip_exec(s, x.pos);
        if g1 < n && s[g1] == '[' {
            match attr_list_exec(s, g1) {
                Ok((a, g2)) => {
                    x.pos = g2;
                    override_last_exec(x, &a);
                    return Ok(());
                },
                Err(m) => return Err(m),
            }
        }
        x.pos = g1;
        return Ok(());
    }
    if had_attrs {
        return Ok(());
    }
    let none = no_ax();
    ensure_node_exec(x, first.as_slice(), &none);
    Ok(())
}

#[verifier::rlimit(50)]
fn stmt_exec(s: &[char], x: &mut PS) -> (r: Result<(), String>)
    requires
        old(x).pos <= s@.len(),
        ps_wf(*old(x)),
    ensures
        match stmt(s@, ps_v(*old(x))) {
            Ok(st) => r is Ok && ps_v(*final(x)) == st && ps_wf(*final(x)) && final(x).pos <= s@.len(),
            Err(m) => r matches Err(y) && y@ == m,
        },
    decreases s@.len() - old(x).pos, 0int,
{
    let n = s.len();
    let start = x.pos;
    let (is_sub, p1) = keyword_exec(s, x.pos, "subgraph");
    if !is_sub {
        return plain_stmt_exec(s, x, p1);
    }
    let (id, p2) = match ident_exec(s, p1) {
        Ok(v) => v,
        Err(m) => return Err(m),
    };
    let p4 = match expect_exec(s, skip_exec(s, p2), '{') {
        Ok(v) => v,
        Err(m) => return Err(m),
    };
    let ghost st = ps_v(*x);
    x.pos = p4;
    let idv = slice_to_vec(id.as_slice());
    proof {
        crate::text::lemma_seqs_push(x.stack@, idv);
    }
    x.stack.push(idv);
    let g = Subgraph { id: string_of(id.as_slice()), nodes: Vec::new() };
    assert(views(g.nodes@) =~= Seq::<Seq<char>>::empty());
    x.subgraphs.push(g);
    assert(ps_v(*x) =~= DS {
        pos: p4 as int,
        stack: st.stack.push(id@),
        subgraphs: st.subgraphs.push((id@, Seq::empty())),
        ..st
    });
    if !(start < p4) {
        return Ok(());
    }
    let mut cur = empty_ps();
    std::mem::swap(&mut cur, x);
    let (after, res) = stmts_exec(s, cur);
    *x = after;
    match res {
        Ok(()) => {},
        Err(m) => return Err(m),
    }
    let p5 = match expect_exec(s, x.pos, '}') {
        Ok(v) => v,
        Err(m) => return Err(m),
    };
    let ghost st2 = ps_v(*x);
    x.pos = p5;
    let ghost sk = x.stack@;
    if x.stack.len() > 0 {
        x.stack.pop();
        assert(crate::text::seqs(x.stack@) =~= crate::text::seqs(sk).drop_last());
    }
    assert(ps_v(*x) =~= DS { pos: p5 as int, stack: drop_top(st2.stack), ..st2 });
    Ok(())
}

fn stmts_exec(s: &[char], x0: PS) -> (r: (PS, Result<(), String>))
    requires
        x0.pos <= s@.len(),
        ps_wf(x0),
    ensures
        match stmts(s@, ps_v(x0)) {
            Ok(st) => r.1 is Ok && ps_v(r.0) == st && ps_wf(r.0) && r.0.pos <= s@.len(),
            Err(m) => r.1 matches Err(y) && y@ == m,
        },
    decreases s@.len() - x0.pos, 1int,
{
    let ghost goal = stmts(s@, ps_v(x0));
    let n = s.len();
    let start = x0.pos;
    let mut x = x0;
    loop
        invariant
            start <= x.pos <= n,
            n == s@.len(),
            start == x0.pos,
            x0.pos <= s@.len(),
            ps_wf(x),
            goal == stmts(s@, ps_v(x0)),
            goal == stmts(s@, ps_v(x)),
        decreases n - x.pos,
    {
        let pos0 = x.pos;
        if (pos0 < n && s[pos0] == '}') || pos0 >= n {
            return (x, Ok(()));
        }
        let p = skip_exec(s, pos0);
        if p < n && s[p] == '}' {
            x.pos = p;
            return (x, Ok(()));
        }
        x.pos = p;
        match stmt_exec(s, &mut x) {
            Ok(()) => {},
            Err(m) => return (x, Err(m)),
        }
        let p4 = skip_exec(s, try_char_exec(s, skip_exec(s, x.pos), ';'));
        x.pos = p4;
        if !(pos0 < p4) {
            return (x, Ok(()));
        }
    }
}

/// Read DOT text (a `digraph` or `graph` subset) into a flowchart.
pub fn parse(source: &str) -> (r: Result<Diagram, IrError>)
    ensures
        match dot_parse(source@) {
            Ok(st) => r matches Ok(d) && dot_diagram(d, st),
            Err(m) => r matches Err(e) && e.message@ == m,
        },
{
    let cs = chars_of(source);
    let s = cs.as_slice();
    let n = s.len();
    let p0 = skip_exec(s, 0);
    let (strict, p1) = keyword_exec(s, p0, "strict");
    let p2 = if strict { skip_exec(s, p1) } else { p1 };
    let (dg, p3) = keyword_exec(s, p2, "digraph");
    let (g, p3b) = keyword_exec(s, p3, "graph");
    if !dg && !g {
        return Err(IrError::new("DOT: expected digraph or graph"));
    }
    let p4 = if dg { p3 } else { p3b };
    let p5 = skip_exec(s, p4);
    let p6 = if p5 < n && s[p5] == '{' {
        p5
    } else {
        match ident_exec(s, p5) {
            Ok((_, e)) => e,
            Err(_) => ident_stop_exec(s, p5),
        }
    };
    let p7 = match expect_exec(s, skip_exec(s, p6), '{') {
        Ok(v) => v,
        Err(m) => return Err(IrError { message: m }),
    };
    let x = PS {
        pos: p7,
        directed: dg,
        rankdir: chars_of("TD"),
        nodes: Vec::new(),
        edges: Vec::new(),
        subgraphs: Vec::new(),
        stack: Vec::new(),
        styles: Vec::new(),
    };
    assert(ps_v(x) =~= DS {
        pos: p7 as int,
        directed: dg,
        rankdir: "TD"@,
        nodes: Seq::empty(),
        edges: Seq::empty(),
        subgraphs: Seq::empty(),
        stack: Seq::empty(),
        styles: Seq::empty(),
    });
    let (x, res) = stmts_exec(s, x);
    match res {
        Ok(()) => {},
        Err(m) => return Err(IrError { message: m }),
    }
    match expect_exec(s, x.pos, '}') {
        Ok(_) => {},
        Err(m) => return Err(IrError { message: m }),
    }
    let ghost st = ps_v(x);
    let PS { pos, directed, rankdir, nodes, edges, subgraphs: sgs, stack, styles } = x;
    let d = Diagram {
        rankdir: string_of(rankdir.as_slice()),
        nodes,
        edges,
        subgraphs: sgs,
        styles,
        class_defs: Vec::new(),
        class_applies: Vec::new(),
        link_styles: Vec::new(),
    };
    proof {
        assert forall|i: int| 0 <= i < st.nodes.len() implies {
            let n = #[trigger] d.nodes@[i];
            (n.id@, n.text@, n.shape, crate::gantt::opt_v(n.href)) == st.nodes[i] && n.tooltip is None
        } by {
            assert(st.nodes[i] == node_d(d.nodes@[i]));
        }
        assert forall|i: int| 0 <= i < st.edges.len() implies {
            let e = #[trigger] d.edges@[i];
            (e.from@, e.to@, e.label@, e.style) == st.edges[i]
        } by {
        }
        assert forall|i: int| 0 <= i < st.subgraphs.len() implies {
            let g = #[trigger] d.subgraphs@[i];
            (g.id@, views(g.nodes@)) == st.subgraphs[i]
        } by {
        }
        assert forall|i: int| 0 <= i < st.styles.len() implies {
            let y = #[trigger] d.styles@[i];
            (y.node_id@, y.properties@) == st.styles[i]
        } by {
        }
    }
    Ok(d)
}

/// Read DOT text into a one-diagram document.
pub fn parse_to_document(source: &str) -> (r: Result<Document, IrError>)
    ensures
        match dot_parse(source@) {
            Ok(st) => r matches Ok(doc) && doc.version == crate::ir::CURRENT_VERSION && doc.diagrams@.len() == 1
                && (doc.diagrams@[0] matches crate::ir::Diagram::Flowchart(d) && dot_diagram(d, st)),
            Err(m) => r matches Err(e) && e.message@ == m,
        },
{
    match parse(source) {
        Ok(d) => Ok(Document::single(crate::ir::Diagram::Flowchart(d))),
        Err(e) => Err(e),
    }
}


// ---------------------------------------------------------------- detection

/// What precedes the first whitespace, `{`, `[` or `;`.
pub open spec fn graph_head(s: Seq<char>) -> Seq<char> {
    match crate::text::first(s, |c: char| is_ws(c) || c == '{' || c == '[' || c == ';') {
        Some(i) => s.subrange(0, i),
        None => s,
    }
}

/// Whether text reads as Graphviz DOT rather than a Mermaid `graph TD` header.
pub open spec fn dot_like(src: Seq<char>) -> bool {
    let t = crate::text::trim_start(src);
    if "digraph"@.is_prefix_of(t) || "strict digraph"@.is_prefix_of(t) {
        true
    } else {
        let gl = if "strict graph "@.is_prefix_of(t) {
            Some(t.subrange(13, t.len() as int))
        } else if "graph "@.is_prefix_of(t) {
            Some(t.subrange(6, t.len() as int))
        } else {
            None
        };
        match gl {
            None => false,
            Some(g) => {
                let h = uppercase(graph_head(g));
                if h == "TD"@ || h == "LR"@ || h == "BT"@ || h == "RL"@ || h == "TB"@ {
                    false
                } else {
                    g.contains('{')
                }
            },
        }
    }
}

/// Whether source looks like Graphviz DOT (not Mermaid `graph TD`).
pub fn is_dot(source: &str) -> (b: bool)
    ensures
        b == dot_like(source@),
{
    let cs = chars_of(source);
    let k = crate::text::trim_start_index(cs.as_slice());
    let t = &cs.as_slice()[k..cs.len()];
    if crate::text::starts_with(t, chars_of("digraph").as_slice()) || crate::text::starts_with(t, chars_of("strict digraph").as_slice()) {
        return true;
    }
    proof {
        reveal_strlit("strict graph ");
        reveal_strlit("graph ");
    }
    let n = t.len();
    let g: &[char] = if crate::text::starts_with(t, chars_of("strict graph ").as_slice()) {
        &t[13..n]
    } else if crate::text::starts_with(t, chars_of("graph ").as_slice()) {
        &t[6..n]
    } else {
        return false;
    };
    let ghost f = |c: char| is_ws(c) || c == '{' || c == '[' || c == ';';
    let mut i: usize = 0;
    while i < g.len() && !(is_whitespace(g[i]) || g[i] == '{' || g[i] == '[' || g[i] == ';')
        invariant
            i <= g@.len(),
            f == (|c: char| is_ws(c) || c == '{' || c == '[' || c == ';'),
            crate::text::first(g@, f) == crate::text::first_from(g@, f, i as int),
        decreases g@.len() - i,
    {
        i = i + 1;
    }
    proof {
        crate::text::lemma_first_from(g@, f, i as int);
    }
    assert(g@.subrange(0, g@.len() as int) =~= g@);
    let head = string_of(&g[0..i]);
    let up = to_uppercase(head.as_str());
    let h = up.as_str();
    if str_eq(h, "TD") || str_eq(h, "LR") || str_eq(h, "BT") || str_eq(h, "RL") || str_eq(h, "TB") {
        return false;
    }
    contains_char(g, '{')
}

// ---------------------------------------------------------------- writing

pub open spec fn dot_quote(s: Seq<char>) -> Seq<char> {
    "\""@ + crate::class::escape_note(s) + "\""@
}

pub open spec fn rankdir_out(v: Seq<char>) -> Seq<char> {
    let u = uppercase(v);
    if u == "LR"@ {
        "LR"@
    } else if u == "BT"@ {
        "BT"@
    } else if u == "RL"@ {
        "RL"@
    } else {
        "TB"@
    }
}

pub open spec fn shape_out(s: NodeShape) -> Option<Seq<char>> {
    match s {
        NodeShape::Rect => None,
        NodeShape::Diamond => Some("diamond"@),
        NodeShape::Stadium => Some("ellipse"@),
        NodeShape::Hexagon => Some("hexagon"@),
        NodeShape::Cylinder => Some("cylinder"@),
        NodeShape::Circle => Some("circle"@),
    }
}

/// The value given to `key` in `k:v, ...` style text (the last one wins).
pub open spec fn style_prop(parts: Seq<Seq<char>>, key: Seq<char>) -> Option<Seq<char>>
    decreases parts.len(),
{
    if parts.len() == 0 {
        None
    } else {
        match crate::text::split_once(crate::text::trim(parts.last()), ":"@) {
            Some((k, v)) => if crate::text::trim(k) == key {
                Some(crate::text::trim(v))
            } else {
                style_prop(parts.drop_last(), key)
            },
            None => style_prop(parts.drop_last(), key),
        }
    }
}

/// The style text of the first style entry for a node, from index `i`.
pub open spec fn style_from(styles: Seq<NodeStyle>, id: Seq<char>, i: int) -> Option<Seq<char>>
    decreases styles.len() - i,
{
    if i < 0 || i >= styles.len() {
        None
    } else if styles[i].node_id@ == id {
        Some(styles[i].properties@)
    } else {
        style_from(styles, id, i + 1)
    }
}

pub open spec fn style_of(styles: Seq<NodeStyle>, id: Seq<char>) -> Option<Seq<char>> {
    style_from(styles, id, 0)
}

pub open spec fn opt_item(o: Option<Seq<char>>, prefix: Seq<char>) -> Seq<Seq<char>> {
    match o {
        Some(v) => seq![prefix + dot_quote(v)],
        None => Seq::empty(),
    }
}

pub open spec fn node_parts(n: Node, styles: Seq<NodeStyle>) -> Seq<Seq<char>> {
    (if n.text@ != n.id@ { seq!["label="@ + dot_quote(n.text@)] } else { Seq::empty() })
        + (match shape_out(n.shape) {
        Some(sh) => seq!["shape="@ + sh],
        None => Seq::empty(),
    }) + (match n.href {
        Some(h) => seq!["URL="@ + dot_quote(h@)],
        None => Seq::empty(),
    }) + (match style_of(styles, n.id@) {
        Some(props) => {
            let ps = crate::text::split_char(props, ',');
            (match style_prop(ps, "fill"@) {
                Some(f) => seq!["fillcolor="@ + dot_quote(f), "style=filled"@],
                None => Seq::empty(),
            }) + opt_item(style_prop(ps, "stroke"@), "color="@) + opt_item(style_prop(ps, "color"@), "fontcolor="@)
        },
        None => Seq::empty(),
    })
}

pub open spec fn edge_parts(e: Edge) -> Seq<Seq<char>> {
    (if e.label@.len() > 0 { seq!["label="@ + dot_quote(e.label@)] } else { Seq::empty() }) + match e.style {
        EdgeStyle::Arrow => Seq::empty(),
        EdgeStyle::Dashed => seq!["style=dashed"@],
        EdgeStyle::Thick => seq!["style=bold"@],
    }
}

pub open spec fn with_attrs(head: Seq<char>, parts: Seq<Seq<char>>) -> Seq<char> {
    if parts.len() == 0 {
        head + ";\n"@
    } else {
        head + " ["@ + join(parts, ", "@) + "];\n"@
    }
}

pub open spec fn node_line(n: Node, styles: Seq<NodeStyle>) -> Seq<char> {
    with_attrs("    "@ + crate::diagram::fmt_id(n.id@), node_parts(n, styles))
}

pub open spec fn sub_block(g: Subgraph) -> Seq<char> {
    "    subgraph "@ + crate::diagram::fmt_id(g.id@) + " {\n"@ + flat(
        crate::text::views(g.nodes@),
        |id: Seq<char>| "        "@ + crate::diagram::fmt_id(id) + ";\n"@,
    ) + "    }\n"@
}

pub open spec fn edge_line(e: Edge) -> Seq<char> {
    with_attrs("    "@ + crate::diagram::fmt_id(e.from@) + " -> "@ + crate::diagram::fmt_id(e.to@), edge_parts(e))
}

/// DOT text of a flowchart under a graph name.
pub open spec fn flowchart_dot(d: Diagram, name: Seq<char>) -> Seq<char> {
    let rd = rankdir_out(d.rankdir@);
    "digraph "@ + name + " {\n"@ + (if rd != "TB"@ { "    rankdir="@ + rd + ";\n"@ } else { Seq::empty() })
        + flat(d.nodes@, |n: Node| node_line(n, d.styles@)) + flat(d.subgraphs@, |g: Subgraph| sub_block(g))
        + flat(d.edges@, |e: Edge| edge_line(e)) + "}\n"@
}

/// The DOT blocks of the flowcharts among the first diagrams.
pub open spec fn dot_blocks(ds: Seq<crate::ir::Diagram>, multi: bool) -> Seq<Seq<char>>
    decreases ds.len(),
{
    if ds.len() == 0 {
        Seq::empty()
    } else {
        let prev = dot_blocks(ds.drop_last(), multi);
        let i = ds.len() - 1;
        match ds.last() {
            crate::ir::Diagram::Flowchart(fc) => prev.push(
                if multi {
                    "// diagram "@ + decimal(i as nat) + ": flowchart\n"@ + flowchart_dot(fc, "diagram_"@ + decimal(i as nat))
                } else {
                    flowchart_dot(fc, "G"@)
                },
            ),
            _ => prev,
        }
    }
}

/// DOT text of a document (its flowcharts).
pub open spec fn dot_text(ds: Seq<crate::ir::Diagram>) -> Result<Seq<char>, Seq<char>> {
    let blocks = dot_blocks(ds, ds.len() > 1);
    if blocks.len() == 0 {
        Err("DOT export supports flowchart diagrams only"@)
    } else {
        Ok(join(blocks, "\n\n"@))
    }
}

fn dot_quote_exec(s: &str) -> (r: String)
    ensures
        r@ == dot_quote(s@),
{
    let mut out = string_from("\"");
    out.append(crate::class::escape_note_exec(s).as_str());
    out.append("\"");
    out
}

fn rankdir_out_exec(v: &str) -> (r: &'static str)
    ensures
        r@ == rankdir_out(v@),
{
    let up = to_uppercase(v);
    let u = up.as_str();
    if str_eq(u, "LR") {
        "LR"
    } else if str_eq(u, "BT") {
        "BT"
    } else if str_eq(u, "RL") {
        "RL"
    } else {
        "TB"
    }
}

fn shape_out_exec(s: NodeShape) -> (r: Option<&'static str>)
    ensures
        match shape_out(s) {
            Some(t) => r matches Some(x) && x@ == t,
            None => r is None,
        },
{
    match s {
        NodeShape::Rect => None,
        NodeShape::Diamond => Some("diamond"),
        NodeShape::Stadium => Some("ellipse"),
        NodeShape::Hexagon => Some("hexagon"),
        NodeShape::Cylinder => Some("cylinder"),
        NodeShape::Circle => Some("circle"),
    }
}

fn style_prop_exec(parts: &Vec<Vec<char>>, key: &str) -> (r: Option<Vec<char>>)
    ensures
        match style_prop(crate::text::seqs(parts@), key@) {
            Some(v) => r matches Some(x) && x@ == v,
            None => r is None,
        },
{
    let ghost ps = crate::text::seqs(parts@);
    let mut j = parts.len();
    assert(ps.take(j as int) =~= ps);
    while j > 0
        invariant
            j <= parts@.len(),
            ps == crate::text::seqs(parts@),
            style_prop(ps, key@) == style_prop(ps.take(j as int), key@),
        decreases j,
    {
        let ghost t = ps.take(j as int);
        assert(t.last() == parts@[j - 1]@);
        assert(t.drop_last() =~= ps.take(j - 1));
        let piece = crate::text::trim_slice(parts[j - 1].as_slice());
        match split_once_exec_dot(piece) {
            Some((k, v)) => {
                if eq_chars_str(crate::text::trim_slice(k.as_slice()), key) {
                    return Some(slice_to_vec(crate::text::trim_slice(v.as_slice())));
                }
            },
            None => {},
        }
        j = j - 1;
    }
    None
}

fn split_once_exec_dot(s: &[char]) -> (r: Option<(Vec<char>, Vec<char>)>)
    ensures
        match crate::text::split_once(s@, ":"@) {
            Some((a, b)) => r matches Some((x, y)) && x@ == a && y@ == b,
            None => r is None,
        },
{
    crate::text::split_once_exec(s, ":")
}

fn style_of_exec(styles: &Vec<NodeStyle>, id: &str) -> (r: Option<Vec<char>>)
    ensures
        match style_of(styles@, id@) {
            Some(v) => r matches Some(x) && x@ == v,
            None => r is None,
        },
{
    let mut i: usize = 0;
    while i < styles.len()
        invariant
            i <= styles@.len(),
            style_of(styles@, id@) == style_from(styles@, id@, i as int),
        decreases styles@.len() - i,
    {
        if str_eq(styles[i].node_id.as_str(), id) {
            return Some(chars_of(styles[i].properties.as_str()));
        }
        i = i + 1;
    }
    None
}

fn node_parts_exec(n: &Node, styles: &Vec<NodeStyle>) -> (r: Vec<String>)
    ensures
        views(r@) == node_parts(*n, styles@),
{
    let mut parts: Vec<String> = Vec::new();
    if !str_eq(n.text.as_str(), n.id.as_str()) {
        let mut t = string_from("label=");
        t.append(dot_quote_exec(n.text.as_str()).as_str());
        parts.push(t);
    }
    let ghost a = views(parts@);
    match shape_out_exec(n.shape) {
        Some(sh) => {
            let mut t = string_from("shape=");
            t.append(sh);
            parts.push(t);
        },
        None => {},
    }
    let ghost b = views(parts@);
    match &n.href {
        Some(h) => {
            let mut t = string_from("URL=");
            t.append(dot_quote_exec(h.as_str()).as_str());
            parts.push(t);
        },
        None => {},
    }
    let ghost c = views(parts@);
    match style_of_exec(styles, n.id.as_str()) {
        Some(props) => {
            let ps = crate::text::split_char_slice(props.as_slice(), ',');
            match style_prop_exec(&ps, "fill") {
                Some(f) => {
                    let mut t = string_from("fillcolor=");
                    t.append(dot_quote_exec(string_of(f.as_slice()).as_str()).as_str());
                    parts.push(t);
                    parts.push(string_from("style=filled"));
                },
                None => {},
            }
            match style_prop_exec(&ps, "stroke") {
                Some(f) => {
                    let mut t = string_from("color=");
                    t.append(dot_quote_exec(string_of(f.as_slice()).as_str()).as_str());
                    parts.push(t);
                },
                None => {},
            }
            match style_prop_exec(&ps, "color") {
                Some(f) => {
                    let mut t = string_from("fontcolor=");
                    t.append(dot_quote_exec(string_of(f.as_slice()).as_str()).as_str());
                    parts.push(t);
                },
                None => {},
            }
        },
        None => {},
    }
    assert(views(parts@) =~= node_parts(*n, styles@));
    parts
}

fn edge_parts_exec(e: &Edge) -> (r: Vec<String>)
    ensures
        views(r@) == edge_parts(*e),
{
    let mut parts: Vec<String> = Vec::new();
    proof {
        reveal_strlit("");
    }
    if !str_eq(e.label.as_str(), "") {
        assert(e.label@.len() > 0) by {
            if e.label@.len() == 0 {
                assert(e.label@ =~= ""@);
            }
        }
        let mut t = string_from("label=");
        t.append(dot_quote_exec(e.label.as_str()).as_str());
        parts.push(t);
    }
    match e.style {
        EdgeStyle::Arrow => {},
        EdgeStyle::Dashed => parts.push(string_from("style=dashed")),
        EdgeStyle::Thick => parts.push(string_from("style=bold")),
    }
    assert(views(parts@) =~= edge_parts(*e));
    parts
}

fn with_attrs_exec(out: &mut String, parts: &Vec<String>)
    ensures
        final(out)@ == with_attrs(old(out)@, views(parts@)),
{
    if parts.len() == 0 {
        out.append(";\n");
    } else {
        out.append(" [");
        out.append(join_strings(parts, ", ").as_str());
        out.append("];\n");
    }
}

fn flowchart_dot_exec(d: &Diagram, name: &str) -> (r: String)
    ensures
        r@ == flowchart_dot(*d, name@),
{
    let mut out = string_from("digraph ");
    out.append(name);
    out.append(" {\n");
    let rd = rankdir_out_exec(d.rankdir.as_str());
    if !str_eq(rd, "TB") {
        out.append("    rankdir=");
        out.append(rd);
        out.append(";\n");
    }
    let ghost base = out@;
    let ghost fnode = |n: Node| node_line(n, d.styles@);
    let mut i: usize = 0;
    while i < d.nodes.len()
        invariant
            i <= d.nodes@.len(),
            fnode == (|n: Node| node_line(n, d.styles@)),
            out@ == base + flat(d.nodes@.take(i as int), fnode),
        decreases d.nodes@.len() - i,
    {
        proof {
            lemma_flat_step(d.nodes@, fnode, i as int);
        }
        let n = &d.nodes[i];
        let mut line = string_from("    ");
        line.append(crate::diagram::format_id(n.id.as_str()).as_str());
        with_attrs_exec(&mut line, &node_parts_exec(n, &d.styles));
        out.append(line.as_str());
        i = i + 1;
    }
    proof {
        lemma_flat_all(d.nodes@, fnode);
    }
    let ghost base = out@;
    let ghost fsub = |g: Subgraph| sub_block(g);
    let mut i: usize = 0;
    while i < d.subgraphs.len()
        invariant
            i <= d.subgraphs@.len(),
            fsub == (|g: Subgraph| sub_block(g)),
            out@ == base + flat(d.subgraphs@.take(i as int), fsub),
        decreases d.subgraphs@.len() - i,
    {
        proof {
            lemma_flat_step(d.subgraphs@, fsub, i as int);
        }
        out.append(sub_block_exec(&d.subgraphs[i]).as_str());
        i = i + 1;
    }
    proof {
        lemma_flat_all(d.subgraphs@, fsub);
    }
    let ghost base = out@;
    let ghost fedge = |e: Edge| edge_line(e);
    let mut i: usize = 0;
    while i < d.edges.len()
        invariant
            i <= d.edges@.len(),
            fedge == (|e: Edge| edge_line(e)),
            out@ == base + flat(d.edges@.take(i as int), fedge),
        decreases d.edges@.len() - i,
    {
        proof {
            lemma_flat_step(d.edges@, fedge, i as int);
        }
        let e = &d.edges[i];
        let mut line = string_from("    ");
        line.append(crate::diagram::format_id(e.from.as_str()).as_str());
        line.append(" -> ");
        line.append(crate::diagram::format_id(e.to.as_str()).as_str());
        with_attrs_exec(&mut line, &edge_parts_exec(e));
        out.append(line.as_str());
        i = i + 1;
    }
    proof {
        lemma_flat_all(d.edges@, fedge);
    }
    out.append("}\n");
    out
}

fn sub_block_exec(g: &Subgraph) -> (r: String)
    ensures
        r@ == sub_block(*g),
{
    let mut out = string_from("    subgraph ");
    out.append(crate::diagram::format_id(g.id.as_str()).as_str());
    out.append(" {\n");
    let ghost ids = views(g.nodes@);
    let ghost f = |id: Seq<char>| "        "@ + crate::diagram::fmt_id(id) + ";\n"@;
    let ghost base = out@;
    let mut i: usize = 0;
    while i < g.nodes.len()
        invariant
            i <= g.nodes@.len(),
            ids == views(g.nodes@),
            f == (|id: Seq<char>| "        "@ + crate::diagram::fmt_id(id) + ";\n"@),
            out@ == base + flat(ids.take(i as int), f),
        decreases g.nodes@.len() - i,
    {
        proof {
            lemma_flat_step(ids, f, i as int);
        }
        out.append("        ");
        out.append(crate::diagram::format_id(g.nodes[i].as_str()).as_str());
        out.append(";\n");
        i = i + 1;
    }
    proof {
        lemma_flat_all(ids, f);
    }
    out.append("    }\n");
    out
}

/// DOT text of a document's flowcharts.
pub fn export_document(doc: &Document) -> (r: Result<String, IrError>)
    ensures
        match dot_text(doc.diagrams@) {
            Ok(t) => r matches Ok(s) && s@ == t,
            Err(m) => r matches Err(e) && e.message@ == m,
        },
{
    let multi = doc.diagrams.len() > 1;
    let ghost ds = doc.diagrams@;
    let mut blocks: Vec<String> = Vec::new();
    let mut i: usize = 0;
    while i < doc.diagrams.len()
        invariant
            i <= ds.len(),
            ds == doc.diagrams@,
            multi == (ds.len() > 1),
            views(blocks@) == dot_blocks(ds.take(i as int), multi),
        decreases ds.len() - i,
    {
        let ghost t = ds.take(i + 1);
        assert(t.drop_last() =~= ds.take(i as int));
        assert(t.last() == ds[i as int]);
        match &doc.diagrams[i] {
            crate::ir::Diagram::Flowchart(fc) => {
                let ghost before = views(blocks@);
                let b = if multi {
                    let mut b = string_from("// diagram ");
                    crate::text::push_decimal(&mut b, i);
                    b.append(": flowchart\n");
                    let mut name = string_from("diagram_");
                    crate::text::push_decimal(&mut name, i);
                    b.append(flowchart_dot_exec(fc, name.as_str()).as_str());
                    b
                } else {
                    flowchart_dot_exec(fc, "G")
                };
                blocks.push(b);
                assert(views(blocks@) =~= before.push(b@));
            },
            _ => {},
        }
        i = i + 1;
    }
    assert(ds.take(ds.len() as int) =~= ds);
    if blocks.len() == 0 {
        return Err(IrError::new("DOT export supports flowchart diagrams only"));
    }
    Ok(join_strings(&blocks, "\n\n"))
}

/// Every node shape survives DOT export and import: a rectangle is written
/// with no `shape` attribute, every other shape with a DOT shape name that
/// the reader maps back to that same shape (the standard lower-casing leaving
/// a lower-case word unchanged), and where that name is also a Mermaid shape
/// keyword it names the same shape there.
pub proof fn law_dot_shape_reads_back(s: NodeShape)
    ensures
        shape_out(s) is None <==> s == NodeShape::Rect,
        crate::text::lowercase_keeps_lower() ==> match shape_out(s) {
            Some(w) => map_shape(w) == Some(s),
            None => true,
        },
        s != NodeShape::Rect && s != NodeShape::Stadium ==> (shape_out(s) matches Some(w)
            && crate::diagram::shape_keyword(w) == Some(s)),
{
    reveal_strlit("box");
    reveal_strlit("rect");
    reveal_strlit("rectangle");
    reveal_strlit("square");
    reveal_strlit("diamond");
    reveal_strlit("ellipse");
    reveal_strlit("oval");
    reveal_strlit("hexagon");
    reveal_strlit("cylinder");
    reveal_strlit("circle");
    reveal_strlit("stadium");
    match s {
        NodeShape::Rect => {},
        NodeShape::Diamond => {
            assert("diamond"@ != "box"@) by { assert("diamond"@.len() != "box"@.len()); }
            assert("diamond"@ != "circle"@) by { assert("diamond"@.len() != "circle"@.len()); }
            assert("diamond"@ != "cylinder"@) by { assert("diamond"@.len() != "cylinder"@.len()); }
            assert("diamond"@ != "ellipse"@) by { assert("diamond"@[0] != "ellipse"@[0]); }
            assert("diamond"@ != "hexagon"@) by { assert("diamond"@[0] != "hexagon"@[0]); }
            assert("diamond"@ != "oval"@) by { assert("diamond"@.len() != "oval"@.len()); }
            assert("diamond"@ != "rect"@) by { assert("diamond"@.len() != "rect"@.len()); }
            assert("diamond"@ != "rectangle"@) by { assert("diamond"@.len() != "rectangle"@.len()); }
            assert("diamond"@ != "square"@) by { assert("diamond"@.len() != "square"@.len()); }
            assert("diamond"@ != "stadium"@) by { assert("diamond"@[0] != "stadium"@[0]); }
            assert(crate::text::lower_word("diamond"@));
            if crate::text::lowercase_keeps_lower() {
                assert(lowercase("diamond"@) == "diamond"@);
            }
        },
        NodeShape::Stadium => {
            assert("ellipse"@ != "box"@) by { assert("ellipse"@.len() != "box"@.len()); }
            assert("ellipse"@ != "circle"@) by { assert("ellipse"@.len() != "circle"@.len()); }
            assert("ellipse"@ != "cylinder"@) by { assert("ellipse"@.len() != "cylinder"@.len()); }
            assert("ellipse"@ != "diamond"@) by { assert("ellipse"@[0] != "diamond"@[0]); }
            assert("ellipse"@ != "hexagon"@) by { assert("ellipse"@[0] != "hexagon"@[0]); }
            assert("ellipse"@ != "oval"@) by { assert("ellipse"@.len() != "oval"@.len()); }
            assert("ellipse"@ != "rect"@) by { assert("ellipse"@.len() != "rect"@.len()); }
            assert("ellipse"@ != "rectangle"@) by { assert("ellipse"@.len() != "rectangle"@.len()); }
            assert("ellipse"@ != "square"@) by { assert("ellipse"@.len() != "square"@.len()); }
            assert("ellipse"@ != "stadium"@) by { assert("ellipse"@[0] != "stadium"@[0]); }
            assert(crate::text::lower_word("ellipse"@));
            if crate::text::lowercase_keeps_lower() {
                assert(lowercase("ellipse"@) == "ellipse"@);
            }
        },
        NodeShape::Hexagon => {
            assert("hexagon"@ != "box"@) by { assert("hexagon"@.len() != "box"@.len()); }
            assert("hexagon"@ != "circle"@) by { assert("hexagon"@.len() != "circle"@.len()); }
            assert("hexagon"@ != "cylinder"@) by { assert("hexagon"@.len() != "cylinder"@.len()); }
            assert("hexagon"@ != "diamond"@) by { assert("hexagon"@[0] != "diamond"@[0]); }
            assert("hexagon"@ != "ellipse"@) by { assert("hexagon"@[0] != "ellipse"@[0]); }
            assert("hexagon"@ != "oval"@) by { assert("hexagon"@.len() != "oval"@.len()); }
            assert("hexagon"@ != "rect"@) by { assert("hexagon"@.len() != "rect"@.len()); }
            assert("hexagon"@ != "rectangle"@) by { assert("hexagon"@.len() != "rectangle"@.len()); }
            assert("hexagon"@ != "square"@) by { assert("hexagon"@.len() != "square"@.len()); }
            assert("hexagon"@ != "stadium"@) by { assert("hexagon"@[0] != "stadium"@[0]); }
            assert(crate::text::lower_word("hexagon"@));
            if crate::text::lowercase_keeps_lower() {
                assert(lowercase("hexagon"@) == "hexagon"@);
            }
        },
        NodeShape::Cylinder => {
            assert("cylinder"@ != "box"@) by { assert("cylinder"@.len() != "box"@.len()); }
            assert("cylinder"@ != "circle"@) by { assert("cylinder"@.len() != "circle"@.len()); }
            assert("cylinder"@ != "diamond"@) by { assert("cylinder"@.len() != "diamond"@.len()); }
            assert("cylinder"@ != "ellipse"@) by { assert("cylinder"@.len() != "ellipse"@.len()); }
            assert("cylinder"@ != "hexagon"@) by { assert("cylinder"@.len() != "hexagon"@.len()); }
            assert("cylinder"@ != "oval"@) by { assert("cylinder"@.len() != "oval"@.len()); }
            assert("cylinder"@ != "rect"@) by { assert("cylinder"@.len() != "rect"@.len()); }
            assert("cylinder"@ != "rectangle"@) by { assert("cylinder"@.len() != "rectangle"@.len()); }
            assert("cylinder"@ != "square"@) by { assert("cylinder"@.len() != "square"@.len()); }
            assert("cylinder"@ != "stadium"@) by { assert("cylinder"@.len() != "stadium"@.len()); }
            assert(crate::text::lower_word("cylinder"@));
            if crate::text::lowercase_keeps_lower() {
                assert(lowercase("cylinder"@) == "cylinder"@);
            }
        },
        NodeShape::Circle => {
            assert("circle"@ != "box"@) by { assert("circle"@.len() != "box"@.len()); }
            assert("circle"@ != "cylinder"@) by { assert("circle"@.len() != "cylinder"@.len()); }
            assert("circle"@ != "diamond"@) by { assert("circle"@.len() != "diamond"@.len()); }
            assert("circle"@ != "ellipse"@) by { assert("circle"@.len() != "ellipse"@.len()); }
            assert("circle"@ != "hexagon"@) by { assert("circle"@.len() != "hexagon"@.len()); }
            assert("circle"@ != "oval"@) by { assert("circle"@.len() != "oval"@.len()); }
            assert("circle"@ != "rect"@) by { assert("circle"@.len() != "rect"@.len()); }
            assert("circle"@ != "rectangle"@) by { assert("circle"@.len() != "rectangle"@.len()); }
            assert("circle"@ != "square"@) by { assert("circle"@[0] != "square"@[0]); }
            assert("circle"@ != "stadium"@) by { assert("circle"@.len() != "stadium"@.len()); }
            assert(crate::text::lower_word("circle"@));
            if crate::text::lowercase_keeps_lower() {
                assert(lowercase("circle"@) == "circle"@);
            }
        },
    }
}

} // verus!
