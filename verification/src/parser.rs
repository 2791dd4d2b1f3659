//! Mermaid flowchart parser.
//!
//! The grammar is stated as spec functions over characters; `parse` is
//! proved to compute exactly `flow_parse`.

use vstd::prelude::*;
use crate::diagram::{
    ClassApply, ClassDef, Diagram, Edge, EdgeStyle, LinkStyle, Node, NodeShape, NodeStyle, Subgraph,
};
use crate::text::{
    chars_of, content_lines, is_alphanumeric, alphanumeric, is_whitespace, is_ws, keep_flow,
    kept_lines, lines, seqs, trim, trim_slice, find, find_char, occurs_at, matches_at,
    find_slice, find_char_slice, starts_with, ends_with, slice_to_vec, string_of, split_char,
    split_char_slice, uppercase, to_uppercase, str_eq, lemma_seqs_push, views,
};

use crate::gantt::{parse_int, parse_int_exec};
verus! {

/// Spec view of a flowchart under construction.
#[verifier::ext_equal]
pub ghost struct Flow {
    pub nodes: Seq<(Seq<char>, Seq<char>, NodeShape)>,
    pub edges: Seq<(Seq<char>, Seq<char>, Seq<char>, EdgeStyle)>,
    pub subgraphs: Seq<(Seq<char>, Seq<Seq<char>>)>,
    pub styles: Seq<(Seq<char>, Seq<char>)>,
    pub class_defs: Seq<(Seq<char>, Seq<char>)>,
    pub class_applies: Seq<(Seq<Seq<char>>, Seq<char>)>,
    pub link_styles: Seq<(int, Seq<char>)>,
}

pub open spec fn empty_flow() -> Flow {
    Flow {
        nodes: Seq::empty(),
        edges: Seq::empty(),
        subgraphs: Seq::empty(),
        styles: Seq::empty(),
        class_defs: Seq::empty(),
        class_applies: Seq::empty(),
        link_styles: Seq::empty(),
    }
}

/// The flowchart content of a diagram, as values.
pub open spec fn flow_of(d: Diagram) -> Flow {
    Flow {
        nodes: Seq::new(
            d.nodes@.len(),
            |i: int| (d.nodes@[i].id@, d.nodes@[i].text@, d.nodes@[i].shape),
        ),
        edges: Seq::new(
            d.edges@.len(),
            |i: int| (d.edges@[i].from@, d.edges@[i].to@, d.edges@[i].label@, d.edges@[i].style),
        ),
        subgraphs: Seq::new(
            d.subgraphs@.len(),
            |i: int| (d.subgraphs@[i].id@, views(d.subgraphs@[i].nodes@)),
        ),
        styles: Seq::new(
            d.styles@.len(),
            |i: int| (d.styles@[i].node_id@, d.styles@[i].properties@),
        ),
        class_defs: Seq::new(
            d.class_defs@.len(),
            |i: int| (d.class_defs@[i].name@, d.class_defs@[i].properties@),
        ),
        class_applies: Seq::new(
            d.class_applies@.len(),
            |i: int| (views(d.class_applies@[i].node_ids@), d.class_applies@[i].class_name@),
        ),
        link_styles: Seq::new(
            d.link_styles@.len(),
            |i: int| (d.link_styles@[i].index as int, d.link_styles@[i].properties@),
        ),
    }
}

// ---------------------------------------------------------------- arrows

/// The arrow token starting at `i`, if any, longest first.
pub open spec fn arrow_at(s: Seq<char>, i: int) -> Option<(EdgeStyle, int)> {
    if occurs_at(s, "-.->"@, i) {
        Some((EdgeStyle::Dashed, 4))
    } else if occurs_at(s, "-->"@, i) {
        Some((EdgeStyle::Arrow, 3))
    } else if occurs_at(s, "==>"@, i) {
        Some((EdgeStyle::Thick, 3))
    } else if occurs_at(s, "==="@, i) {
        Some((EdgeStyle::Thick, 3))
    } else if occurs_at(s, "->"@, i) {
        Some((EdgeStyle::Arrow, 2))
    } else {
        None
    }
}

/// Segments between arrow tokens (empty ones dropped) and the arrow styles,
/// scanning from `i` with the current segment starting at `start`.
pub open spec fn split_arrows_from(s: Seq<char>, i: int, start: int) -> (
    Seq<Seq<char>>,
    Seq<EdgeStyle>,
)
    decreases s.len() - i,
{
    if i < 0 || i >= s.len() {
        if 0 <= start < s.len() {
            (seq![s.subrange(start, s.len() as int)], Seq::empty())
        } else {
            (Seq::empty(), Seq::empty())
        }
    } else {
        match arrow_at(s, i) {
            Some((st, k)) => {
                proof {
                    reveal_strlit("-.->");
                    reveal_strlit("-->");
                    reveal_strlit("==>");
                    reveal_strlit("===");
                    reveal_strlit("->");
                    assert(k > 0 && i + k <= s.len());
                }
                let rest = split_arrows_from(s, i + k, i + k);
                (
                    if start < i {
                        seq![s.subrange(start, i)] + rest.0
                    } else {
                        rest.0
                    },
                    seq![st] + rest.1,
                )
            },
            None => split_arrows_from(s, i + 1, start),
        }
    }
}

pub open spec fn split_arrows(s: Seq<char>) -> (Seq<Seq<char>>, Seq<EdgeStyle>) {
    split_arrows_from(s, 0, 0)
}

// ---------------------------------------------------------------- node lists

/// Comma/whitespace separated words of `s` (quotes protect separators),
/// scanning from `i` with the current word `cur`.
pub open spec fn split_nodes_from(s: Seq<char>, i: int, cur: Seq<char>, inq: bool) -> Seq<
    Seq<char>,
>
    decreases s.len() - i,
{
    if i < 0 || i >= s.len() {
        if trim(cur).len() > 0 {
            seq![trim(cur)]
        } else {
            Seq::empty()
        }
    } else {
        let c = s[i];
        if c == '"' {
            split_nodes_from(s, i + 1, cur.push(c), !inq)
        } else if (c == ',' || is_ws(c)) && !inq {
            (if trim(cur).len() > 0 {
                seq![trim(cur)]
            } else {
                Seq::empty()
            }) + split_nodes_from(s, i + 1, Seq::empty(), inq)
        } else {
            split_nodes_from(s, i + 1, cur.push(c), inq)
        }
    }
}

pub open spec fn split_nodes(s: Seq<char>) -> Seq<Seq<char>> {
    split_nodes_from(s, 0, Seq::empty(), false)
}

// ---------------------------------------------------------------- labels

/// `A |label| B`: the label and the rest with the label removed; otherwise the
/// pending label is kept.
pub open spec fn extract_label(s0: Seq<char>, existing: Option<Seq<char>>) -> (
    Option<Seq<char>>,
    Seq<char>,
) {
    let s = trim(s0);
    match find_char(s, '|') {
        Some(pos) => {
            let after = s.subrange(pos + 1, s.len() as int);
            match find_char(after, '|') {
                Some(end) => {
                    let label = s.subrange(pos + 1, pos + 1 + end);
                    let rest = trim(s.subrange(0, pos)) + " "@ + trim(
                        s.subrange(pos + 2 + end, s.len() as int),
                    );
                    (Some(label), trim(rest))
                },
                None => (existing, s),
            }
        },
        None => (existing, s),
    }
}

// ---------------------------------------------------------------- node definitions

/// A usable node id: quoted, or a non-empty word.
pub open spec fn valid_id(s: Seq<char>) -> bool {
    s.len() > 0 && ((s.len() >= 2 && s[0] == '"' && s.last() == '"') || forall|i: int|
        0 <= i < s.len() ==> alphanumeric(#[trigger] s[i]) || s[i] == '_')
}

/// Drop surrounding quotes.
pub open spec fn unquote(s: Seq<char>) -> Seq<char> {
    if s.len() >= 2 && s[0] == '"' && s.last() == '"' {
        s.subrange(1, s.len() - 1)
    } else {
        s
    }
}

/// `id<open>text<close>`, split at the first `open`, when `s` ends with `close`.
pub open spec fn bracketed(s: Seq<char>, open: Seq<char>, close: Seq<char>) -> Option<
    (Seq<char>, Seq<char>),
> {
    match find(s, open) {
        Some(pos) => {
            if close.is_suffix_of(s) && pos + open.len() <= s.len() - close.len() {
                Some((s.subrange(0, pos), s.subrange(pos + open.len(), s.len() - close.len())))
            } else {
                None
            }
        },
        None => None,
    }
}

/// The bracketed form, kept when its id part is a valid id.
pub open spec fn shaped(s: Seq<char>, open: Seq<char>, close: Seq<char>) -> Option<
    (Seq<char>, Seq<char>),
> {
    match bracketed(s, open, close) {
        Some((id, text)) => if valid_id(id) {
            Some((id, text))
        } else {
            None
        },
        None => None,
    }
}

/// Node id, text and shape written in `s0`.
pub open spec fn node_def(s0: Seq<char>) -> Option<(Seq<char>, Seq<char>, NodeShape)> {
    let s = trim(s0);
    if s.len() == 0 {
        None
    } else if let Some((id, text)) = shaped(s, "[("@, ")]"@) {
        Some((unquote(id), text, NodeShape::Cylinder))
    } else if let Some((id, text)) = shaped(s, "["@, "]"@) {
        Some((unquote(id), text, NodeShape::Rect))
    } else if let Some((id, text)) = shaped(s, "{{"@, "}}"@) {
        Some((unquote(id), text, NodeShape::Hexagon))
    } else if let Some((id, text)) = shaped(s, "{"@, "}"@) {
        Some((unquote(id), text, NodeShape::Diamond))
    } else if let Some((id, text)) = shaped(s, "(("@, "))"@) {
        Some((unquote(id), text, NodeShape::Circle))
    } else if let Some((id, text)) = shaped(s, "("@, ")"@) {
        if text.contains('[') || (text.len() > 0 && text[0] == '(') {
            None
        } else {
            Some((unquote(id), text, NodeShape::Stadium))
        }
    } else if valid_id(s) {
        Some((unquote(s), unquote(s), NodeShape::Rect))
    } else {
        None
    }
}


// ---------------------------------------------------------------- statements

/// Index of the first whitespace character.
pub open spec fn first_ws(s: Seq<char>) -> Option<int> {
    crate::text::first(s, |c: char| is_ws(c))
}

/// Index of the last whitespace character before `j`.
pub open spec fn last_ws_before(s: Seq<char>, j: int) -> Option<int>
    decreases j,
{
    if j <= 0 || j > s.len() {
        None
    } else if is_ws(s[j - 1]) {
        Some(j - 1)
    } else {
        last_ws_before(s, j - 1)
    }
}

/// `key value` after a keyword of `skip` characters: both trimmed, split at
/// the first whitespace.
pub open spec fn key_value(line: Seq<char>, skip: int) -> Option<(Seq<char>, Seq<char>)> {
    let rest = trim(line.subrange(skip, line.len() as int));
    match first_ws(rest) {
        Some(k) => Some((trim(rest.subrange(0, k)), trim(rest.subrange(k + 1, rest.len() as int)))),
        None => None,
    }
}

/// Ids of a `class` statement: trimmed, unquoted, empty ones dropped.
pub open spec fn clean_ids(pieces: Seq<Seq<char>>) -> Seq<Seq<char>>
    decreases pieces.len(),
{
    if pieces.len() == 0 {
        Seq::empty()
    } else {
        let prev = clean_ids(pieces.drop_last());
        let x = unquote(trim(pieces.last()));
        if x.len() > 0 {
            prev.push(x)
        } else {
            prev
        }
    }
}

/// `class a,b name`: the ids and the class name, split at the last whitespace.
pub open spec fn class_line(line: Seq<char>) -> Option<(Seq<Seq<char>>, Seq<char>)> {
    let rest = trim(line.subrange(6, line.len() as int));
    match last_ws_before(rest, rest.len() as int) {
        Some(k) => {
            let name = trim(rest.subrange(k + 1, rest.len() as int));
            let ids = clean_ids(split_char(trim(rest.subrange(0, k)), ','));
            if ids.len() == 0 {
                None
            } else {
                Some((ids, name))
            }
        },
        None => None,
    }
}

/// Add a node unless its id is known.
pub open spec fn ensure(f: Flow, id: Seq<char>, text: Seq<char>, shape: NodeShape) -> Flow {
    if exists|i: int| 0 <= i < f.nodes.len() && (#[trigger] f.nodes[i]).0 == id {
        f
    } else {
        Flow { nodes: f.nodes.push((id, text, shape)), ..f }
    }
}

/// Record a subgraph member once.
pub open spec fn add_member(sg: Seq<Seq<char>>, id: Seq<char>) -> Seq<Seq<char>> {
    if sg.contains(id) {
        sg
    } else {
        sg.push(id)
    }
}

/// State while reading the segments of one line.
#[verifier::ext_equal]
pub ghost struct Seg {
    pub f: Flow,
    pub sg: Seq<Seq<char>>,
    pub prev: Option<Seq<char>>,
    pub pending: Option<Seq<char>>,
}

/// A node reached on the line: added, recorded, and joined to the previous one.
pub open spec fn visit(st: Seg, id: Seq<char>, text: Seq<char>, shape: NodeShape, label: Seq<char>, style: EdgeStyle) -> Seg {
    let f1 = ensure(st.f, id, text, shape);
    let f2 = match st.prev {
        Some(p) => Flow { edges: f1.edges.push((p, id, label, style)), ..f1 },
        None => f1,
    };
    Seg { f: f2, sg: add_member(st.sg, id), prev: Some(id), pending: st.pending }
}

/// Nodes of a plain list (`A B, C`), each joined to the previous one.
pub open spec fn list_nodes(ps: Seq<Seq<char>>, st: Seg) -> Seg
    decreases ps.len(),
{
    if ps.len() == 0 {
        st
    } else {
        let st1 = list_nodes(ps.drop_last(), st);
        match node_def(ps.last()) {
            Some((id, text, shape)) => visit(st1, id, text, shape, Seq::empty(), EdgeStyle::Arrow),
            None => st1,
        }
    }
}

/// One segment of a line (`k` is its position among the segments).
pub open spec fn seg_step(arrows: Seq<EdgeStyle>, k: int, seg: Seq<char>, st: Seg) -> Seg {
    let segment = trim(seg);
    if segment.len() == 0 {
        st
    } else {
        let (pending, rest) = extract_label(segment, st.pending);
        let st0 = Seg { pending, ..st };
        if rest.len() == 0 {
            st0
        } else if k > 0 {
            match node_def(rest) {
                Some((id, text, shape)) => {
                    let label = match pending {
                        Some(l) => l,
                        None => Seq::empty(),
                    };
                    let style = if k - 1 < arrows.len() {
                        arrows[k - 1]
                    } else {
                        EdgeStyle::Arrow
                    };
                    let st1 = visit(st0, id, text, shape, label, style);
                    Seg { pending: None, ..st1 }
                },
                None => st0,
            }
        } else {
            match node_def(rest) {
                Some((id, text, shape)) => visit(st0, id, text, shape, Seq::empty(), EdgeStyle::Arrow),
                None => list_nodes(split_nodes(rest), st0),
            }
        }
    }
}

/// All segments up to (not including) `n`.
pub open spec fn segs_upto(segs: Seq<Seq<char>>, arrows: Seq<EdgeStyle>, n: int, st: Seg) -> Seg
    decreases n,
{
    if n <= 0 || n > segs.len() {
        st
    } else {
        seg_step(arrows, n - 1, segs[n - 1], segs_upto(segs, arrows, n - 1, st))
    }
}

/// A node/edge statement: the flow and subgraph members after it.
pub open spec fn chain_line(line: Seq<char>, f: Flow, sg: Seq<Seq<char>>) -> (Flow, Seq<Seq<char>>) {
    let (segs, arrows) = split_arrows(line);
    let st = segs_upto(segs, arrows, segs.len() as int, Seg { f, sg, prev: None, pending: None });
    (st.f, st.sg)
}

/// One statement of a flowchart.
pub open spec fn collect_line(line: Seq<char>, f: Flow, sg: Seq<Seq<char>>) -> (Flow, Seq<Seq<char>>) {
    if "linkStyle "@.is_prefix_of(line) {
        match key_value(line, 10) {
            Some((n, props)) => match parse_int(n, 0, 0xffff_ffff) {
                Some(k) => (Flow { link_styles: f.link_styles.push((k, props)), ..f }, sg),
                None => (f, sg),
            },
            None => (f, sg),
        }
    } else if "style "@.is_prefix_of(line) {
        match key_value(line, 6) {
            Some((id, props)) => (Flow { styles: f.styles.push((unquote(id), props)), ..f }, sg),
            None => (f, sg),
        }
    } else if "classDef "@.is_prefix_of(line) {
        match key_value(line, 9) {
            Some((name, props)) => (Flow { class_defs: f.class_defs.push((name, props)), ..f }, sg),
            None => (f, sg),
        }
    } else if "class "@.is_prefix_of(line) {
        match class_line(line) {
            Some(ca) => (Flow { class_applies: f.class_applies.push(ca), ..f }, sg),
            None => (f, sg),
        }
    } else {
        chain_line(line, f, sg)
    }
}

/// Where the reader is: at top level, inside a subgraph, or skipping a
/// nested subgraph.
pub ghost enum Mode {
    Top,
    In(Seq<char>, Seq<Seq<char>>),
    Skip(Seq<char>, Seq<Seq<char>>),
}

/// The flow after reading lines `i..` in mode `m`.
pub open spec fn run(ls: Seq<Seq<char>>, i: int, f: Flow, m: Mode) -> Flow
    decreases ls.len() - i,
{
    if i < 0 || i >= ls.len() {
        match m {
            Mode::Top => f,
            Mode::In(id, sg) => Flow { subgraphs: f.subgraphs.push((id, sg)), ..f },
            Mode::Skip(id, sg) => Flow { subgraphs: f.subgraphs.push((id, sg)), ..f },
        }
    } else {
        let l = ls[i];
        match m {
            Mode::Top => {
                if "graph "@.is_prefix_of(l) {
                    run(ls, i + 1, f, Mode::Top)
                } else if "subgraph "@.is_prefix_of(l) {
                    run(ls, i + 1, f, Mode::In(trim(l.subrange(9, l.len() as int)), Seq::empty()))
                } else {
                    run(ls, i + 1, collect_line(l, f, Seq::empty()).0, Mode::Top)
                }
            },
            Mode::In(id, sg) => {
                if l == "end"@ {
                    run(ls, i + 1, Flow { subgraphs: f.subgraphs.push((id, sg)), ..f }, Mode::Top)
                } else if "subgraph "@.is_prefix_of(l) {
                    run(ls, i + 1, f, Mode::Skip(id, sg))
                } else {
                    let (f2, sg2) = collect_line(l, f, sg);
                    run(ls, i + 1, f2, Mode::In(id, sg2))
                }
            },
            Mode::Skip(id, sg) => {
                if l == "end"@ {
                    run(ls, i + 1, f, Mode::In(id, sg))
                } else {
                    run(ls, i + 1, f, Mode::Skip(id, sg))
                }
            },
        }
    }
}

/// Direction from a `graph DIR` header (`TD` and unknown ones read as `TB`).
pub open spec fn rankdir_of(line: Seq<char>) -> Seq<char> {
    let u = uppercase(trim(line.subrange(6, line.len() as int)));
    if u == "LR"@ || u == "RL"@ || u == "BT"@ {
        u
    } else {
        "TB"@
    }
}

/// Content lines of a flowchart source.
pub open spec fn flow_lines(src: Seq<char>) -> Seq<Seq<char>> {
    kept_lines(lines(src), |l: Seq<char>| keep_flow(l))
}

/// Direction of a flowchart source.
pub open spec fn flow_rankdir(src: Seq<char>) -> Seq<char> {
    let ls = flow_lines(src);
    if ls.len() > 0 && "graph "@.is_prefix_of(ls[0]) {
        rankdir_of(ls[0])
    } else {
        "TB"@
    }
}

/// Nodes, edges, subgraphs and styling read from a flowchart source.
pub open spec fn flow_parse(src: Seq<char>) -> Flow {
    run(flow_lines(src), 0, empty_flow(), Mode::Top)
}


// ================================================================ executable

fn arrow_at_exec(s: &[char], i: usize) -> (r: Option<(EdgeStyle, usize)>)
    ensures
        match arrow_at(s@, i as int) {
            Some((st, k)) => r == Some((st, k as usize)) && k > 0 && i + k <= s@.len(),
            None => r is None,
        },
{
    proof {
        reveal_strlit("-.->");
        reveal_strlit("-->");
        reveal_strlit("==>");
        reveal_strlit("===");
        reveal_strlit("->");
    }
    if matches_at(s, chars_of("-.->").as_slice(), i) {
        Some((EdgeStyle::Dashed, 4))
    } else if matches_at(s, chars_of("-->").as_slice(), i) {
        Some((EdgeStyle::Arrow, 3))
    } else if matches_at(s, chars_of("==>").as_slice(), i) {
        Some((EdgeStyle::Thick, 3))
    } else if matches_at(s, chars_of("===").as_slice(), i) {
        Some((EdgeStyle::Thick, 3))
    } else if matches_at(s, chars_of("->").as_slice(), i) {
        Some((EdgeStyle::Arrow, 2))
    } else {
        None
    }
}

/// Segments between arrows, and the arrows' styles.
fn split_arrows_exec(s: &[char]) -> (r: (Vec<Vec<char>>, Vec<EdgeStyle>))
    ensures
        seqs(r.0@) == split_arrows(s@).0,
        r.1@ == split_arrows(s@).1,
{
    let mut segs: Vec<Vec<char>> = Vec::new();
    let mut arrows: Vec<EdgeStyle> = Vec::new();
    let mut start: usize = 0;
    let mut i: usize = 0;
    while i < s.len()
        invariant
            start <= i <= s@.len(),
            seqs(segs@) + split_arrows_from(s@, i as int, start as int).0 == split_arrows(s@).0,
            arrows@ + split_arrows_from(s@, i as int, start as int).1 == split_arrows(s@).1,
        decreases s@.len() - i,
    {
        match arrow_at_exec(s, i) {
            Some((st, k)) => {
                let ghost rest = split_arrows_from(s@, i + k, i + k);
                if start < i {
                    let piece = slice_to_vec(&s[start..i]);
                    proof {
                        lemma_seqs_push(segs@, piece);
                        assert(seqs(segs@.push(piece)) + rest.0 =~= seqs(segs@) + (seq![
                            s@.subrange(start as int, i as int),
                        ] + rest.0));
                    }
                    segs.push(piece);
                }
                proof {
                    assert(arrows@.push(st) + rest.1 =~= arrows@ + (seq![st] + rest.1));
                }
                arrows.push(st);
                i = i + k;
                start = i;
            },
            None => {
                i = i + 1;
            },
        }
    }
    if start < s.len() {
        let piece = slice_to_vec(&s[start..s.len()]);
        proof {
            lemma_seqs_push(segs@, piece);
            assert(seqs(segs@.push(piece)) =~= seqs(segs@) + seq![
                s@.subrange(start as int, s@.len() as int),
            ]);
        }
        segs.push(piece);
    } else {
        assert(seqs(segs@) + Seq::<Seq<char>>::empty() =~= seqs(segs@));
    }
    assert(arrows@ + Seq::<EdgeStyle>::empty() =~= arrows@);
    (segs, arrows)
}

/// Words of a plain node list.
fn split_nodes_exec(s: &[char]) -> (r: Vec<Vec<char>>)
    ensures
        seqs(r@) == split_nodes(s@),
{
    let mut r: Vec<Vec<char>> = Vec::new();
    let mut cur: Vec<char> = Vec::new();
    let mut inq = false;
    let mut i: usize = 0;
    while i < s.len()
        invariant
            i <= s@.len(),
            seqs(r@) + split_nodes_from(s@, i as int, cur@, inq) == split_nodes(s@),
        decreases s@.len() - i,
    {
        let c = s[i];
        if c == '"' {
            inq = !inq;
            cur.push(c);
        } else if (c == ',' || is_whitespace(c)) && !inq {
            let t = trim_slice(cur.as_slice());
            let ghost rest = split_nodes_from(s@, i + 1, Seq::empty(), inq);
            if t.len() > 0 {
                let piece = slice_to_vec(t);
                proof {
                    lemma_seqs_push(r@, piece);
                    assert(seqs(r@.push(piece)) + rest =~= seqs(r@) + (seq![trim(cur@)] + rest));
                }
                r.push(piece);
            } else {
                assert(seqs(r@) + rest =~= seqs(r@) + (Seq::<Seq<char>>::empty() + rest));
            }
            cur = Vec::new();
        } else {
            cur.push(c);
        }
        i = i + 1;
    }
    let t = trim_slice(cur.as_slice());
    if t.len() > 0 {
        let piece = slice_to_vec(t);
        proof {
            lemma_seqs_push(r@, piece);
        }
        r.push(piece);
    } else {
        assert(seqs(r@) + Seq::<Seq<char>>::empty() =~= seqs(r@));
    }
    r
}


fn trimmed_vec(s: &[char]) -> (r: Vec<char>)
    ensures
        r@ == trim(s@),
{
    slice_to_vec(trim_slice(s))
}

/// The label written between bars, and the rest of the segment.
fn extract_label_exec(s0: &[char], existing: Option<Vec<char>>) -> (r: (Option<Vec<char>>, Vec<char>))
    ensures
        (match r.0 {
            Some(v) => Some(v@),
            None => None,
        }, r.1@) == extract_label(s0@, match existing {
            Some(v) => Some(v@),
            None => None,
        }),
{
    let s = trim_slice(s0);
    match find_char_slice(s, '|') {
        Some(pos) => {
            proof {
                crate::text::lemma_find_char_from(s@, '|', 0);
            }
            let n = s.len();
            assert(pos < n);
            let after = &s[pos + 1..n];
            match find_char_slice(after, '|') {
                Some(end) => {
                    proof {
                        crate::text::lemma_find_char_from(after@, '|', 0);
                    }
                    let label = slice_to_vec(&s[pos + 1..pos + 1 + end]);
                    let mut rest = trimmed_vec(&s[0..pos]);
                    rest.push(' ');
                    let tail = trim_slice(&s[pos + 2 + end..s.len()]);
                    let ghost r0 = rest@;
                    let mut k: usize = 0;
                    while k < tail.len()
                        invariant
                            k <= tail@.len(),
                            rest@ == r0 + tail@.subrange(0, k as int),
                        decreases tail@.len() - k,
                    {
                        rest.push(tail[k]);
                        k = k + 1;
                        assert(rest@ =~= r0 + tail@.subrange(0, k as int));
                    }
                    proof {
                        reveal_strlit(" ");
                        assert(tail@.subrange(0, tail@.len() as int) =~= tail@);
                        assert(r0 =~= trim(s@.subrange(0, pos as int)) + " "@);
                        assert(after@.subrange(0, end as int) =~= s@.subrange(
                            pos + 1,
                            pos + 1 + end,
                        ));
                    }
                    (Some(label), trimmed_vec(rest.as_slice()))
                },
                None => (existing, slice_to_vec(s)),
            }
        },
        None => (existing, slice_to_vec(s)),
    }
}

fn all_word_chars(s: &[char]) -> (b: bool)
    ensures
        b == forall|i: int| 0 <= i < s@.len() ==> alphanumeric(#[trigger] s@[i]) || s@[i] == '_',
{
    let mut i: usize = 0;
    while i < s.len()
        invariant
            i <= s@.len(),
            forall|k: int| 0 <= k < i ==> alphanumeric(#[trigger] s@[k]) || s@[k] == '_',
        decreases s@.len() - i,
    {
        let c = s[i];
        if !(is_alphanumeric(c) || c == '_') {
            return false;
        }
        i = i + 1;
    }
    true
}

fn valid_id_exec(s: &[char]) -> (b: bool)
    ensures
        b == valid_id(s@),
{
    if s.len() == 0 {
        return false;
    }
    if s.len() >= 2 && s[0] == '"' && s[s.len() - 1] == '"' {
        return true;
    }
    all_word_chars(s)
}

fn unquote_exec(s: &[char]) -> (r: Vec<char>)
    ensures
        r@ == unquote(s@),
{
    if s.len() >= 2 && s[0] == '"' && s[s.len() - 1] == '"' {
        slice_to_vec(&s[1..s.len() - 1])
    } else {
        slice_to_vec(s)
    }
}

fn bracketed_exec(s: &[char], open: &[char], close: &[char]) -> (r: Option<(Vec<char>, Vec<char>)>)
    ensures
        match bracketed(s@, open@, close@) {
            Some((a, b)) => r matches Some((x, y)) && x@ == a && y@ == b,
            None => r is None,
        },
{
    match find_slice(s, open) {
        Some(pos) => {
            proof {
                crate::text::lemma_find_from(s@, open@, 0);
            }
            let n = s.len();
            assert(pos + open@.len() <= n);
            if ends_with(s, close) && pos + open.len() <= n - close.len() {
                Some((slice_to_vec(&s[0..pos]), slice_to_vec(&s[pos + open.len()..s.len() - close.len()])))
            } else {
                None
            }
        },
        None => None,
    }
}

fn shaped_exec(s: &[char], open: &str, close: &str) -> (r: Option<(Vec<char>, Vec<char>)>)
    ensures
        match shaped(s@, open@, close@) {
            Some((a, b)) => r matches Some((x, y)) && x@ == a && y@ == b,
            None => r is None,
        },
{
    let o = chars_of(open);
    let c = chars_of(close);
    match bracketed_exec(s, o.as_slice(), c.as_slice()) {
        Some((id, text)) => {
            if valid_id_exec(id.as_slice()) {
                Some((id, text))
            } else {
                None
            }
        },
        None => None,
    }
}

/// Id, text and shape of a node definition.
fn node_def_exec(s0: &[char]) -> (r: Option<(Vec<char>, Vec<char>, NodeShape)>)
    ensures
        match node_def(s0@) {
            Some((a, b, sh)) => r matches Some((x, y, z)) && x@ == a && y@ == b && z == sh,
            None => r is None,
        },
{
    let s = trim_slice(s0);
    if s.len() == 0 {
        return None;
    }
    if let Some((id, text)) = shaped_exec(s, "[(", ")]") {
        return Some((unquote_exec(id.as_slice()), text, NodeShape::Cylinder));
    }
    if let Some((id, text)) = shaped_exec(s, "[", "]") {
        return Some((unquote_exec(id.as_slice()), text, NodeShape::Rect));
    }
    if let Some((id, text)) = shaped_exec(s, "{{", "}}") {
        return Some((unquote_exec(id.as_slice()), text, NodeShape::Hexagon));
    }
    if let Some((id, text)) = shaped_exec(s, "{", "}") {
        return Some((unquote_exec(id.as_slice()), text, NodeShape::Diamond));
    }
    if let Some((id, text)) = shaped_exec(s, "((", "))") {
        return Some((unquote_exec(id.as_slice()), text, NodeShape::Circle));
    }
    if let Some((id, text)) = shaped_exec(s, "(", ")") {
        if crate::text::contains_char(text.as_slice(), '[') || (text.len() > 0 && text[0] == '(') {
            return None;
        }
        return Some((unquote_exec(id.as_slice()), text, NodeShape::Stadium));
    }
    if valid_id_exec(s) {
        let id = unquote_exec(s);
        let text = unquote_exec(s);
        return Some((id, text, NodeShape::Rect));
    }
    None
}


fn first_ws_exec(s: &[char]) -> (r: Option<usize>)
    ensures
        r matches Some(k) ==> first_ws(s@) == Some(k as int) && k < s@.len(),
        r is None ==> first_ws(s@) is None,
{
    let mut i: usize = 0;
    while i < s.len()
        invariant
            i <= s@.len(),
            first_ws(s@) == crate::text::first_from(s@, |c: char| is_ws(c), i as int),
        decreases s@.len() - i,
    {
        if is_whitespace(s[i]) {
            return Some(i);
        }
        i = i + 1;
    }
    None
}

fn last_ws_exec(s: &[char]) -> (r: Option<usize>)
    ensures
        r matches Some(k) ==> last_ws_before(s@, s@.len() as int) == Some(k as int) && k < s@.len(),
        r is None ==> last_ws_before(s@, s@.len() as int) is None,
{
    let mut j: usize = s.len();
    while j > 0
        invariant
            j <= s@.len(),
            last_ws_before(s@, s@.len() as int) == last_ws_before(s@, j as int),
        decreases j,
    {
        if is_whitespace(s[j - 1]) {
            return Some(j - 1);
        }
        j = j - 1;
    }
    None
}

fn key_value_exec(line: &[char], skip: usize) -> (r: Option<(Vec<char>, Vec<char>)>)
    requires
        skip <= line@.len(),
    ensures
        match key_value(line@, skip as int) {
            Some((a, b)) => r matches Some((x, y)) && x@ == a && y@ == b,
            None => r is None,
        },
{
    let rest = trim_slice(&line[skip..line.len()]);
    let n = rest.len();
    match first_ws_exec(rest) {
        Some(k) => Some((trimmed_vec(&rest[0..k]), trimmed_vec(&rest[k + 1..n]))),
        None => None,
    }
}

fn clean_ids_exec(pieces: &Vec<Vec<char>>) -> (r: Vec<String>)
    ensures
        views(r@) == clean_ids(seqs(pieces@)),
{
    let ghost ps = seqs(pieces@);
    let mut r: Vec<String> = Vec::new();
    let mut i: usize = 0;
    assert(ps.take(0) =~= Seq::<Seq<char>>::empty());
    while i < pieces.len()
        invariant
            i <= pieces@.len(),
            ps == seqs(pieces@),
            views(r@) == clean_ids(ps.take(i as int)),
        decreases pieces@.len() - i,
    {
        let x = unquote_exec(trim_slice(pieces[i].as_slice()));
        proof {
            assert(ps.take(i + 1).drop_last() =~= ps.take(i as int));
        }
        if x.len() > 0 {
            let sx = string_of(x.as_slice());
            let ghost before = r@;
            r.push(sx);
            assert(views(r@) =~= views(before).push(sx@));
        }
        i = i + 1;
    }
    assert(ps.take(pieces@.len() as int) =~= ps);
    r
}

fn class_line_exec(line: &[char]) -> (r: Option<ClassApply>)
    requires
        6 <= line@.len(),
    ensures
        match class_line(line@) {
            Some((ids, name)) => r matches Some(ca) && views(ca.node_ids@) == ids && ca.class_name@
                == name,
            None => r is None,
        },
{
    let rest = trim_slice(&line[6..line.len()]);
    let n = rest.len();
    match last_ws_exec(rest) {
        Some(k) => {
            let name = trimmed_vec(&rest[k + 1..n]);
            let ids_str = trim_slice(&rest[0..k]);
            let pieces = split_char_slice(ids_str, ',');
            let ids = clean_ids_exec(&pieces);
            if ids.len() == 0 {
                None
            } else {
                Some(ClassApply { node_ids: ids, class_name: string_of(name.as_slice()) })
            }
        },
        None => None,
    }
}


/// Nodes carry no link or tooltip.
pub open spec fn plain(d: Diagram) -> bool {
    forall|i: int| 0 <= i < d.nodes@.len() ==> (#[trigger] d.nodes@[i]).href is None
        && d.nodes@[i].tooltip is None
}

pub open spec fn opt_view(o: Option<Vec<char>>) -> Option<Seq<char>> {
    match o {
        Some(v) => Some(v@),
        None => None,
    }
}

fn has_id(nodes: &Vec<Node>, id: &[char]) -> (b: bool)
    ensures
        b == exists|i: int| 0 <= i < nodes@.len() && (#[trigger] nodes@[i]).id@ == id@,
{
    let mut i: usize = 0;
    while i < nodes.len()
        invariant
            i <= nodes@.len(),
            forall|k: int| 0 <= k < i ==> (#[trigger] nodes@[k]).id@ != id@,
        decreases nodes@.len() - i,
    {
        let c = chars_of(nodes[i].id.as_str());
        if crate::text::eq_slice(c.as_slice(), id) {
            return true;
        }
        i = i + 1;
    }
    false
}

fn ensure_exec(d: &mut Diagram, id: &[char], text: &[char], shape: NodeShape)
    requires
        plain(*old(d)),
    ensures
        flow_of(*final(d)) == ensure(flow_of(*old(d)), id@, text@, shape),
        plain(*final(d)),
        final(d).rankdir == old(d).rankdir,
{
    let ghost f = flow_of(*d);
    let found = has_id(&d.nodes, id);
    proof {
        if found {
            let i = choose|i: int| 0 <= i < d.nodes@.len() && (#[trigger] d.nodes@[i]).id@ == id@;
            assert(f.nodes[i].0 == id@);
        } else {
            assert forall|i: int| 0 <= i < f.nodes.len() implies (#[trigger] f.nodes[i]).0 != id@ by {
                assert(d.nodes@[i].id@ != id@);
            }
        }
    }
    if !found {
        let n = Node {
            id: string_of(id),
            text: string_of(text),
            shape,
            href: None,
            tooltip: None,
        };
        d.nodes.push(n);
        assert(flow_of(*d) =~= Flow { nodes: f.nodes.push((id@, text@, shape)), ..f });
    }
}

fn add_member_exec(sg: &mut Vec<String>, id: &[char])
    ensures
        views(final(sg)@) == add_member(views(old(sg)@), id@),
{
    let ghost v = views(sg@);
    let mut i: usize = 0;
    while i < sg.len()
        invariant
            i <= sg@.len(),
            v == views(sg@),
            forall|k: int| 0 <= k < i ==> v[k] != id@,
        decreases sg@.len() - i,
    {
        let c = chars_of(sg[i].as_str());
        if crate::text::eq_slice(c.as_slice(), id) {
            assert(v[i as int] == id@);
            assert(v.contains(id@));
            return;
        }
        i = i + 1;
    }
    assert(!v.contains(id@));
    let x = string_of(id);
    sg.push(x);
    assert(views(sg@) =~= v.push(id@));
}

/// Exec state of a line being read.
struct SegX {
    prev: Option<Vec<char>>,
    pending: Option<Vec<char>>,
}

spec fn seg_of(d: Diagram, sg: Vec<String>, x: SegX) -> Seg {
    Seg { f: flow_of(d), sg: views(sg@), prev: opt_view(x.prev), pending: opt_view(x.pending) }
}

fn clone_chars(v: &Vec<char>) -> (r: Vec<char>)
    ensures
        r@ == v@,
{
    slice_to_vec(v.as_slice())
}

fn visit_exec(
    d: &mut Diagram,
    sg: &mut Vec<String>,
    x: &mut SegX,
    id: &[char],
    text: &[char],
    shape: NodeShape,
    label: &[char],
    style: EdgeStyle,
)
    requires
        plain(*old(d)),
    ensures
        seg_of(*final(d), *final(sg), *final(x)) == visit(
            seg_of(*old(d), *old(sg), *old(x)),
            id@,
            text@,
            shape,
            label@,
            style,
        ),
        plain(*final(d)),
        final(d).rankdir == old(d).rankdir,
{
    ensure_exec(d, id, text, shape);
    let ghost f1 = flow_of(*d);
    match &x.prev {
        Some(p) => {
            let e = Edge { from: string_of(p.as_slice()), to: string_of(id), label: string_of(label), style };
            d.edges.push(e);
            assert(flow_of(*d) =~= Flow { edges: f1.edges.push((p@, id@, label@, style)), ..f1 });
        },
        None => {},
    }
    add_member_exec(sg, id);
    x.prev = Some(slice_to_vec(id));
    assert(seg_of(*d, *sg, *x) =~= visit(seg_of(*old(d), *old(sg), *old(x)), id@, text@, shape, label@, style));
}

fn list_nodes_exec(d: &mut Diagram, sg: &mut Vec<String>, x: &mut SegX, ps: &Vec<Vec<char>>)
    requires
        plain(*old(d)),
    ensures
        seg_of(*final(d), *final(sg), *final(x)) == list_nodes(seqs(ps@), seg_of(*old(d), *old(sg), *old(x))),
        plain(*final(d)),
        final(d).rankdir == old(d).rankdir,
{
    let ghost st0 = seg_of(*d, *sg, *x);
    let ghost all = seqs(ps@);
    let mut i: usize = 0;
    assert(all.take(0) =~= Seq::<Seq<char>>::empty());
    while i < ps.len()
        invariant
            i <= ps@.len(),
            all == seqs(ps@),
            plain(*d),
            d.rankdir == old(d).rankdir,
            seg_of(*d, *sg, *x) == list_nodes(all.take(i as int), st0),
        decreases ps@.len() - i,
    {
        proof {
            assert(all.take(i + 1).drop_last() =~= all.take(i as int));
            assert(all.take(i + 1).last() == ps@[i as int]@);
        }
        match node_def_exec(ps[i].as_slice()) {
            Some((id, text, shape)) => {
                let no_label: Vec<char> = Vec::new();
                visit_exec(d, sg, x, id.as_slice(), text.as_slice(), shape, no_label.as_slice(), EdgeStyle::Arrow);
            },
            None => {},
        }
        i = i + 1;
    }
    assert(all.take(ps@.len() as int) =~= all);
}


fn take_opt(o: &Option<Vec<char>>) -> (r: Option<Vec<char>>)
    ensures
        opt_view(r) == opt_view(*o),
{
    match o {
        Some(v) => Some(clone_chars(v)),
        None => None,
    }
}

fn seg_step_exec(
    d: &mut Diagram,
    sg: &mut Vec<String>,
    x: &mut SegX,
    arrows: &Vec<EdgeStyle>,
    k: usize,
    seg: &[char],
)
    requires
        plain(*old(d)),
    ensures
        seg_of(*final(d), *final(sg), *final(x)) == seg_step(
            arrows@,
            k as int,
            seg@,
            seg_of(*old(d), *old(sg), *old(x)),
        ),
        plain(*final(d)),
        final(d).rankdir == old(d).rankdir,
{
    let segment = trim_slice(seg);
    if segment.len() == 0 {
        return;
    }
    let (pending, rest) = extract_label_exec(segment, take_opt(&x.pending));
    proof {
        assert(trim(segment@) == trim(seg@)) by {
            crate::text::lemma_trim_idempotent(seg@);
        }
    }
    x.pending = pending;
    if rest.len() == 0 {
        return;
    }
    if k > 0 {
        match node_def_exec(rest.as_slice()) {
            Some((id, text, shape)) => {
                let label: Vec<char> = match &x.pending {
                    Some(l) => clone_chars(l),
                    None => Vec::new(),
                };
                let style = if k - 1 < arrows.len() {
                    arrows[k - 1]
                } else {
                    EdgeStyle::Arrow
                };
                visit_exec(d, sg, x, id.as_slice(), text.as_slice(), shape, label.as_slice(), style);
                x.pending = None;
            },
            None => {},
        }
    } else {
        match node_def_exec(rest.as_slice()) {
            Some((id, text, shape)) => {
                let no_label: Vec<char> = Vec::new();
                visit_exec(d, sg, x, id.as_slice(), text.as_slice(), shape, no_label.as_slice(), EdgeStyle::Arrow);
            },
            None => {
                let ps = split_nodes_exec(rest.as_slice());
                list_nodes_exec(d, sg, x, &ps);
            },
        }
    }
}

fn chain_line_exec(d: &mut Diagram, sg: &mut Vec<String>, line: &[char])
    requires
        plain(*old(d)),
    ensures
        (flow_of(*final(d)), views(final(sg)@)) == chain_line(line@, flow_of(*old(d)), views(old(sg)@)),
        plain(*final(d)),
        final(d).rankdir == old(d).rankdir,
{
    let (segs, arrows) = split_arrows_exec(line);
    let ghost all = seqs(segs@);
    let mut x = SegX { prev: None, pending: None };
    let ghost st0 = seg_of(*d, *sg, x);
    let mut k: usize = 0;
    while k < segs.len()
        invariant
            k <= segs@.len(),
            all == seqs(segs@),
            all == split_arrows(line@).0,
            arrows@ == split_arrows(line@).1,
            plain(*d),
            d.rankdir == old(d).rankdir,
            seg_of(*d, *sg, x) == segs_upto(all, arrows@, k as int, st0),
        decreases segs@.len() - k,
    {
        seg_step_exec(d, sg, &mut x, &arrows, k, segs[k].as_slice());
        k = k + 1;
    }
}

fn collect_line_exec(d: &mut Diagram, sg: &mut Vec<String>, line: &[char])
    requires
        plain(*old(d)),
    ensures
        (flow_of(*final(d)), views(final(sg)@)) == collect_line(line@, flow_of(*old(d)), views(old(sg)@)),
        plain(*final(d)),
        final(d).rankdir == old(d).rankdir,
{
    let ghost f = flow_of(*d);
    if starts_with(line, chars_of("linkStyle ").as_slice()) {
        proof {
            reveal_strlit("linkStyle ");
        }
        match key_value_exec(line, 10) {
            Some((n, props)) => match parse_int_exec(n.as_slice(), 0, 0xffff_ffff) {
                Some(k) => {
                    let ls = LinkStyle { index: k as usize, properties: string_of(props.as_slice()) };
                    d.link_styles.push(ls);
                    assert(flow_of(*d) =~= Flow { link_styles: f.link_styles.push((k as int, props@)), ..f });
                },
                None => {},
            },
            None => {},
        }
        return;
    }
    if starts_with(line, chars_of("style ").as_slice()) {
        proof {
            reveal_strlit("style ");
        }
        match key_value_exec(line, 6) {
            Some((id, props)) => {
                let st = NodeStyle { node_id: string_of(unquote_exec(id.as_slice()).as_slice()), properties: string_of(props.as_slice()) };
                d.styles.push(st);
                assert(flow_of(*d) =~= Flow { styles: f.styles.push((unquote(id@), props@)), ..f });
            },
            None => {},
        }
        return;
    }
    if starts_with(line, chars_of("classDef ").as_slice()) {
        proof {
            reveal_strlit("classDef ");
        }
        match key_value_exec(line, 9) {
            Some((name, props)) => {
                let cd = ClassDef { name: string_of(name.as_slice()), properties: string_of(props.as_slice()) };
                d.class_defs.push(cd);
                assert(flow_of(*d) =~= Flow { class_defs: f.class_defs.push((name@, props@)), ..f });
            },
            None => {},
        }
        return;
    }
    if starts_with(line, chars_of("class ").as_slice()) {
        proof {
            reveal_strlit("class ");
        }
        match class_line_exec(line) {
            Some(ca) => {
                let ghost cv = (views(ca.node_ids@), ca.class_name@);
                d.class_applies.push(ca);
                assert(flow_of(*d) =~= Flow { class_applies: f.class_applies.push(cv), ..f });
            },
            None => {},
        }
        return;
    }
    chain_line_exec(d, sg, line);
}


/// Parse failure (the flowchart reader accepts every text).
#[derive(Clone, Debug)]
pub struct ParseError {
    pub message: String,
    pub line: Option<usize>,
}

spec fn mode_of(tag: u8, id: Seq<char>, sg: Seq<Seq<char>>) -> Mode {
    if tag == 0 {
        Mode::Top
    } else if tag == 1 {
        Mode::In(id, sg)
    } else {
        Mode::Skip(id, sg)
    }
}

fn rankdir_exec(line: &[char]) -> (r: String)
    requires
        6 <= line@.len(),
    ensures
        r@ == rankdir_of(line@),
{
    let rest = string_of(trim_slice(&line[6..line.len()]));
    let u = to_uppercase(rest.as_str());
    let us = u.as_str();
    if str_eq(us, "LR") || str_eq(us, "RL") || str_eq(us, "BT") {
        u
    } else {
        String::from_str("TB")
    }
}

fn push_subgraph(d: &mut Diagram, id: &Vec<char>, sg: Vec<String>)
    ensures
        flow_of(*final(d)) == (Flow { subgraphs: flow_of(*old(d)).subgraphs.push((id@, views(sg@))), ..flow_of(*old(d)) }),
        final(d).rankdir == old(d).rankdir,
        final(d).nodes == old(d).nodes,
        final(d).link_styles == old(d).link_styles,
{
    let ghost f = flow_of(*d);
    let ghost v = views(sg@);
    d.subgraphs.push(Subgraph { id: string_of(id.as_slice()), nodes: sg });
    assert(flow_of(*d) =~= Flow { subgraphs: f.subgraphs.push((id@, v)), ..f });
}

/// Read a Mermaid flowchart.  Every text is accepted.
pub fn parse(source: &str) -> (r: Result<Diagram, ParseError>)
    ensures
        (r matches Ok(d) && d.rankdir@ == flow_rankdir(source@) && flow_of(d) == flow_parse(source@)
            && plain(d)),
{
    let ls = content_lines(source, true);
    let ghost all = seqs(ls@);
    let rankdir = if ls.len() > 0 && starts_with(ls[0].as_slice(), chars_of("graph ").as_slice()) {
        proof {
            reveal_strlit("graph ");
        }
        rankdir_exec(ls[0].as_slice())
    } else {
        String::from_str("TB")
    };
    let mut d = Diagram {
        rankdir,
        nodes: Vec::new(),
        edges: Vec::new(),
        subgraphs: Vec::new(),
        styles: Vec::new(),
        class_defs: Vec::new(),
        class_applies: Vec::new(),
        link_styles: Vec::new(),
    };
    assert(flow_of(d) =~= empty_flow());
    let graph_kw = chars_of("graph ");
    let sub_kw = chars_of("subgraph ");
    let end_kw = chars_of("end");
    proof {
        reveal_strlit("subgraph ");
    }
    let mut tag: u8 = 0;
    let mut sg_id: Vec<char> = Vec::new();
    let mut sg: Vec<String> = Vec::new();
    let mut i: usize = 0;
    while i < ls.len()
        invariant
            i <= ls@.len(),
            all == seqs(ls@),
            all == flow_lines(source@),
            graph_kw@ == "graph "@,
            sub_kw@ == "subgraph "@,
            sub_kw@.len() == 9,
            end_kw@ == "end"@,
            tag <= 2,
            plain(d),
            d.rankdir@ == flow_rankdir(source@),
            run(all, i as int, flow_of(d), mode_of(tag, sg_id@, views(sg@))) == flow_parse(source@),
        decreases ls@.len() - i,
    {
        let l = ls[i].as_slice();
        assert(all[i as int] == l@);
        if tag == 0 {
            if starts_with(l, graph_kw.as_slice()) {
            } else if starts_with(l, sub_kw.as_slice()) {
                sg_id = trimmed_vec(&l[9..l.len()]);
                sg = Vec::new();
                assert(views(sg@) =~= Seq::<Seq<char>>::empty());
                tag = 1;
            } else {
                let mut scratch: Vec<String> = Vec::new();
                assert(views(scratch@) =~= Seq::<Seq<char>>::empty());
                collect_line_exec(&mut d, &mut scratch, l);
            }
        } else if tag == 1 {
            if crate::text::eq_slice(l, end_kw.as_slice()) {
                let mut done: Vec<String> = Vec::new();
                std::mem::swap(&mut done, &mut sg);
                push_subgraph(&mut d, &sg_id, done);
                tag = 0;
            } else if starts_with(l, sub_kw.as_slice()) {
                tag = 2;
            } else {
                collect_line_exec(&mut d, &mut sg, l);
            }
        } else {
            if crate::text::eq_slice(l, end_kw.as_slice()) {
                tag = 1;
            }
        }
        i = i + 1;
    }
    if tag != 0 {
        let mut done: Vec<String> = Vec::new();
                std::mem::swap(&mut done, &mut sg);
        push_subgraph(&mut d, &sg_id, done);
    }
    Ok(d)
}


/// `id[(text)]`: id and text of a cylinder node.
pub fn extract_cylinder(s: &str) -> (r: Option<(String, String)>)
    ensures
        match bracketed(trim(s@), "[("@, ")]"@) {
            Some((a, b)) => r matches Some((x, y)) && x@ == a && y@ == b,
            None => r is None,
        },
{
    let cs = chars_of(s);
    let t = trim_slice(cs.as_slice());
    let o = chars_of("[(");
    let c = chars_of(")]");
    match bracketed_exec(t, o.as_slice(), c.as_slice()) {
        Some((id, text)) => Some((string_of(id.as_slice()), string_of(text.as_slice()))),
        None => None,
    }
}

} // verus!
