//! draw.io (mxGraph XML) files.

use vstd::prelude::*;
use crate::text::{
    seqs, chars_of, decimal, find, find_from, find_char_from, find_slice, find_slice_from, find_char_slice_from, starts_with,
    trim, trim_slice, trim_start, trim_start_index, lemma_find_from, lemma_find_char_from, slice_to_vec, string_of,
    string_from, push_decimal, push_decimal_u128, str_eq, eq_slice,
};
use crate::formats::dot::{replace_all, replace_all_exec};
use crate::diagram::{Diagram as FcDiagram, Edge, EdgeStyle, Node, NodeShape, node_is, find_node};
use crate::text::first;
use crate::text::occurs_at;
use crate::ir::{Diagram, Document, IrError, CURRENT_VERSION};

verus! {

/// Whether text is a draw.io file (after an optional XML declaration).
pub open spec fn drawio_like(src: Seq<char>) -> bool {
    let t0 = trim_start(src);
    let t = if "<?xml"@.is_prefix_of(t0) {
        match find(t0, "?>"@) {
            Some(end) => trim_start(t0.subrange(end + 2, t0.len() as int)),
            None => t0,
        }
    } else {
        t0
    };
    "<mxfile"@.is_prefix_of(t) || "<mxGraphModel"@.is_prefix_of(t)
}

/// Whether source is a draw.io file.
pub fn is_drawio(source: &str) -> (b: bool)
    ensures
        b == drawio_like(source@),
{
    let cs = chars_of(source);
    let s = cs.as_slice();
    let k = trim_start_index(s);
    let t0 = &s[k..s.len()];
    let n = t0.len();
    let close = chars_of("?>");
    proof {
        lemma_find_from(t0@, close@, 0);
        reveal_strlit("?>");
    }
    let t: &[char] = if starts_with(t0, chars_of("<?xml").as_slice()) {
        match find_slice(t0, close.as_slice()) {
            Some(end) => {
                assert(end + 2 <= n);
                let rest = &t0[end + 2..n];
                let j = trim_start_index(rest);
                &rest[j..rest.len()]
            },
            None => t0,
        }
    } else {
        t0
    };
    starts_with(t, chars_of("<mxfile").as_slice()) || starts_with(t, chars_of("<mxGraphModel").as_slice())
}


// ---------------------------------------------------------------- reading

/// The pages of a file: the text inside each `<diagram ...>` ... `</diagram>`
/// from `cursor` on (an unclosed last page runs to the end).
pub open spec fn blocks_from(s: Seq<char>, cursor: int) -> Seq<Seq<char>>
    decreases s.len() - cursor,
{
    if cursor < 0 || cursor > s.len() {
        Seq::empty()
    } else {
        match find_from(s, "<diagram"@, cursor) {
            None => Seq::empty(),
            Some(start) => match find_char_from(s, '>', start) {
                None => Seq::empty(),
                Some(p) => {
                    let tag_end = p + 1;
                    match find_from(s, "</diagram>"@, tag_end) {
                        Some(end) => if cursor < end + 10 <= s.len() {
                            seq![s.subrange(tag_end, end)] + blocks_from(s, end + 10)
                        } else {
                            Seq::empty()
                        },
                        None => seq![s.subrange(tag_end, s.len() as int)],
                    }
                },
            },
        }
    }
}

/// The pages of a file; a bare `<mxGraphModel>` is one page.
pub open spec fn diagram_blocks(s: Seq<char>) -> Seq<Seq<char>> {
    let bs = blocks_from(s, 0);
    if bs.len() == 0 && find(s, "<mxGraphModel"@) is Some {
        seq![s]
    } else {
        bs
    }
}

/// ASCII whitespace (`u8::is_ascii_whitespace`).
pub open spec fn ascii_ws(c: char) -> bool {
    c == ' ' || c == '\t' || c == '\n' || c == '\x0C' || c == '\r'
}

/// First index at or after `i` that is not ASCII whitespace.
pub open spec fn skip_ws(s: Seq<char>, i: int) -> int
    decreases s.len() - i,
{
    if i < 0 || i >= s.len() || !ascii_ws(s[i]) {
        i
    } else {
        skip_ws(s, i + 1)
    }
}

/// End of an attribute name starting at `i`: the first `=` or whitespace.
pub open spec fn key_end(s: Seq<char>, i: int) -> int
    decreases s.len() - i,
{
    if i < 0 || i >= s.len() || s[i] == '=' || ascii_ws(s[i]) {
        i
    } else {
        key_end(s, i + 1)
    }
}

/// First `"` at or after `i` (or the end).
pub open spec fn quote_at(s: Seq<char>, i: int) -> int
    decreases s.len() - i,
{
    if i < 0 || i >= s.len() || s[i] == '"' {
        i
    } else {
        quote_at(s, i + 1)
    }
}

pub proof fn lemma_scans(s: Seq<char>, i: int)
    requires
        0 <= i <= s.len(),
    ensures
        i <= skip_ws(s, i) <= s.len(),
        i <= key_end(s, i) <= s.len(),
        i <= quote_at(s, i) <= s.len(),
    decreases s.len() - i,
{
    if i < s.len() {
        lemma_scans(s, i + 1);
    }
}

/// `key="value"` pairs from `i` on; a name without `="..."` is passed over.
pub open spec fn attrs_from(s: Seq<char>, i: int) -> Seq<(Seq<char>, Seq<char>)>
    decreases s.len() - i,
{
    if i < 0 || i > s.len() {
        Seq::empty()
    } else {
        let i1 = skip_ws(s, i);
        proof { lemma_scans(s, i); }
        if i1 >= s.len() {
            Seq::empty()
        } else {
            let ke = key_end(s, i1);
            proof { lemma_scans(s, i1); }
            if ke == i1 {
                Seq::empty()
            } else {
                let key = s.subrange(i1, ke);
                let i2 = skip_ws(s, ke);
                proof { lemma_scans(s, ke); }
                if i2 >= s.len() || s[i2] != '=' {
                    attrs_from(s, i2)
                } else {
                    let i3 = skip_ws(s, i2 + 1);
                    proof { lemma_scans(s, i2 + 1); }
                    if i3 >= s.len() || s[i3] != '"' {
                        attrs_from(s, i3)
                    } else {
                        let ve = quote_at(s, i3 + 1);
                        proof { lemma_scans(s, i3 + 1); }
                        let next = if ve < s.len() { ve + 1 } else { ve };
                        seq![(key, s.subrange(i3 + 1, ve))] + attrs_from(s, next)
                    }
                }
            }
        }
    }
}

/// The attributes of an `mxCell` that matter here.
pub ghost struct CellV {
    pub id: Seq<char>,
    pub value: Seq<char>,
    pub style: Seq<char>,
    pub vertex: bool,
    pub edge: bool,
    pub source: Seq<char>,
    pub target: Seq<char>,
}

pub open spec fn empty_cell() -> CellV {
    CellV {
        id: Seq::empty(),
        value: Seq::empty(),
        style: Seq::empty(),
        vertex: false,
        edge: false,
        source: Seq::empty(),
        target: Seq::empty(),
    }
}

pub open spec fn set_attr(c: CellV, k: Seq<char>, v: Seq<char>) -> CellV {
    if k == "id"@ {
        CellV { id: v, ..c }
    } else if k == "value"@ {
        CellV { value: v, ..c }
    } else if k == "style"@ {
        CellV { style: v, ..c }
    } else if k == "vertex"@ {
        CellV { vertex: v == "1"@, ..c }
    } else if k == "edge"@ {
        CellV { edge: v == "1"@, ..c }
    } else if k == "source"@ {
        CellV { source: v, ..c }
    } else if k == "target"@ {
        CellV { target: v, ..c }
    } else {
        c
    }
}

/// A cell from its attributes, later ones winning.
pub open spec fn cell_of(attrs: Seq<(Seq<char>, Seq<char>)>) -> CellV
    decreases attrs.len(),
{
    if attrs.len() == 0 {
        empty_cell()
    } else {
        set_attr(cell_of(attrs.drop_last()), attrs.last().0, attrs.last().1)
    }
}

pub open spec fn trim_end_slashes(s: Seq<char>) -> Seq<char>
    decreases s.len(),
{
    if s.len() > 0 && s.last() == '/' {
        trim_end_slashes(s.drop_last())
    } else {
        s
    }
}

/// The vertex and edge cells of a page from `pos` on.
pub open spec fn cells_from(b: Seq<char>, pos: int) -> Seq<CellV>
    decreases b.len() - pos,
{
    if pos < 0 || pos > b.len() {
        Seq::empty()
    } else {
        match find_from(b, "<mxCell"@, pos) {
            None => Seq::empty(),
            Some(p) => {
                let a = p + 7;
                match find_char_from(b, '>', a) {
                    None => Seq::empty(),
                    Some(te) => if pos < te + 1 <= b.len() {
                        let cell = cell_of(attrs_from(trim(trim_end_slashes(b.subrange(a, te))), 0));
                        (if cell.vertex || cell.edge { seq![cell] } else { Seq::empty() }) + cells_from(b, te + 1)
                    } else {
                        Seq::empty()
                    },
                }
            },
        }
    }
}

pub open spec fn has_text(s: Seq<char>, p: Seq<char>) -> bool {
    find(s, p) is Some
}

/// Node shape from a cell style.
pub open spec fn style_shape(st: Seq<char>) -> NodeShape {
    if has_text(st, "rhombus"@) {
        NodeShape::Diamond
    } else if has_text(st, "ellipse"@) {
        NodeShape::Circle
    } else if has_text(st, "shape=cylinder"@) {
        NodeShape::Cylinder
    } else if has_text(st, "shape=hexagon"@) {
        NodeShape::Hexagon
    } else if has_text(st, "rounded=1"@) {
        NodeShape::Stadium
    } else {
        NodeShape::Rect
    }
}

/// Edge style from a cell style.
pub open spec fn style_edge(st: Seq<char>) -> EdgeStyle {
    if has_text(st, "dashed=1"@) {
        EdgeStyle::Dashed
    } else if has_text(st, "strokeWidth=3"@) || has_text(st, "strokeWidth=4"@) {
        EdgeStyle::Thick
    } else {
        EdgeStyle::Arrow
    }
}

/// XML entities resolved (`&amp;` last).
pub open spec fn decode_entities(s: Seq<char>) -> Seq<char> {
    replace_all(replace_all(replace_all(replace_all(replace_all(s, "&lt;"@, "<"@), "&gt;"@, ">"@), "&quot;"@, "\""@), "&apos;"@, "'"@), "&amp;"@, "&"@)
}

pub type FNodeV = (Seq<char>, Seq<char>, NodeShape);

pub type FEdgeV = (Seq<char>, Seq<char>, Seq<char>, EdgeStyle);

pub open spec fn has_node_id(ns: Seq<FNodeV>, id: Seq<char>) -> bool {
    exists|k: int| 0 <= k < ns.len() && (#[trigger] ns[k]).0 == id
}

/// Nodes of the first `n` cells: vertices other than the root cells `0` and
/// `1`, first occurrence of an id only.
pub open spec fn page_nodes(cells: Seq<CellV>, n: int) -> Seq<FNodeV>
    decreases n,
{
    if n <= 0 {
        Seq::empty()
    } else {
        let prev = page_nodes(cells, n - 1);
        let c = cells[n - 1];
        if c.vertex && c.id.len() > 0 && c.id != "0"@ && c.id != "1"@ && !has_node_id(prev, c.id) {
            prev.push((c.id, decode_entities(c.value), style_shape(c.style)))
        } else {
            prev
        }
    }
}

/// Edges of the first `n` cells whose ends are nodes of the page.
pub open spec fn page_edges(cells: Seq<CellV>, n: int, ns: Seq<FNodeV>) -> Seq<FEdgeV>
    decreases n,
{
    if n <= 0 {
        Seq::empty()
    } else {
        let prev = page_edges(cells, n - 1, ns);
        let c = cells[n - 1];
        if c.edge && c.source.len() > 0 && c.target.len() > 0 && has_node_id(ns, c.source) && has_node_id(ns, c.target) {
            prev.push((c.source, c.target, decode_entities(c.value), style_edge(c.style)))
        } else {
            prev
        }
    }
}

/// The graph of one page, if it has nodes.
pub open spec fn page_graph(block: Seq<char>) -> Option<(Seq<FNodeV>, Seq<FEdgeV>)> {
    let cells = cells_from(block, 0);
    let ns = page_nodes(cells, cells.len() as int);
    if ns.len() == 0 {
        None
    } else {
        Some((ns, page_edges(cells, cells.len() as int, ns)))
    }
}

/// The graphs of the first `n` pages that have nodes.
pub open spec fn page_graphs(bs: Seq<Seq<char>>, n: int) -> Seq<(Seq<FNodeV>, Seq<FEdgeV>)>
    decreases n,
{
    if n <= 0 {
        Seq::empty()
    } else {
        match page_graph(bs[n - 1]) {
            Some(g) => page_graphs(bs, n - 1).push(g),
            None => page_graphs(bs, n - 1),
        }
    }
}

/// What reading a draw.io file gives: one graph per page with nodes.
pub open spec fn drawio_parse(src: Seq<char>) -> Result<Seq<(Seq<FNodeV>, Seq<FEdgeV>)>, Seq<char>> {
    let bs = diagram_blocks(src);
    let gs = page_graphs(bs, bs.len() as int);
    if gs.len() == 0 {
        Err("draw.io source has no <diagram> pages with vertex/edge cells"@)
    } else {
        Ok(gs)
    }
}

/// `d` is the top-down flowchart with exactly these nodes and edges.
pub open spec fn is_page_of(d: FcDiagram, g: (Seq<FNodeV>, Seq<FEdgeV>)) -> bool {
    &&& d.rankdir@ == "TD"@
    &&& d.nodes@.len() == g.0.len()
    &&& forall|k: int| 0 <= k < g.0.len() ==> {
        let n = #[trigger] d.nodes@[k];
        n.id@ == g.0[k].0 && n.text@ == g.0[k].1 && n.shape == g.0[k].2 && n.href is None && n.tooltip is None
    }
    &&& d.edges@.len() == g.1.len()
    &&& forall|k: int| 0 <= k < g.1.len() ==> {
        let e = #[trigger] d.edges@[k];
        e.from@ == g.1[k].0 && e.to@ == g.1[k].1 && e.label@ == g.1[k].2 && e.style == g.1[k].3
    }
    &&& d.subgraphs@.len() == 0
    &&& d.styles@.len() == 0
    &&& d.class_defs@.len() == 0
    &&& d.class_applies@.len() == 0
    &&& d.link_styles@.len() == 0
}


fn blocks_exec(s: &[char]) -> (r: Vec<Vec<char>>)
    ensures
        seqs(r@) == diagram_blocks(s@),
{
    let open = chars_of("<diagram");
    let close = chars_of("</diagram>");
    proof {
        reveal_strlit("<diagram");
        reveal_strlit("</diagram>");
    }
    let n = s.len();
    let mut r: Vec<Vec<char>> = Vec::new();
    let mut cursor: usize = 0;
    let mut done = false;
    assert(seqs(r@) + blocks_from(s@, 0) =~= blocks_from(s@, 0));
    while !done
        invariant
            n == s@.len(),
            open@ == "<diagram"@,
            close@ == "</diagram>"@,
            close@.len() == 10,
            cursor <= n,
            !done ==> seqs(r@) + blocks_from(s@, cursor as int) == blocks_from(s@, 0),
            done ==> seqs(r@) == blocks_from(s@, 0),
        decreases n - cursor + if done { 0int } else { 1int },
    {
        match find_slice_from(s, open.as_slice(), cursor) {
            None => {
                assert(seqs(r@) + blocks_from(s@, cursor as int) =~= seqs(r@));
                done = true;
            },
            Some(start) => {
                proof { lemma_find_from(s@, open@, cursor as int); }
                match find_char_slice_from(s, '>', start) {
                    None => {
                        assert(seqs(r@) + blocks_from(s@, cursor as int) =~= seqs(r@));
                        done = true;
                    },
                    Some(p) => {
                        proof { lemma_find_char_from(s@, '>', start as int); }
                        let tag_end = p + 1;
                        match find_slice_from(s, close.as_slice(), tag_end) {
                            Some(end) => {
                                proof { lemma_find_from(s@, close@, tag_end as int); }
                                let ghost before = seqs(r@);
                                r.push(slice_to_vec(&s[tag_end..end]));
                                assert(seqs(r@) =~= before.push(s@.subrange(tag_end as int, end as int)));
                                assert(seqs(r@) + blocks_from(s@, end + 10) =~= before + blocks_from(s@, cursor as int));
                                cursor = end + 10;
                            },
                            None => {
                                let ghost before = seqs(r@);
                                r.push(slice_to_vec(&s[tag_end..n]));
                                assert(seqs(r@) =~= before + blocks_from(s@, cursor as int));
                                done = true;
                            },
                        }
                    },
                }
            },
        }
    }
    if r.len() == 0 && find_slice(s, chars_of("<mxGraphModel").as_slice()).is_some() {
        let mut one: Vec<Vec<char>> = Vec::new();
        one.push(slice_to_vec(s));
        assert(seqs(one@) =~= seq![s@]);
        return one;
    }
    r
}

fn skip_ws_exec(s: &[char], i: usize) -> (j: usize)
    requires
        i <= s@.len(),
    ensures
        j as int == skip_ws(s@, i as int),
{
    let mut j = i;
    while j < s.len() && (s[j] == ' ' || s[j] == '\t' || s[j] == '\n' || s[j] == '\x0C' || s[j] == '\r')
        invariant
            i <= j <= s@.len(),
            skip_ws(s@, i as int) == skip_ws(s@, j as int),
        decreases s@.len() - j,
    {
        j = j + 1;
    }
    j
}

fn key_end_exec(s: &[char], i: usize) -> (j: usize)
    requires
        i <= s@.len(),
    ensures
        j as int == key_end(s@, i as int),
{
    let mut j = i;
    while j < s.len() && !(s[j] == '=' || s[j] == ' ' || s[j] == '\t' || s[j] == '\n' || s[j] == '\x0C' || s[j] == '\r')
        invariant
            i <= j <= s@.len(),
            key_end(s@, i as int) == key_end(s@, j as int),
        decreases s@.len() - j,
    {
        j = j + 1;
    }
    j
}

fn quote_at_exec(s: &[char], i: usize) -> (j: usize)
    requires
        i <= s@.len(),
    ensures
        j as int == quote_at(s@, i as int),
{
    let mut j = i;
    while j < s.len() && s[j] != '"'
        invariant
            i <= j <= s@.len(),
            quote_at(s@, i as int) == quote_at(s@, j as int),
        decreases s@.len() - j,
    {
        j = j + 1;
    }
    j
}

pub open spec fn pairs_v(v: Seq<(Vec<char>, Vec<char>)>) -> Seq<(Seq<char>, Seq<char>)> {
    Seq::new(v.len(), |k: int| (v[k].0@, v[k].1@))
}

fn attrs_exec(s: &[char]) -> (r: Vec<(Vec<char>, Vec<char>)>)
    ensures
        pairs_v(r@) == attrs_from(s@, 0),
{
    let n = s.len();
    let mut r: Vec<(Vec<char>, Vec<char>)> = Vec::new();
    let mut i: usize = 0;
    let mut done = false;
    assert(pairs_v(r@) + attrs_from(s@, 0) =~= attrs_from(s@, 0));
    while !done
        invariant
            n == s@.len(),
            i <= n,
            !done ==> pairs_v(r@) + attrs_from(s@, i as int) == attrs_from(s@, 0),
            done ==> pairs_v(r@) == attrs_from(s@, 0),
        decreases n - i + if done { 0int } else { 1int },
    {
        proof { lemma_scans(s@, i as int); }
        let i1 = skip_ws_exec(s, i);
        if i1 >= n {
            assert(pairs_v(r@) + attrs_from(s@, i as int) =~= pairs_v(r@));
            done = true;
        } else {
            proof { lemma_scans(s@, i1 as int); }
            let ke = key_end_exec(s, i1);
            if ke == i1 {
                assert(pairs_v(r@) + attrs_from(s@, i as int) =~= pairs_v(r@));
                done = true;
            } else {
                proof { lemma_scans(s@, ke as int); }
                let i2 = skip_ws_exec(s, ke);
                if i2 >= n || s[i2] != '=' {
                    i = i2;
                } else {
                    proof { lemma_scans(s@, i2 + 1); }
                    let i3 = skip_ws_exec(s, i2 + 1);
                    if i3 >= n || s[i3] != '"' {
                        i = i3;
                    } else {
                        proof { lemma_scans(s@, i3 + 1); }
                        let ve = quote_at_exec(s, i3 + 1);
                        let next = if ve < n { ve + 1 } else { ve };
                        let ghost before = pairs_v(r@);
                        let pair = (slice_to_vec(&s[i1..ke]), slice_to_vec(&s[i3 + 1..ve]));
                        r.push(pair);
                        assert(pairs_v(r@) =~= before.push((s@.subrange(i1 as int, ke as int), s@.subrange(i3 + 1, ve as int))));
                        assert(pairs_v(r@) + attrs_from(s@, next as int) =~= before + attrs_from(s@, i as int));
                        i = next;
                    }
                }
            }
        }
    }
    r
}

/// One parsed `mxCell`.
struct MxCell {
    id: Vec<char>,
    value: Vec<char>,
    style: Vec<char>,
    vertex: bool,
    edge: bool,
    source: Vec<char>,
    target: Vec<char>,
}

spec fn mx_v(c: MxCell) -> CellV {
    CellV {
        id: c.id@,
        value: c.value@,
        style: c.style@,
        vertex: c.vertex,
        edge: c.edge,
        source: c.source@,
        target: c.target@,
    }
}

fn cell_exec(attrs: &Vec<(Vec<char>, Vec<char>)>) -> (c: MxCell)
    ensures
        mx_v(c) == cell_of(pairs_v(attrs@)),
{
    let ghost av = pairs_v(attrs@);
    let mut c = MxCell {
        id: Vec::new(),
        value: Vec::new(),
        style: Vec::new(),
        vertex: false,
        edge: false,
        source: Vec::new(),
        target: Vec::new(),
    };
    assert(mx_v(c) =~= empty_cell());
    assert(av.take(0) =~= Seq::<(Seq<char>, Seq<char>)>::empty());
    let one = chars_of("1");
    let mut k: usize = 0;
    while k < attrs.len()
        invariant
            k <= attrs@.len(),
            av == pairs_v(attrs@),
            one@ == "1"@,
            mx_v(c) == cell_of(av.take(k as int)),
        decreases attrs@.len() - k,
    {
        assert(av.take(k + 1).drop_last() =~= av.take(k as int));
        let key = attrs[k].0.as_slice();
        let v = &attrs[k].1;
        let is = |w: &str| -> (b: bool)
            ensures
                b == (key@ == w@),
        {
            eq_slice(key, chars_of(w).as_slice())
        };
        if is("id") {
            c.id = slice_to_vec(v.as_slice());
        } else if is("value") {
            c.value = slice_to_vec(v.as_slice());
        } else if is("style") {
            c.style = slice_to_vec(v.as_slice());
        } else if is("vertex") {
            c.vertex = eq_slice(v.as_slice(), one.as_slice());
        } else if is("edge") {
            c.edge = eq_slice(v.as_slice(), one.as_slice());
        } else if is("source") {
            c.source = slice_to_vec(v.as_slice());
        } else if is("target") {
            c.target = slice_to_vec(v.as_slice());
        }
        k = k + 1;
    }
    assert(av.take(attrs@.len() as int) =~= av);
    c
}

fn trim_end_slashes_exec(s: &[char]) -> (r: &[char])
    ensures
        r@ == trim_end_slashes(s@),
{
    let mut j = s.len();
    assert(s@.subrange(0, j as int) =~= s@);
    while j > 0 && s[j - 1] == '/'
        invariant
            j <= s@.len(),
            trim_end_slashes(s@) == trim_end_slashes(s@.subrange(0, j as int)),
        decreases j,
    {
        assert(s@.subrange(0, j as int).drop_last() =~= s@.subrange(0, j - 1));
        j = j - 1;
    }
    &s[0..j]
}

spec fn cells_v(v: Seq<MxCell>) -> Seq<CellV> {
    Seq::new(v.len(), |k: int| mx_v(v[k]))
}

fn cells_exec(b: &[char]) -> (r: Vec<MxCell>)
    ensures
        cells_v(r@) == cells_from(b@, 0),
{
    let pat = chars_of("<mxCell");
    proof { reveal_strlit("<mxCell"); }
    let n = b.len();
    let mut r: Vec<MxCell> = Vec::new();
    let mut pos: usize = 0;
    let mut done = false;
    assert(cells_v(r@) + cells_from(b@, 0) =~= cells_from(b@, 0));
    while !done
        invariant
            n == b@.len(),
            pat@ == "<mxCell"@,
            pat@.len() == 7,
            pos <= n,
            !done ==> cells_v(r@) + cells_from(b@, pos as int) == cells_from(b@, 0),
            done ==> cells_v(r@) == cells_from(b@, 0),
        decreases n - pos + if done { 0int } else { 1int },
    {
        match find_slice_from(b, pat.as_slice(), pos) {
            None => {
                assert(cells_v(r@) + cells_from(b@, pos as int) =~= cells_v(r@));
                done = true;
            },
            Some(p) => {
                proof { lemma_find_from(b@, pat@, pos as int); }
                let a = p + 7;
                match find_char_slice_from(b, '>', a) {
                    None => {
                        assert(cells_v(r@) + cells_from(b@, pos as int) =~= cells_v(r@));
                        done = true;
                    },
                    Some(te) => {
                        proof { lemma_find_char_from(b@, '>', a as int); }
                        let body = trim_slice(trim_end_slashes_exec(&b[a..te]));
                        let attrs = attrs_exec(body);
                        let cell = cell_exec(&attrs);
                        let ghost cv = mx_v(cell);
                        let ghost before = cells_v(r@);
                        if cell.vertex || cell.edge {
                            r.push(cell);
                            assert(cells_v(r@) =~= before.push(cv));
                        }
                        assert(cells_v(r@) + cells_from(b@, te + 1) =~= before + cells_from(b@, pos as int));
                        pos = te + 1;
                    },
                }
            },
        }
    }
    r
}

fn contains_exec(s: &[char], p: &str) -> (b: bool)
    ensures
        b == has_text(s@, p@),
{
    find_slice(s, chars_of(p).as_slice()).is_some()
}

fn style_shape_exec(st: &[char]) -> (r: NodeShape)
    ensures
        r == style_shape(st@),
{
    if contains_exec(st, "rhombus") {
        NodeShape::Diamond
    } else if contains_exec(st, "ellipse") {
        NodeShape::Circle
    } else if contains_exec(st, "shape=cylinder") {
        NodeShape::Cylinder
    } else if contains_exec(st, "shape=hexagon") {
        NodeShape::Hexagon
    } else if contains_exec(st, "rounded=1") {
        NodeShape::Stadium
    } else {
        NodeShape::Rect
    }
}

fn style_edge_exec(st: &[char]) -> (r: EdgeStyle)
    ensures
        r == style_edge(st@),
{
    if contains_exec(st, "dashed=1") {
        EdgeStyle::Dashed
    } else if contains_exec(st, "strokeWidth=3") || contains_exec(st, "strokeWidth=4") {
        EdgeStyle::Thick
    } else {
        EdgeStyle::Arrow
    }
}

fn decode_exec(s: &[char]) -> (r: String)
    ensures
        r@ == decode_entities(s@),
{
    let a = replace_all_exec(s, "&lt;", "<");
    let b = replace_all_exec(a.as_slice(), "&gt;", ">");
    let c = replace_all_exec(b.as_slice(), "&quot;", "\"");
    let d = replace_all_exec(c.as_slice(), "&apos;", "'");
    let e = replace_all_exec(d.as_slice(), "&amp;", "&");
    string_of(e.as_slice())
}


pub open spec fn nodes_fv(ns: Seq<Node>) -> Seq<FNodeV> {
    Seq::new(ns.len(), |k: int| (ns[k].id@, ns[k].text@, ns[k].shape))
}

pub open spec fn edges_fv(es: Seq<Edge>) -> Seq<FEdgeV> {
    Seq::new(es.len(), |k: int| (es[k].from@, es[k].to@, es[k].label@, es[k].style))
}

fn has_node_exec(ns: &Vec<Node>, id: &[char]) -> (b: bool)
    ensures
        b == has_node_id(nodes_fv(ns@), id@),
{
    let mut k: usize = 0;
    while k < ns.len()
        invariant
            k <= ns@.len(),
            forall|j: int| 0 <= j < k ==> (#[trigger] nodes_fv(ns@)[j]).0 != id@,
        decreases ns@.len() - k,
    {
        let nid = chars_of(ns[k].id.as_str());
        if eq_slice(nid.as_slice(), id) {
            assert(nodes_fv(ns@)[k as int].0 == id@);
            return true;
        }
        k = k + 1;
    }
    false
}

/// The flowchart of one page, if it has nodes.
fn page_exec(block: &[char]) -> (r: Option<FcDiagram>)
    ensures
        match page_graph(block@) {
            Some(g) => r matches Some(d) && is_page_of(d, g),
            None => r is None,
        },
{
    let cells = cells_exec(block);
    let ghost cv = cells_v(cells@);
    let mut d = FcDiagram::new("TD");
    let zero = chars_of("0");
    let one = chars_of("1");
    let mut k: usize = 0;
    assert(nodes_fv(d.nodes@) =~= page_nodes(cv, 0));
    while k < cells.len()
        invariant
            k <= cells@.len(),
            cv == cells_v(cells@),
            zero@ == "0"@,
            one@ == "1"@,
            d.rankdir@ == "TD"@,
            nodes_fv(d.nodes@) == page_nodes(cv, k as int),
            forall|j: int| 0 <= j < d.nodes@.len() ==> (#[trigger] d.nodes@[j]).href is None && d.nodes@[j].tooltip is None,
            d.edges@.len() == 0,
            d.subgraphs@.len() == 0,
            d.styles@.len() == 0,
            d.class_defs@.len() == 0,
            d.class_applies@.len() == 0,
            d.link_styles@.len() == 0,
        decreases cells@.len() - k,
    {
        let c = &cells[k];
        assert(cv[k as int] == mx_v(*c));
        let idc = c.id.as_slice();
        if c.vertex && idc.len() > 0 && !eq_slice(idc, zero.as_slice()) && !eq_slice(idc, one.as_slice())
            && !has_node_exec(&d.nodes, idc) {
            let ghost before = nodes_fv(d.nodes@);
            let node = Node {
                id: string_of(idc),
                text: decode_exec(c.value.as_slice()),
                shape: style_shape_exec(c.style.as_slice()),
                href: None,
                tooltip: None,
            };
            d.nodes.push(node);
            assert(nodes_fv(d.nodes@) =~= before.push((c.id@, decode_entities(c.value@), style_shape(c.style@))));
        }
        k = k + 1;
    }
    if d.nodes.len() == 0 {
        return None;
    }
    let ghost ns = page_nodes(cv, cv.len() as int);
    let mut k: usize = 0;
    assert(edges_fv(d.edges@) =~= page_edges(cv, 0, ns));
    while k < cells.len()
        invariant
            k <= cells@.len(),
            cv == cells_v(cells@),
            ns == page_nodes(cv, cv.len() as int),
            d.rankdir@ == "TD"@,
            nodes_fv(d.nodes@) == ns,
            forall|j: int| 0 <= j < d.nodes@.len() ==> (#[trigger] d.nodes@[j]).href is None && d.nodes@[j].tooltip is None,
            edges_fv(d.edges@) == page_edges(cv, k as int, ns),
            d.subgraphs@.len() == 0,
            d.styles@.len() == 0,
            d.class_defs@.len() == 0,
            d.class_applies@.len() == 0,
            d.link_styles@.len() == 0,
        decreases cells@.len() - k,
    {
        let c = &cells[k];
        assert(cv[k as int] == mx_v(*c));
        let sc = c.source.as_slice();
        let tc = c.target.as_slice();
        if c.edge && sc.len() > 0 && tc.len() > 0 && has_node_exec(&d.nodes, sc) && has_node_exec(&d.nodes, tc) {
            let ghost before = edges_fv(d.edges@);
            let e = Edge {
                from: string_of(sc),
                to: string_of(tc),
                label: decode_exec(c.value.as_slice()),
                style: style_edge_exec(c.style.as_slice()),
            };
            d.edges.push(e);
            assert(edges_fv(d.edges@) =~= before.push((c.source@, c.target@, decode_entities(c.value@), style_edge(c.style@))));
        }
        k = k + 1;
    }
    Some(d)
}

/// Read a draw.io file: one flowchart per page with nodes.
pub fn parse(source: &str) -> (r: Result<Vec<FcDiagram>, IrError>)
    ensures
        match drawio_parse(source@) {
            Ok(gs) => r matches Ok(ds) && ds@.len() == gs.len()
                && forall|k: int| 0 <= k < gs.len() ==> is_page_of(#[trigger] ds@[k], gs[k]),
            Err(m) => r matches Err(e) && e.message@ == m,
        },
{
    let cs = chars_of(source);
    let bs = blocks_exec(cs.as_slice());
    let ghost bv = seqs(bs@);
    let mut ds: Vec<FcDiagram> = Vec::new();
    let mut k: usize = 0;
    while k < bs.len()
        invariant
            k <= bs@.len(),
            bv == seqs(bs@),
            bv == diagram_blocks(source@),
            ds@.len() == page_graphs(bv, k as int).len(),
            forall|j: int| 0 <= j < ds@.len() ==> is_page_of(#[trigger] ds@[j], page_graphs(bv, k as int)[j]),
        decreases bs@.len() - k,
    {
        assert(bv[k as int] == bs@[k as int]@);
        match page_exec(bs[k].as_slice()) {
            Some(d) => {
                ds.push(d);
            },
            None => {},
        }
        k = k + 1;
    }
    if ds.len() == 0 {
        return Err(IrError::new("draw.io source has no <diagram> pages with vertex/edge cells"));
    }
    Ok(ds)
}

/// Read a draw.io file into a document of flowcharts, one per page.
pub fn parse_to_document(source: &str) -> (r: Result<Document, IrError>)
    ensures
        match drawio_parse(source@) {
            Ok(gs) => r matches Ok(doc) && doc.version == CURRENT_VERSION && doc.diagrams@.len() == gs.len()
                && forall|k: int| 0 <= k < gs.len() ==> (#[trigger] doc.diagrams@[k] matches Diagram::Flowchart(d) && is_page_of(d, gs[k])),
            Err(m) => r matches Err(e) && e.message@ == m,
        },
{
    let cs = chars_of(source);
    let bs = blocks_exec(cs.as_slice());
    let ghost bv = seqs(bs@);
    let mut ds: Vec<Diagram> = Vec::new();
    let mut k: usize = 0;
    while k < bs.len()
        invariant
            k <= bs@.len(),
            bv == seqs(bs@),
            bv == diagram_blocks(source@),
            ds@.len() == page_graphs(bv, k as int).len(),
            forall|j: int| 0 <= j < ds@.len() ==> (#[trigger] ds@[j] matches Diagram::Flowchart(d) && is_page_of(d, page_graphs(bv, k as int)[j])),
        decreases bs@.len() - k,
    {
        assert(bv[k as int] == bs@[k as int]@);
        match page_exec(bs[k].as_slice()) {
            Some(d) => {
                ds.push(Diagram::Flowchart(d));
            },
            None => {},
        }
        k = k + 1;
    }
    if ds.len() == 0 {
        return Err(IrError::new("draw.io source has no <diagram> pages with vertex/edge cells"));
    }
    Ok(Document { version: CURRENT_VERSION, diagrams: ds })
}


// ---------------------------------------------------------------- writing

pub open spec fn xml_escape(s: Seq<char>) -> Seq<char> {
    replace_all(replace_all(replace_all(replace_all(s, "&"@, "&amp;"@), "<"@, "&lt;"@), ">"@, "&gt;"@), "\""@, "&quot;"@)
}

pub open spec fn shape_style(shape: NodeShape) -> Seq<char> {
    match shape {
        NodeShape::Rect => "rounded=0;whiteSpace=wrap;html=1;"@,
        NodeShape::Diamond => "rhombus;whiteSpace=wrap;html=1;"@,
        NodeShape::Stadium => "rounded=1;whiteSpace=wrap;html=1;"@,
        NodeShape::Hexagon => "shape=hexagon;whiteSpace=wrap;html=1;"@,
        NodeShape::Cylinder => "shape=cylinder;whiteSpace=wrap;html=1;"@,
        NodeShape::Circle => "ellipse;whiteSpace=wrap;html=1;"@,
    }
}

pub open spec fn edge_style_text(st: EdgeStyle) -> Seq<char> {
    match st {
        EdgeStyle::Arrow => "endArrow=classic;html=1;"@,
        EdgeStyle::Dashed => "endArrow=classic;html=1;dashed=1;"@,
        EdgeStyle::Thick => "endArrow=classic;html=1;strokeWidth=3;"@,
    }
}

/// Node `n` as a vertex cell laid out on a diagonal grid.
pub open spec fn node_cell(n: int, node: Node) -> Seq<char> {
    "        <mxCell id=\"n"@ + decimal(n as nat) + "\" value=\""@ + xml_escape(node.text@) + "\" style=\""@
        + shape_style(node.shape) + "\" vertex=\"1\" parent=\"1\">\n"@ + "          <mxGeometry x=\""@
        + decimal((n * 160) as nat) + "\" y=\""@ + decimal((n * 100) as nat)
        + "\" width=\"120\" height=\"60\" as=\"geometry\"/>\n"@ + "        </mxCell>\n"@
}

/// Edge ends: node cells `n<i>` when both ends are nodes, else the escaped ids.
pub open spec fn edge_ends(fc: FcDiagram, e: Edge) -> (Seq<char>, Seq<char>) {
    match (first(fc.nodes@, node_is(e.from@)), first(fc.nodes@, node_is(e.to@))) {
        (Some(a), Some(b)) => ("n"@ + decimal(a as nat), "n"@ + decimal(b as nat)),
        _ => (xml_escape(e.from@), xml_escape(e.to@)),
    }
}

pub open spec fn edge_cell(fc: FcDiagram, k: int, e: Edge) -> Seq<char> {
    let (src, tgt) = edge_ends(fc, e);
    "        <mxCell id=\"e"@ + decimal(k as nat) + "\" value=\""@ + xml_escape(e.label@) + "\" style=\""@
        + edge_style_text(e.style) + "\" edge=\"1\" parent=\"1\" source=\""@ + src + "\" target=\""@ + tgt + "\">\n"@
        + "          <mxGeometry relative=\"1\" as=\"geometry\"/>\n"@ + "        </mxCell>\n"@
}

pub open spec fn nodes_text(fc: FcDiagram, k: int) -> Seq<char>
    decreases k,
{
    if k <= 0 {
        Seq::empty()
    } else {
        nodes_text(fc, k - 1) + node_cell(k - 1, fc.nodes@[k - 1])
    }
}

pub open spec fn edges_text(fc: FcDiagram, k: int) -> Seq<char>
    decreases k,
{
    if k <= 0 {
        Seq::empty()
    } else {
        edges_text(fc, k - 1) + edge_cell(fc, k - 1, fc.edges@[k - 1])
    }
}

/// Diagram `i` of a document as one page.
pub open spec fn page_text(i: int, fc: FcDiagram) -> Seq<char> {
    "  <diagram id=\"d"@ + decimal(i as nat) + "\" name=\"diagram-"@ + decimal(i as nat) + "\">\n"@
        + "    <mxGraphModel>\n      <root>\n"@ + "        <mxCell id=\"0\"/>\n"@
        + "        <mxCell id=\"1\" parent=\"0\"/>\n"@ + nodes_text(fc, fc.nodes@.len() as int)
        + edges_text(fc, fc.edges@.len() as int) + "      </root>\n    </mxGraphModel>\n  </diagram>\n"@
}

/// Pages of the flowcharts among the first `n` diagrams.
pub open spec fn pages_text(ds: Seq<Diagram>, n: int) -> Seq<char>
    decreases n,
{
    if n <= 0 {
        Seq::empty()
    } else {
        pages_text(ds, n - 1) + match ds[n - 1] {
            Diagram::Flowchart(fc) => page_text(n - 1, fc),
            _ => Seq::empty(),
        }
    }
}

/// draw.io text of a document: one page per flowchart.
pub open spec fn drawio_text(ds: Seq<Diagram>) -> Result<Seq<char>, Seq<char>> {
    if forall|i: int| 0 <= i < ds.len() ==> !(#[trigger] ds[i] is Flowchart) {
        Err("draw.io export supports flowchart diagrams only"@)
    } else {
        Ok("<mxfile>\n"@ + pages_text(ds, ds.len() as int) + "</mxfile>\n"@)
    }
}

fn xml_escape_exec(s: &str) -> (r: String)
    ensures
        r@ == xml_escape(s@),
{
    let c = chars_of(s);
    let a = replace_all_exec(c.as_slice(), "&", "&amp;");
    let b = replace_all_exec(a.as_slice(), "<", "&lt;");
    let d = replace_all_exec(b.as_slice(), ">", "&gt;");
    let e = replace_all_exec(d.as_slice(), "\"", "&quot;");
    string_of(e.as_slice())
}

fn node_cell_exec(out: &mut String, n: usize, node: &Node)
    ensures
        final(out)@ == old(out)@ + node_cell(n as int, *node),
{
    let ghost o0 = out@;
    out.append("        <mxCell id=\"n");
    push_decimal(out, n);
    out.append("\" value=\"");
    out.append(xml_escape_exec(node.text.as_str()).as_str());
    out.append("\" style=\"");
    out.append(match node.shape {
        NodeShape::Rect => "rounded=0;whiteSpace=wrap;html=1;",
        NodeShape::Diamond => "rhombus;whiteSpace=wrap;html=1;",
        NodeShape::Stadium => "rounded=1;whiteSpace=wrap;html=1;",
        NodeShape::Hexagon => "shape=hexagon;whiteSpace=wrap;html=1;",
        NodeShape::Cylinder => "shape=cylinder;whiteSpace=wrap;html=1;",
        NodeShape::Circle => "ellipse;whiteSpace=wrap;html=1;",
    });
    out.append("\" vertex=\"1\" parent=\"1\">\n");
    out.append("          <mxGeometry x=\"");
    let x = (n as u128) * 160;
    let y = (n as u128) * 100;
    push_decimal_u128(out, x);
    out.append("\" y=\"");
    push_decimal_u128(out, y);
    out.append("\" width=\"120\" height=\"60\" as=\"geometry\"/>\n");
    out.append("        </mxCell>\n");
    assert(out@ =~= o0 + node_cell(n as int, *node));
}

fn edge_cell_exec(out: &mut String, fc: &FcDiagram, k: usize, e: &Edge)
    ensures
        final(out)@ == old(out)@ + edge_cell(*fc, k as int, *e),
{
    let ghost o0 = out@;
    let a = find_node(&fc.nodes, e.from.as_str());
    let b = find_node(&fc.nodes, e.to.as_str());
    let (src, tgt) = match (a, b) {
        (Some(a), Some(b)) => {
            let mut s = string_from("n");
            push_decimal(&mut s, a);
            let mut t = string_from("n");
            push_decimal(&mut t, b);
            (s, t)
        },
        _ => (xml_escape_exec(e.from.as_str()), xml_escape_exec(e.to.as_str())),
    };
    assert((src@, tgt@) == edge_ends(*fc, *e));
    out.append("        <mxCell id=\"e");
    push_decimal(out, k);
    out.append("\" value=\"");
    out.append(xml_escape_exec(e.label.as_str()).as_str());
    out.append("\" style=\"");
    out.append(match e.style {
        EdgeStyle::Arrow => "endArrow=classic;html=1;",
        EdgeStyle::Dashed => "endArrow=classic;html=1;dashed=1;",
        EdgeStyle::Thick => "endArrow=classic;html=1;strokeWidth=3;",
    });
    out.append("\" edge=\"1\" parent=\"1\" source=\"");
    out.append(src.as_str());
    out.append("\" target=\"");
    out.append(tgt.as_str());
    out.append("\">\n");
    out.append("          <mxGeometry relative=\"1\" as=\"geometry\"/>\n");
    out.append("        </mxCell>\n");
    assert(out@ =~= o0 + edge_cell(*fc, k as int, *e));
}

fn page_text_exec(out: &mut String, i: usize, fc: &FcDiagram)
    ensures
        final(out)@ == old(out)@ + page_text(i as int, *fc),
{
    let ghost o0 = out@;
    out.append("  <diagram id=\"d");
    push_decimal(out, i);
    out.append("\" name=\"diagram-");
    push_decimal(out, i);
    out.append("\">\n");
    out.append("    <mxGraphModel>\n      <root>\n");
    out.append("        <mxCell id=\"0\"/>\n");
    out.append("        <mxCell id=\"1\" parent=\"0\"/>\n");
    let ghost o1 = out@;
    let mut k: usize = 0;
    while k < fc.nodes.len()
        invariant
            k <= fc.nodes@.len(),
            out@ == o1 + nodes_text(*fc, k as int),
        decreases fc.nodes@.len() - k,
    {
        node_cell_exec(out, k, &fc.nodes[k]);
        assert(out@ =~= o1 + nodes_text(*fc, k + 1));
        k = k + 1;
    }
    let ghost o2 = out@;
    let mut k: usize = 0;
    while k < fc.edges.len()
        invariant
            k <= fc.edges@.len(),
            out@ == o2 + edges_text(*fc, k as int),
        decreases fc.edges@.len() - k,
    {
        edge_cell_exec(out, fc, k, &fc.edges[k]);
        assert(out@ =~= o2 + edges_text(*fc, k + 1));
        k = k + 1;
    }
    out.append("      </root>\n    </mxGraphModel>\n  </diagram>\n");
    assert(out@ =~= o0 + page_text(i as int, *fc));
}

/// draw.io XML of a document (flowcharts only, one page each).
pub fn export_document(doc: &Document) -> (r: Result<String, IrError>)
    ensures
        match drawio_text(doc.diagrams@) {
            Ok(t) => r matches Ok(s) && s@ == t,
            Err(m) => r matches Err(e) && e.message@ == m,
        },
{
    let ds = &doc.diagrams;
    let n = ds.len();
    let mut any = false;
    let mut k: usize = 0;
    while k < n
        invariant
            k <= n == ds@.len(),
            any == exists|j: int| 0 <= j < k && (#[trigger] ds@[j] is Flowchart),
        decreases n - k,
    {
        if let Diagram::Flowchart(_) = &ds[k] {
            any = true;
        }
        k = k + 1;
    }
    if !any {
        return Err(IrError::new("draw.io export supports flowchart diagrams only"));
    }
    let mut out = string_from("<mxfile>\n");
    let ghost o0 = out@;
    let mut i: usize = 0;
    while i < n
        invariant
            i <= n == ds@.len(),
            ds@ == doc.diagrams@,
            out@ == o0 + pages_text(ds@, i as int),
        decreases n - i,
    {
        match &ds[i] {
            Diagram::Flowchart(fc) => page_text_exec(&mut out, i, fc),
            _ => {},
        }
        assert(out@ =~= o0 + pages_text(ds@, i + 1));
        i = i + 1;
    }
    out.append("</mxfile>\n");
    Ok(out)
}

proof fn lemma_has_at(s: Seq<char>, p: Seq<char>, k: int)
    requires
        occurs_at(s, p, k),
    ensures
        has_text(s, p),
{
    lemma_find_from(s, p, 0);
}

proof fn lemma_lacks_char(s: Seq<char>, p: Seq<char>, k: int)
    requires
        0 <= k < p.len(),
        forall|j: int| 0 <= j < s.len() ==> #[trigger] s[j] != p[k],
    ensures
        !has_text(s, p),
{
    assert forall|j: int| 0 <= j implies !occurs_at(s, p, j) by {
        if occurs_at(s, p, j) {
            assert(s.subrange(j, j + p.len())[k] == s[j + k]);
        }
    }
    lemma_find_from(s, p, 0);
}

proof fn lemma_lacks_pair(s: Seq<char>, p: Seq<char>, k: int)
    requires
        0 <= k && k + 1 < p.len(),
        forall|j: int| 0 <= j < s.len() - 1 ==> !(#[trigger] s[j] == p[k] && s[j + 1] == p[k + 1]),
    ensures
        !has_text(s, p),
{
    assert forall|j: int| 0 <= j implies !occurs_at(s, p, j) by {
        if occurs_at(s, p, j) {
            assert(s.subrange(j, j + p.len())[k] == s[j + k]);
            assert(s.subrange(j, j + p.len())[k + 1] == s[j + k + 1]);
        }
    }
    lemma_find_from(s, p, 0);
}

proof fn lemma_lacks_triple(s: Seq<char>, p: Seq<char>, k: int)
    requires
        0 <= k && k + 2 < p.len(),
        forall|j: int| 0 <= j < s.len() - 2 ==> !(#[trigger] s[j] == p[k] && s[j + 1] == p[k + 1] && s[j + 2] == p[k + 2]),
    ensures
        !has_text(s, p),
{
    assert forall|j: int| 0 <= j implies !occurs_at(s, p, j) by {
        if occurs_at(s, p, j) {
            assert(s.subrange(j, j + p.len())[k] == s[j + k]);
            assert(s.subrange(j, j + p.len())[k + 1] == s[j + k + 1]);
            assert(s.subrange(j, j + p.len())[k + 2] == s[j + k + 2]);
        }
    }
    lemma_find_from(s, p, 0);
}

/// Every node shape survives draw.io export and import: the reader takes
/// the style the writer gives a cell of that shape back to the same shape;
/// hexagons and cylinders are written as `shape=` and the Mermaid keyword of
/// that shape.
pub proof fn law_drawio_shape_reads_back(s: NodeShape)
    ensures
        style_shape(shape_style(s)) == s,
        s == NodeShape::Hexagon || s == NodeShape::Cylinder ==> exists|w: Seq<char>|
            crate::diagram::shape_keyword(w) == Some(s) && #[trigger] ("shape="@ + w).is_prefix_of(shape_style(s)),
{
    reveal_strlit("shape=");
    reveal_strlit("hexagon");
    reveal_strlit("cylinder");
    reveal_strlit("rect");
    reveal_strlit("rectangle");
    reveal_strlit("diamond");
    reveal_strlit("stadium");
    reveal_strlit("rounded=0;whiteSpace=wrap;html=1;");
    reveal_strlit("rhombus;whiteSpace=wrap;html=1;");
    reveal_strlit("rounded=1;whiteSpace=wrap;html=1;");
    reveal_strlit("shape=hexagon;whiteSpace=wrap;html=1;");
    reveal_strlit("shape=cylinder;whiteSpace=wrap;html=1;");
    reveal_strlit("ellipse;whiteSpace=wrap;html=1;");
    reveal_strlit("rhombus");
    reveal_strlit("ellipse");
    reveal_strlit("shape=cylinder");
    reveal_strlit("shape=hexagon");
    reveal_strlit("rounded=1");
    match s {
        NodeShape::Rect => {
            let st = "rounded=0;whiteSpace=wrap;html=1;"@;
            lemma_lacks_char(st, "rhombus"@, 4);
            lemma_lacks_pair(st, "ellipse"@, 1);
            lemma_lacks_char(st, "shape=cylinder"@, 7);
            lemma_lacks_char(st, "shape=hexagon"@, 8);
            lemma_lacks_triple(st, "rounded=1"@, 6);
        },
        NodeShape::Diamond => {
            let st = "rhombus;whiteSpace=wrap;html=1;"@;
            assert(st.subrange(0, 7) =~= "rhombus"@);
            lemma_has_at(st, "rhombus"@, 0);
        },
        NodeShape::Stadium => {
            let st = "rounded=1;whiteSpace=wrap;html=1;"@;
            lemma_lacks_char(st, "rhombus"@, 4);
            lemma_lacks_pair(st, "ellipse"@, 1);
            lemma_lacks_char(st, "shape=cylinder"@, 7);
            lemma_lacks_char(st, "shape=hexagon"@, 8);
            assert(st.subrange(0, 9) =~= "rounded=1"@);
            lemma_has_at(st, "rounded=1"@, 0);
        },
        NodeShape::Hexagon => {
            let st = "shape=hexagon;whiteSpace=wrap;html=1;"@;
            lemma_lacks_char(st, "rhombus"@, 4);
            lemma_lacks_pair(st, "ellipse"@, 1);
            lemma_lacks_char(st, "shape=cylinder"@, 7);
            assert(st.subrange(0, 13) =~= "shape=hexagon"@);
            lemma_has_at(st, "shape=hexagon"@, 0);
        },
        NodeShape::Cylinder => {
            let st = "shape=cylinder;whiteSpace=wrap;html=1;"@;
            lemma_lacks_char(st, "rhombus"@, 4);
            lemma_lacks_pair(st, "ellipse"@, 1);
            assert(st.subrange(0, 14) =~= "shape=cylinder"@);
            lemma_has_at(st, "shape=cylinder"@, 0);
        },
        NodeShape::Circle => {
            let st = "ellipse;whiteSpace=wrap;html=1;"@;
            lemma_lacks_char(st, "rhombus"@, 4);
            assert(st.subrange(0, 7) =~= "ellipse"@);
            lemma_has_at(st, "ellipse"@, 0);
        },
    }
    if s == NodeShape::Hexagon {
        let w = "hexagon"@;
        assert(w != "rect"@) by { assert(w.len() != "rect"@.len()); }
        assert(w != "rectangle"@) by { assert(w.len() != "rectangle"@.len()); }
        assert(w != "diamond"@) by { assert(w[0] != "diamond"@[0]); }
        assert(w != "stadium"@) by { assert(w[0] != "stadium"@[0]); }
        assert(shape_style(s).subrange(0, 13) =~= "shape="@ + w);
        assert(("shape="@ + w).is_prefix_of(shape_style(s)));
    }
    if s == NodeShape::Cylinder {
        let w = "cylinder"@;
        assert(w != "rect"@) by { assert(w.len() != "rect"@.len()); }
        assert(w != "rectangle"@) by { assert(w.len() != "rectangle"@.len()); }
        assert(w != "diamond"@) by { assert(w.len() != "diamond"@.len()); }
        assert(w != "stadium"@) by { assert(w.len() != "stadium"@.len()); }
        assert(w != "hexagon"@) by { assert(w.len() != "hexagon"@.len()); }
        assert(shape_style(s).subrange(0, 14) =~= "shape="@ + w);
        assert(("shape="@ + w).is_prefix_of(shape_style(s)));
    }
}

} // verus!
