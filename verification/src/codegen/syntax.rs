//! Syntax trees of source files: tree-sitter parses, the library reads a plain
//! copy of the tree.

use vstd::prelude::*;
use super::{CodeGenError, Language};
use crate::diagram::{has_node, Diagram as Flowchart, Edge, EdgeStyle, Node, NodeShape};
use crate::er::{str_lt, str_lt_exec};
use crate::text::{chars_of, first, first_from, lemma_first_from, str_eq, views};
use tree_sitter::Tree as TsTree;

verus! {

#[verifier::external_type_specification]
#[verifier::external_body]
pub struct ExTree(TsTree);

/// A node of a syntax tree: its grammar kind, its source text, the field
/// under which its parent holds it, and its children in order.
#[derive(Debug)]
pub struct SyntaxNode {
    pub kind: String,
    pub text: String,
    pub field: Option<String>,
    pub children: Vec<SyntaxNode>,
}

/// One node of a parsed tree, in pre-order: kind, field under its parent,
/// depth below the root, and start and end byte offsets in the source.
pub type Row = (Seq<char>, Option<Seq<char>>, int, int, int);

/// The nodes of a tree-sitter tree in pre-order (its descendants, the root
/// first).
pub uninterp spec fn tree_rows(t: TsTree) -> Seq<(Seq<char>, Option<Seq<char>>, int, int, int)>;

/// The pre-order nodes of the tree that the tree-sitter Rust grammar parses
/// from a source text.
pub uninterp spec fn rust_rows(source: Seq<char>) -> Seq<(Seq<char>, Option<Seq<char>>, int, int, int)>;

/// The pre-order nodes of the tree that the tree-sitter TypeScript grammar
/// parses from a source text.
pub uninterp spec fn typescript_rows(source: Seq<char>) -> Seq<(Seq<char>, Option<Seq<char>>, int, int, int)>;

/// How many bytes UTF-8 takes for a character.
pub open spec fn utf8_len(c: char) -> int {
    if (c as u32) < 0x80 {
        1
    } else if (c as u32) < 0x800 {
        2
    } else if (c as u32) < 0x10000 {
        3
    } else {
        4
    }
}

/// The byte offset in UTF-8 of the character at index `i`.
pub open spec fn byte_offset(s: Seq<char>, i: int) -> int
    decreases i,
{
    if i <= 0 || i > s.len() {
        0
    } else {
        byte_offset(s, i - 1) + utf8_len(s[i - 1])
    }
}

/// The text between two byte offsets of a string, where both lie on
/// character boundaries within it, the start not after the end (what
/// `str::get` gives for a byte range).
pub open spec fn byte_slice(s: Seq<char>, start: int, end: int) -> Option<Seq<char>> {
    if exists|i: int, j: int| 0 <= i <= j <= s.len() && byte_offset(s, i) == start && byte_offset(s, j) == end {
        let (i, j) = choose|i: int, j: int| 0 <= i <= j <= s.len() && byte_offset(s, i) == start && byte_offset(s, j) == end;
        Some(s.subrange(i, j))
    } else {
        None
    }
}

/// Parses `source` with the tree-sitter Rust grammar (`Parser::set_language`,
/// then `Parser::parse`). Claimed: a tree comes back, and its nodes are what
/// the grammar gives for this source (a parse depends on the text alone).
/// `set_language` fails only for a grammar whose ABI version lies outside
/// 13..=15 or that has no lexer; the bundled grammar has version 15 and a
/// lexer. `parse` gives `None` only where no language was set (its
/// documentation) or a progress callback cancels, and none is passed.
#[verifier::external_body]
fn parse_rust(source: &str) -> (r: Result<Option<TsTree>, String>)
    ensures
        match r {
            Ok(Some(t)) => tree_rows(t) == rust_rows(source@),
            _ => false,
        },
{
    let mut parser = tree_sitter::Parser::new();
    let lang: tree_sitter::Language = tree_sitter_rust::LANGUAGE.into();
    match parser.set_language(&lang) {
        Ok(()) => Ok(parser.parse(source.as_bytes(), None)),
        Err(e) => Err(format!("{e}")),
    }
}

/// As `parse_rust`, with the tree-sitter TypeScript grammar (ABI version 14,
/// with a lexer); the same claims.
#[verifier::external_body]
fn parse_typescript(source: &str) -> (r: Result<Option<TsTree>, String>)
    ensures
        match r {
            Ok(Some(t)) => tree_rows(t) == typescript_rows(source@),
            _ => false,
        },
{
    let mut parser = tree_sitter::Parser::new();
    let lang: tree_sitter::Language = tree_sitter_typescript::LANGUAGE_TYPESCRIPT.into();
    match parser.set_language(&lang) {
        Ok(()) => Ok(parser.parse(source.as_bytes(), None)),
        Err(e) => Err(format!("{e}")),
    }
}

/// `Node::descendant_count` of the root: the number of nodes of the tree,
/// the root included (so at least one).
#[verifier::external_body]
fn node_count(tree: &TsTree) -> (n: usize)
    ensures
        n == tree_rows(*tree).len(),
        n >= 1,
{
    tree.root_node().descendant_count()
}

/// The `i`-th node of the tree in pre-order: a `TreeCursor` moved there with
/// `goto_descendant`, then its node's `kind`, the cursor's `field_name` and
/// `depth`, and the node's `start_byte` and `end_byte`, copied.
#[verifier::external_body]
fn node_row(tree: &TsTree, i: usize) -> (r: (String, Option<String>, u32, usize, usize))
    requires
        i < tree_rows(*tree).len(),
    ensures
        (r.0@, field_view(r.1), r.2 as int, r.3 as int, r.4 as int) == tree_rows(*tree)[i as int],
{
    let mut cursor = tree.walk();
    cursor.goto_descendant(i);
    let node = cursor.node();
    (node.kind().to_string(), cursor.field_name().map(|f| f.to_string()), cursor.depth(), node.start_byte(), node.end_byte())
}

/// `str::get` with a byte range, copied: `None` where an end lies outside the
/// string or off a character boundary, or where `start > end`.
#[verifier::external_body]
fn str_get(s: &str, start: usize, end: usize) -> (r: Option<String>)
    ensures
        match r {
            Some(t) => byte_slice(s@, start as int, end as int) == Some(t@),
            None => byte_slice(s@, start as int, end as int) is None,
        },
        start > end ==> r is None,
{
    s.get(start..end).map(|t| t.to_string())
}

pub open spec fn field_view(o: Option<String>) -> Option<Seq<char>> {
    match o {
        Some(f) => Some(f@),
        None => None,
    }
}

/// The source text of a node; empty where its byte range does not cut the
/// source on character boundaries.
pub open spec fn row_text(src: Seq<char>, row: Row) -> Seq<char> {
    match byte_slice(src, row.3, row.4) {
        Some(t) => t,
        None => Seq::empty(),
    }
}

/// Where the subtree of row `i` ends: past its last descendant.
pub open spec fn node_end(rows: Seq<Row>, i: int) -> int
    decreases rows.len() - i, 0nat,
{
    if 0 <= i < rows.len() {
        kids_end(rows, i + 1, rows[i].2)
    } else {
        i + 1
    }
}

/// Where the children, from row `j` on, of a node at depth `d` end.
pub open spec fn kids_end(rows: Seq<Row>, j: int, d: int) -> int
    decreases rows.len() - j, 1nat,
{
    if 0 <= j < rows.len() && rows[j].2 > d {
        let k = node_end(rows, j);
        if j < k <= rows.len() {
            kids_end(rows, k, d)
        } else {
            rows.len() as int
        }
    } else {
        j
    }
}

/// The rows, from `j` on, at which the children of a node at depth `d` start.
pub open spec fn kid_starts(rows: Seq<Row>, j: int, d: int) -> Seq<int>
    decreases rows.len() - j,
{
    if 0 <= j < rows.len() && rows[j].2 > d {
        let k = node_end(rows, j);
        if j < k <= rows.len() {
            seq![j] + kid_starts(rows, k, d)
        } else {
            seq![j]
        }
    } else {
        Seq::empty()
    }
}

/// `t` is the node at row `i`, with its source text, and its children are the
/// rows' children, each copied in the same way.
pub open spec fn copied(t: SyntaxNode, rows: Seq<Row>, src: Seq<char>, i: int) -> bool
    decreases t, 1nat,
{
    &&& 0 <= i < rows.len()
    &&& t.kind@ == rows[i].0
    &&& field_view(t.field) == rows[i].1
    &&& t.text@ == row_text(src, rows[i])
    &&& copied_list(t.children@, rows, src, kid_starts(rows, i + 1, rows[i].2))
}

pub open spec fn copied_list(cs: Seq<SyntaxNode>, rows: Seq<Row>, src: Seq<char>, starts: Seq<int>) -> bool
    decreases cs, 0nat,
{
    &&& cs.len() == starts.len()
    &&& cs.len() > 0 ==> copied_list(cs.drop_last(), rows, src, starts.drop_last())
        && copied(cs.last(), rows, src, starts.last())
}

/// The nodes that `language`'s grammar parses from `source`.
pub open spec fn syntax_rows(language: Language, source: Seq<char>) -> Seq<Row> {
    match language {
        Language::Rust => rust_rows(source),
        Language::TypeScript => typescript_rows(source),
    }
}

/// `t` is the syntax tree of `source` in `language`.
pub open spec fn tree_of_source(t: SyntaxNode, language: Language, source: Seq<char>) -> bool {
    copied(t, syntax_rows(language, source), source, 0)
}

/// Two syntax trees with the same kinds, texts and fields, node by node, and
/// the same shape.
pub open spec fn same_tree(a: SyntaxNode, b: SyntaxNode) -> bool
    decreases a, 1nat,
{
    &&& a.kind@ == b.kind@
    &&& a.text@ == b.text@
    &&& field_view(a.field) == field_view(b.field)
    &&& same_list(a.children@, b.children@)
}

pub open spec fn same_list(xs: Seq<SyntaxNode>, ys: Seq<SyntaxNode>) -> bool
    decreases xs, 0nat,
{
    &&& xs.len() == ys.len()
    &&& xs.len() > 0 ==> same_list(xs.drop_last(), ys.drop_last()) && same_tree(xs.last(), ys.last())
}

proof fn lemma_copied_same(a: SyntaxNode, b: SyntaxNode, rows: Seq<Row>, src: Seq<char>, i: int)
    requires
        copied(a, rows, src, i),
        copied(b, rows, src, i),
    ensures
        same_tree(a, b),
    decreases a, 1nat,
{
    lemma_copied_list_same(a.children@, b.children@, rows, src, kid_starts(rows, i + 1, rows[i].2));
}

proof fn lemma_copied_list_same(xs: Seq<SyntaxNode>, ys: Seq<SyntaxNode>, rows: Seq<Row>, src: Seq<char>, starts: Seq<int>)
    requires
        copied_list(xs, rows, src, starts),
        copied_list(ys, rows, src, starts),
    ensures
        same_list(xs, ys),
    decreases xs, 0nat,
{
    if xs.len() > 0 {
        lemma_copied_list_same(xs.drop_last(), ys.drop_last(), rows, src, starts.drop_last());
        lemma_copied_same(xs.last(), ys.last(), rows, src, starts.last());
    }
}

/// A source text determines its syntax tree: two trees read from the same
/// text in the same language agree in every node's kind, text and field, and
/// in shape.
pub proof fn law_syntax_tree_deterministic(a: SyntaxNode, b: SyntaxNode, language: Language, source: Seq<char>)
    requires
        tree_of_source(a, language, source),
        tree_of_source(b, language, source),
    ensures
        same_tree(a, b),
{
    lemma_copied_same(a, b, syntax_rows(language, source), source, 0);
}

/// The text of a node's byte range, or the empty text.
fn text_between(src: &str, start: usize, end: usize) -> (r: String)
    ensures
        r@ == match byte_slice(src@, start as int, end as int) {
            Some(t) => t,
            None => Seq::empty(),
        },
{
    match str_get(src, start, end) {
        Some(t) => t,
        None => String::new(),
    }
}

/// A plain copy of the subtree at row `i`, and where that subtree ends.
fn copy_subtree(tree: &TsTree, src: &str, i: usize, count: usize) -> (r: (SyntaxNode, usize))
    requires
        count == tree_rows(*tree).len(),
        i < count,
    ensures
        copied(r.0, tree_rows(*tree), src@, i as int),
        r.1 == node_end(tree_rows(*tree), i as int),
    decreases count - i,
{
    let ghost rows = tree_rows(*tree);
    let (kind, field, depth, start, end) = node_row(tree, i);
    let text = text_between(src, start, end);
    let ghost d = depth as int;
    let mut children: Vec<SyntaxNode> = Vec::new();
    let ghost mut starts: Seq<int> = Seq::empty();
    let mut j: usize = i + 1;
    while j < count
        invariant_except_break
            j <= count,
        invariant
            i < j,
            count == rows.len(),
            rows == tree_rows(*tree),
            d == rows[i as int].2,
            depth as int == d,
            copied_list(children@, rows, src@, starts),
            starts + kid_starts(rows, j as int, d) == kid_starts(rows, i + 1, d),
            kids_end(rows, j as int, d) == kids_end(rows, i + 1, d),
        ensures
            j >= count || rows[j as int].2 <= d,
            j <= count,
            i < j,
            copied_list(children@, rows, src@, starts),
            starts + kid_starts(rows, j as int, d) == kid_starts(rows, i + 1, d),
            kids_end(rows, j as int, d) == kids_end(rows, i + 1, d),
        decreases count - j,
    {
        let (_k, _f, dj, _s, _e) = node_row(tree, j);
        if dj <= depth {
            break;
        }
        let (c, k) = copy_subtree(tree, src, j, count);
        let ghost prev = children@;
        children.push(c);
        proof {
            let s1 = starts.push(j as int);
            assert(children@.drop_last() =~= prev);
            assert(s1.drop_last() =~= starts);
            starts = s1;
        }
        if j < k && k <= count {
            proof {
                assert(kid_starts(rows, j as int, d) =~= seq![j as int] + kid_starts(rows, k as int, d));
                assert(starts + kid_starts(rows, k as int, d) =~= (starts.drop_last() + seq![j as int]) + kid_starts(rows, k as int, d));
            }
            j = k;
        } else {
            proof {
                assert(kid_starts(rows, j as int, d) =~= seq![j as int]);
                assert(starts + kid_starts(rows, count as int, d) =~= starts.drop_last() + seq![j as int]);
            }
            j = count;
        }
    }
    proof {
        assert(kid_starts(rows, j as int, d) =~= Seq::<int>::empty());
        assert(starts =~= kid_starts(rows, i + 1, d));
    }
    (SyntaxNode { kind, text, field, children }, j)
}

/// The syntax tree of a source file in `language`. The bundled grammars load
/// and parse every source, so a tree always comes back: the copy of every
/// node of the tree the grammar parses from `source`, with its source text.
pub fn syntax_tree(source: &str, language: Language) -> (r: Result<SyntaxNode, CodeGenError>)
    ensures
        r matches Ok(t) && tree_of_source(t, language, source@),
{
    let parsed = match language {
        Language::Rust => parse_rust(source),
        Language::TypeScript => parse_typescript(source),
    };
    let name = match language {
        Language::Rust => "rust",
        Language::TypeScript => "typescript",
    };
    match parsed {
        Err(e) => {
            let mut m = crate::text::string_from("failed to set tree-sitter ");
            m.append(name);
            m.append(" language: ");
            m.append(e.as_str());
            Err(CodeGenError { message: m })
        },
        Ok(None) => {
            let mut m = crate::text::string_from("tree-sitter failed to parse ");
            m.append(name);
            m.append(" source");
            Err(CodeGenError { message: m })
        },
        Ok(Some(tree)) => {
            let count = node_count(&tree);
            let (t, _end) = copy_subtree(&tree, source, 0, count);
            Ok(t)
        },
    }
}

// ---------------------------------------------------------------- reading

/// The first child of kind `k`.
pub open spec fn child_of_kind(n: SyntaxNode, k: Seq<char>) -> Option<SyntaxNode> {
    match first(n.children@, |c: SyntaxNode| c.kind@ == k) {
        Some(i) => Some(n.children@[i]),
        None => None,
    }
}

/// The text of the first child held under field `f`.
pub open spec fn field_text(n: SyntaxNode, f: Seq<char>) -> Option<Seq<char>> {
    match first(n.children@, |c: SyntaxNode| c.field matches Some(x) && x@ == f) {
        Some(i) => Some(n.children@[i].text@),
        None => None,
    }
}

/// `o`'s text, or `d` where there is none.
pub open spec fn or_text(o: Option<Seq<char>>, d: Seq<char>) -> Seq<char> {
    match o {
        Some(t) => t,
        None => d,
    }
}

pub fn child_by_kind<'a>(n: &'a SyntaxNode, k: &str) -> (r: Option<&'a SyntaxNode>)
    ensures
        match child_of_kind(*n, k@) {
            Some(c) => r == Some(&c),
            None => r is None,
        },
{
    let ghost p = |c: SyntaxNode| c.kind@ == k@;
    proof {
        lemma_first_from(n.children@, p, 0);
    }
    let mut i: usize = 0;
    while i < n.children.len()
        invariant
            i <= n.children@.len(),
            p == (|c: SyntaxNode| c.kind@ == k@),
            first(n.children@, p) == first_from(n.children@, p, i as int),
        decreases n.children@.len() - i,
    {
        if str_eq(n.children[i].kind.as_str(), k) {
            return Some(&n.children[i]);
        }
        i = i + 1;
    }
    None
}

pub fn field_text_of(n: &SyntaxNode, f: &str) -> (r: Option<String>)
    ensures
        match field_text(*n, f@) {
            Some(t) => r matches Some(s) && s@ == t,
            None => r is None,
        },
{
    let ghost p = |c: SyntaxNode| c.field matches Some(x) && x@ == f@;
    proof {
        lemma_first_from(n.children@, p, 0);
    }
    let mut i: usize = 0;
    while i < n.children.len()
        invariant
            i <= n.children@.len(),
            p == (|c: SyntaxNode| c.field matches Some(x) && x@ == f@),
            first(n.children@, p) == first_from(n.children@, p, i as int),
        decreases n.children@.len() - i,
    {
        let hit = match &n.children[i].field {
            Some(x) => str_eq(x.as_str(), f),
            None => false,
        };
        if hit {
            return Some(n.children[i].text.clone());
        }
        i = i + 1;
    }
    None
}

pub fn or_text_exec(o: Option<String>, d: &str) -> (r: String)
    ensures
        r@ == or_text(match o {
            Some(s) => Some(s@),
            None => None,
        }, d@),
{
    match o {
        Some(s) => s,
        None => crate::text::string_from(d),
    }
}

/// The first child held under field `f`.
pub open spec fn field_child(n: SyntaxNode, f: Seq<char>) -> Option<SyntaxNode> {
    match first(n.children@, |c: SyntaxNode| c.field matches Some(x) && x@ == f) {
        Some(i) => Some(n.children@[i]),
        None => None,
    }
}

pub fn field_child_of<'a>(n: &'a SyntaxNode, f: &str) -> (r: Option<&'a SyntaxNode>)
    ensures
        match field_child(*n, f@) {
            Some(c) => r == Some(&c),
            None => r is None,
        },
{
    let ghost p = |c: SyntaxNode| c.field matches Some(x) && x@ == f@;
    proof {
        lemma_first_from(n.children@, p, 0);
    }
    let mut i: usize = 0;
    while i < n.children.len()
        invariant
            i <= n.children@.len(),
            p == (|c: SyntaxNode| c.field matches Some(x) && x@ == f@),
            first(n.children@, p) == first_from(n.children@, p, i as int),
        decreases n.children@.len() - i,
    {
        let hit = match &n.children[i].field {
            Some(x) => str_eq(x.as_str(), f),
            None => false,
        };
        if hit {
            return Some(&n.children[i]);
        }
        i = i + 1;
    }
    None
}

// ---------------------------------------------------------------- building

/// A node as values: id, text, shape (no link, no tooltip).
pub type ItemNodeV = (Seq<char>, Seq<char>, NodeShape);

pub open spec fn item_node_v(n: Node) -> ItemNodeV {
    (n.id@, n.text@, n.shape)
}

pub open spec fn plain_node(n: Node) -> bool {
    n.href is None && n.tooltip is None
}

/// A flowchart of nodes and edges only: no subgraphs, styles, class
/// definitions, class statements or link styles, and no node link or
/// tooltip.
pub open spec fn bare_graph(d: Flowchart) -> bool {
    &&& d.subgraphs@.len() == 0
    &&& d.styles@.len() == 0
    &&& d.class_defs@.len() == 0
    &&& d.class_applies@.len() == 0
    &&& d.link_styles@.len() == 0
    &&& forall|k: int| 0 <= k < d.nodes@.len() ==> plain_node(#[trigger] d.nodes@[k])
}

/// `acc` followed by each node of `more` whose id is not taken yet.
pub open spec fn add_absent(acc: Seq<ItemNodeV>, more: Seq<ItemNodeV>) -> Seq<ItemNodeV>
    decreases more.len(),
{
    if more.len() == 0 {
        acc
    } else {
        let p = add_absent(acc, more.drop_last());
        if exists|k: int| 0 <= k < p.len() && (#[trigger] p[k]).0 == more.last().0 {
            p
        } else {
            p.push(more.last())
        }
    }
}

/// An edge as values: from, to, label, style.
pub type ItemEdgeV = (Seq<char>, Seq<char>, Seq<char>, EdgeStyle);

pub open spec fn item_edge_v(e: Edge) -> ItemEdgeV {
    (e.from@, e.to@, e.label@, e.style)
}

pub open spec fn graph_nodes(d: Flowchart) -> Seq<ItemNodeV> {
    Seq::new(d.nodes@.len(), |k: int| item_node_v(d.nodes@[k]))
}

pub open spec fn graph_edges(d: Flowchart) -> Seq<ItemEdgeV> {
    Seq::new(d.edges@.len(), |k: int| item_edge_v(d.edges@[k]))
}

/// Add a plain node unless its id is taken.
pub fn add_item_node(d: &mut Flowchart, id: String, text: String, shape: NodeShape)
    ensures
        graph_nodes(*final(d)) == add_absent(graph_nodes(*old(d)), seq![(id@, text@, shape)]),
        graph_edges(*final(d)) == graph_edges(*old(d)),
        final(d).rankdir == old(d).rankdir,
        (forall|k: int| 0 <= k < old(d).nodes@.len() ==> plain_node(#[trigger] old(d).nodes@[k]))
            ==> (forall|k: int| 0 <= k < final(d).nodes@.len() ==> plain_node(#[trigger] final(d).nodes@[k])),
        bare_graph(*old(d)) ==> bare_graph(*final(d)),
{
    let ghost before = graph_nodes(*d);
    let ghost v = (id@, text@, shape);
    let ghost nid = id@;
    let r = d.add_node(Node { id, text, shape, href: None, tooltip: None });
    proof {
        assert(seq![v].drop_last() =~= Seq::<ItemNodeV>::empty());
        assert(add_absent(before, seq![v].drop_last()) == before);
        if has_node(old(d).nodes@, nid) {
            let i = choose|i: int| 0 <= i < old(d).nodes@.len() && (#[trigger] old(d).nodes@[i]).id@ == nid;
            assert(before[i].0 == nid);
        } else {
            assert forall|k: int| 0 <= k < before.len() implies (#[trigger] before[k]).0 != nid by {
                assert(before[k].0 == old(d).nodes@[k].id@);
            }
            assert(graph_nodes(*d) =~= before.push(v));
        }
    }
}

/// Add an edge as it is.
pub fn push_item_edge(d: &mut Flowchart, from: String, to: String, label: String, style: EdgeStyle)
    ensures
        graph_edges(*final(d)) == graph_edges(*old(d)).push((from@, to@, label@, style)),
        graph_nodes(*final(d)) == graph_nodes(*old(d)),
        final(d).nodes == old(d).nodes,
        final(d).rankdir == old(d).rankdir,
        bare_graph(*old(d)) ==> bare_graph(*final(d)),
{
    let ghost before = graph_edges(*d);
    let ghost v = (from@, to@, label@, style);
    d.edges.push(Edge { from, to, label, style });
    assert(graph_edges(*d) =~= before.push(v));
}

// ---------------------------------------------------------------- names

/// `x` inserted into the ordered list `sorted` unless it is there already.
pub open spec fn ins_unique(sorted: Seq<Seq<char>>, x: Seq<char>) -> Seq<Seq<char>> {
    if sorted.contains(x) {
        sorted
    } else {
        match first(sorted, |y: Seq<char>| str_lt(x, y)) {
            Some(j) => sorted.insert(j, x),
            None => sorted.push(x),
        }
    }
}

/// The distinct names of `s` in the order of `String`.
pub open spec fn sort_unique(s: Seq<Seq<char>>) -> Seq<Seq<char>>
    decreases s.len(),
{
    if s.len() == 0 {
        Seq::empty()
    } else {
        ins_unique(sort_unique(s.drop_last()), s.last())
    }
}

pub fn sort_unique_exec(v: &Vec<String>) -> (r: Vec<String>)
    ensures
        views(r@) == sort_unique(views(v@)),
{
    let ghost all = views(v@);
    let mut sorted: Vec<String> = Vec::new();
    let mut k: usize = 0;
    assert(all.take(0) =~= Seq::<Seq<char>>::empty());
    while k < v.len()
        invariant
            k <= v@.len(),
            all == views(v@),
            views(sorted@) == sort_unique(all.take(k as int)),
        decreases v@.len() - k,
    {
        let x = &v[k];
        let ghost sv = views(sorted@);
        let ghost t1 = all.take(k + 1);
        proof {
            assert(t1.drop_last() =~= all.take(k as int));
            assert(t1.last() == x@);
        }
        if crate::graph_ops::contains_str(&sorted, x.as_str()) {
            assert(sort_unique(t1) == sv);
        } else {
            let ghost p = |y: Seq<char>| str_lt(x@, y);
            let xc = chars_of(x.as_str());
            let mut j: usize = 0;
            while j < sorted.len() && !str_lt_exec(xc.as_slice(), chars_of(sorted[j].as_str()).as_slice())
                invariant
                    j <= sorted@.len(),
                    sv == views(sorted@),
                    xc@ == x@,
                    p == (|y: Seq<char>| str_lt(x@, y)),
                    first(sv, p) == first_from(sv, p, j as int),
                decreases sorted@.len() - j,
            {
                assert(sv[j as int] == sorted@[j as int]@);
                j = j + 1;
            }
            proof {
                if j < sorted@.len() {
                    assert(sv[j as int] == sorted@[j as int]@);
                }
                lemma_first_from(sv, p, j as int);
                assert(sort_unique(t1) == ins_unique(sv, x@));
            }
            if j < sorted.len() {
                sorted.insert(j, x.clone());
                assert(views(sorted@) =~= sv.insert(j as int, x@));
            } else {
                sorted.push(x.clone());
                assert(views(sorted@) =~= sv.push(x@));
            }
        }
        k = k + 1;
    }
    assert(all.take(v@.len() as int) =~= all);
    sorted
}

} // verus!
