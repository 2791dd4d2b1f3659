//! Flowchart model: nodes, edges, subgraphs and styling, with editing
//! operations and Mermaid output.

use vstd::prelude::*;
pub use crate::graph_ops::DiagramDiff;
use crate::text::{
    flat, lemma_flat_step, lemma_flat_all, join, views, join_strings, push_decimal, decimal, trim, trim_slice, string_of,
    first, lemma_first_from, lemma_filter_step, lemma_filter_empty, clone_opt, concat3,
    chars_of, is_alphanumeric, alphanumeric, lowercase, push_char, str_eq, string_from, to_lowercase,
    all_ascii, ascii_lower,
};

verus! {

#[derive(Clone, Copy, Debug, PartialEq, Eq, Structural)]
pub enum NodeShape {
    Rect,
    Diamond,
    Stadium,
    Hexagon,
    Cylinder,
    Circle,
}

/// The shape named by a (lower-cased) keyword.
pub open spec fn shape_keyword(k: Seq<char>) -> Option<NodeShape> {
    if k == "rect"@ || k == "rectangle"@ {
        Some(NodeShape::Rect)
    } else if k == "diamond"@ {
        Some(NodeShape::Diamond)
    } else if k == "stadium"@ {
        Some(NodeShape::Stadium)
    } else if k == "hexagon"@ {
        Some(NodeShape::Hexagon)
    } else if k == "cylinder"@ {
        Some(NodeShape::Cylinder)
    } else if k == "circle"@ {
        Some(NodeShape::Circle)
    } else {
        None
    }
}

/// The keyword printed for a shape.
pub open spec fn shape_name(s: NodeShape) -> Seq<char> {
    match s {
        NodeShape::Rect => "rect"@,
        NodeShape::Diamond => "diamond"@,
        NodeShape::Stadium => "stadium"@,
        NodeShape::Hexagon => "hexagon"@,
        NodeShape::Cylinder => "cylinder"@,
        NodeShape::Circle => "circle"@,
    }
}

impl NodeShape {
    /// Shape from its name, case-insensitively.
    pub fn parse(s: &str) -> (r: Option<NodeShape>)
        ensures
            r == shape_keyword(lowercase(s@)),
            all_ascii(s@) ==> r == shape_keyword(s@.map_values(|c: char| ascii_lower(c))),
    {
        let lower = to_lowercase(s);
        let l = lower.as_str();
        if str_eq(l, "rect") || str_eq(l, "rectangle") {
            Some(NodeShape::Rect)
        } else if str_eq(l, "diamond") {
            Some(NodeShape::Diamond)
        } else if str_eq(l, "stadium") {
            Some(NodeShape::Stadium)
        } else if str_eq(l, "hexagon") {
            Some(NodeShape::Hexagon)
        } else if str_eq(l, "cylinder") {
            Some(NodeShape::Cylinder)
        } else if str_eq(l, "circle") {
            Some(NodeShape::Circle)
        } else {
            None
        }
    }

    /// The shape's name, as `Display` would print it.
    pub fn to_string(&self) -> (r: String)
        ensures
            r@ == shape_name(*self),
    {
        match self {
            NodeShape::Rect => string_from("rect"),
            NodeShape::Diamond => string_from("diamond"),
            NodeShape::Stadium => string_from("stadium"),
            NodeShape::Hexagon => string_from("hexagon"),
            NodeShape::Cylinder => string_from("cylinder"),
            NodeShape::Circle => string_from("circle"),
        }
    }
}

/// Every shape's printed name reads back as that shape, in any ASCII letter
/// case: lower-casing it gives the name again, and the name is a keyword of
/// the shape.
pub proof fn law_shape_name_parses(s: NodeShape)
    ensures
        all_ascii(shape_name(s)),
        shape_name(s).map_values(|c: char| ascii_lower(c)) == shape_name(s),
        shape_keyword(shape_name(s)) == Some(s),
{
    reveal_strlit("rect");
    reveal_strlit("rectangle");
    reveal_strlit("diamond");
    reveal_strlit("stadium");
    reveal_strlit("hexagon");
    reveal_strlit("cylinder");
    reveal_strlit("circle");
    assert(shape_name(s).map_values(|c: char| ascii_lower(c)) =~= shape_name(s));
    assert("rect"@[0] == 'r' && "rect"@[1] == 'e');
    assert("rectangle"@[0] == 'r' && "rectangle"@[1] == 'e');
    assert("diamond"@[0] == 'd' && "diamond"@[1] == 'i');
    assert("stadium"@[0] == 's' && "stadium"@[1] == 't');
    assert("hexagon"@[0] == 'h' && "hexagon"@[1] == 'e');
    assert("cylinder"@[0] == 'c' && "cylinder"@[1] == 'y');
    assert("circle"@[0] == 'c' && "circle"@[1] == 'i');
}

#[derive(Clone, Copy, Debug, PartialEq, Eq, Structural)]
pub enum EdgeStyle {
    Arrow,
    Dashed,
    Thick,
}

impl Default for EdgeStyle {
    fn default() -> (r: EdgeStyle)
        ensures
            r == EdgeStyle::Arrow,
    {
        EdgeStyle::Arrow
    }
}

/// The Mermaid arrow token of an edge style.
pub open spec fn arrow_text(s: EdgeStyle) -> Seq<char> {
    match s {
        EdgeStyle::Arrow => "-->"@,
        EdgeStyle::Dashed => "-.->"@,
        EdgeStyle::Thick => "==>"@,
    }
}

impl EdgeStyle {
    pub fn arrow_str(&self) -> (r: &'static str)
        ensures
            r@ == arrow_text(*self),
    {
        match self {
            EdgeStyle::Arrow => "-->",
            EdgeStyle::Dashed => "-.->",
            EdgeStyle::Thick => "==>",
        }
    }
}

#[derive(Clone, Debug)]
pub struct Node {
    pub id: String,
    pub text: String,
    pub shape: NodeShape,
    pub href: Option<String>,
    pub tooltip: Option<String>,
}

#[derive(Clone, Debug)]
pub struct Edge {
    pub from: String,
    pub to: String,
    pub label: String,
    pub style: EdgeStyle,
}

#[derive(Clone, Debug)]
pub struct Subgraph {
    pub id: String,
    pub nodes: Vec<String>,
}

#[derive(Clone, Debug)]
pub struct NodeStyle {
    pub node_id: String,
    pub properties: String,
}

#[derive(Clone, Debug)]
pub struct ClassDef {
    pub name: String,
    pub properties: String,
}

#[derive(Clone, Debug)]
pub struct ClassApply {
    pub node_ids: Vec<String>,
    pub class_name: String,
}

#[derive(Clone, Debug)]
pub struct LinkStyle {
    pub index: usize,
    pub properties: String,
}

#[derive(Clone, Debug)]
pub struct Diagram {
    pub rankdir: String,
    pub nodes: Vec<Node>,
    pub edges: Vec<Edge>,
    pub subgraphs: Vec<Subgraph>,
    pub styles: Vec<NodeStyle>,
    pub class_defs: Vec<ClassDef>,
    pub class_applies: Vec<ClassApply>,
    pub link_styles: Vec<LinkStyle>,
}

/// A character allowed in a bare Mermaid id.
pub open spec fn id_char(c: char) -> bool {
    alphanumeric(c) || c == '_'
}

/// Bare ids are non-empty words; other ids are quoted with `"` escaped.
pub open spec fn fmt_id(id: Seq<char>) -> Seq<char> {
    if id.len() > 0 && forall|i: int| 0 <= i < id.len() ==> id_char(#[trigger] id[i]) {
        id
    } else {
        seq!['"'] + escape_quotes(id) + seq!['"']
    }
}

/// Every `"` preceded by a backslash.
pub open spec fn escape_quotes(s: Seq<char>) -> Seq<char>
    decreases s.len(),
{
    if s.len() == 0 {
        Seq::empty()
    } else {
        escape_quotes(s.drop_last()) + (if s.last() == '"' {
            seq!['\\', '"']
        } else {
            seq![s.last()]
        })
    }
}

fn all_id_chars(s: &[char]) -> (b: bool)
    ensures
        b == forall|i: int| 0 <= i < s@.len() ==> id_char(#[trigger] s@[i]),
{
    let mut i: usize = 0;
    while i < s.len()
        invariant
            i <= s@.len(),
            forall|k: int| 0 <= k < i ==> id_char(#[trigger] s@[k]),
        decreases s@.len() - i,
    {
        let c = s[i];
        if !(is_alphanumeric(c) || c == '_') {
            return false;
        }
        i = i + 1;
    }
    true
}

/// Mermaid spelling of an id (`format_id`).
pub fn format_id(id: &str) -> (r: String)
    ensures
        r@ == fmt_id(id@),
{
    let cs = chars_of(id);
    if cs.len() > 0 && all_id_chars(cs.as_slice()) {
        return string_from(id);
    }
    let mut r = String::new();
    push_char(&mut r, '"');
    let mut i: usize = 0;
    while i < cs.len()
        invariant
            i <= cs@.len(),
            cs@ == id@,
            r@ == seq!['"'] + escape_quotes(cs@.take(i as int)),
        decreases cs@.len() - i,
    {
        let c = cs[i];
        proof {
            assert(cs@.take(i + 1).drop_last() =~= cs@.take(i as int));
        }
        if c == '"' {
            push_char(&mut r, '\\');
            push_char(&mut r, '"');
        } else {
            push_char(&mut r, c);
        }
        i = i + 1;
        assert(r@ =~= seq!['"'] + escape_quotes(cs@.take(i as int)));
    }
    push_char(&mut r, '"');
    assert(cs@.take(cs@.len() as int) =~= cs@);
    r
}


/// Copy of a node.
pub fn clone_node(n: &Node) -> (r: Node)
    ensures
        r == *n,
{
    Node {
        id: n.id.clone(),
        text: n.text.clone(),
        shape: n.shape,
        href: clone_opt(&n.href),
        tooltip: clone_opt(&n.tooltip),
    }
}

/// Copy of an edge.
pub fn clone_edge(e: &Edge) -> (r: Edge)
    ensures
        r == *e,
{
    Edge { from: e.from.clone(), to: e.to.clone(), label: e.label.clone(), style: e.style }
}

/// A node with this id.
pub open spec fn node_is(id: Seq<char>) -> spec_fn(Node) -> bool {
    |n: Node| n.id@ == id
}

/// An edge between these endpoints.
pub open spec fn edge_is(from: Seq<char>, to: Seq<char>) -> spec_fn(Edge) -> bool {
    |e: Edge| e.from@ == from && e.to@ == to
}

/// A node without this id.
pub open spec fn node_not(id: Seq<char>) -> spec_fn(Node) -> bool {
    |n: Node| n.id@ != id
}

/// An edge that does not touch this node.
pub open spec fn edge_avoids(id: Seq<char>) -> spec_fn(Edge) -> bool {
    |e: Edge| e.from@ != id && e.to@ != id
}

/// An edge not between these endpoints.
pub open spec fn edge_not(from: Seq<char>, to: Seq<char>) -> spec_fn(Edge) -> bool {
    |e: Edge| !(e.from@ == from && e.to@ == to)
}

/// Some node has this id.
pub open spec fn has_node(nodes: Seq<Node>, id: Seq<char>) -> bool {
    exists|i: int| 0 <= i < nodes.len() && (#[trigger] nodes[i]).id@ == id
}

/// Index of the first node with this id.
pub fn find_node(nodes: &Vec<Node>, id: &str) -> (r: Option<usize>)
    ensures
        r matches Some(k) ==> first(nodes@, node_is(id@)) == Some(k as int) && k < nodes@.len()
            && nodes@[k as int].id@ == id@,
        r is None ==> first(nodes@, node_is(id@)) is None,
{
    proof {
        lemma_first_from(nodes@, node_is(id@), 0);
    }
    let mut i: usize = 0;
    while i < nodes.len()
        invariant
            i <= nodes@.len(),
            first(nodes@, node_is(id@)) == crate::text::first_from(nodes@, node_is(id@), i as int),
        decreases nodes@.len() - i,
    {
        if str_eq(nodes[i].id.as_str(), id) {
            return Some(i);
        }
        i = i + 1;
    }
    None
}

/// Index of the first edge between these endpoints.
pub fn find_edge(edges: &Vec<Edge>, from: &str, to: &str) -> (r: Option<usize>)
    ensures
        r matches Some(k) ==> first(edges@, edge_is(from@, to@)) == Some(k as int) && k
            < edges@.len(),
        r is None ==> first(edges@, edge_is(from@, to@)) is None,
{
    proof {
        lemma_first_from(edges@, edge_is(from@, to@), 0);
    }
    let mut i: usize = 0;
    while i < edges.len()
        invariant
            i <= edges@.len(),
            first(edges@, edge_is(from@, to@)) == crate::text::first_from(
                edges@,
                edge_is(from@, to@),
                i as int,
            ),
        decreases edges@.len() - i,
    {
        if str_eq(edges[i].from.as_str(), from) && str_eq(edges[i].to.as_str(), to) {
            return Some(i);
        }
        i = i + 1;
    }
    None
}

proof fn lemma_has_node_first(nodes: Seq<Node>, id: Seq<char>)
    ensures
        has_node(nodes, id) <==> first(nodes, node_is(id)) is Some,
{
    lemma_first_from(nodes, node_is(id), 0);
    if has_node(nodes, id) {
        let i = choose|i: int| 0 <= i < nodes.len() && (#[trigger] nodes[i]).id@ == id;
        assert(node_is(id)(nodes[i]));
    }
    if let Some(k) = first(nodes, node_is(id)) {
        assert(nodes[k].id@ == id);
    }
}

/// Message for a node id that is already taken.
pub open spec fn exists_msg(id: Seq<char>) -> Seq<char> {
    "node '"@ + id + "' already exists"@
}

/// Message for a node id that is not there.
pub open spec fn missing_node_msg(id: Seq<char>) -> Seq<char> {
    "node '"@ + id + "' not found"@
}

/// Message for an edge that is not there.
pub open spec fn missing_edge_msg(from: Seq<char>, to: Seq<char>) -> Seq<char> {
    "edge '"@ + from + " -> "@ + to + "' not found"@
}

/// `a` and `b` differ at most in their nodes and edges.
pub open spec fn same_settings(a: Diagram, b: Diagram) -> bool {
    &&& a.rankdir == b.rankdir
    &&& a.subgraphs == b.subgraphs
    &&& a.styles == b.styles
    &&& a.class_defs == b.class_defs
    &&& a.class_applies == b.class_applies
    &&& a.link_styles == b.link_styles
}

impl Diagram {
    /// An empty diagram with the given direction.
    pub fn new(rankdir: &str) -> (d: Diagram)
        ensures
            d.rankdir@ == rankdir@,
            d.nodes@.len() == 0,
            d.edges@.len() == 0,
            d.subgraphs@.len() == 0,
            d.styles@.len() == 0,
            d.class_defs@.len() == 0,
            d.class_applies@.len() == 0,
            d.link_styles@.len() == 0,
    {
        Diagram {
            rankdir: string_from(rankdir),
            nodes: Vec::new(),
            edges: Vec::new(),
            subgraphs: Vec::new(),
            styles: Vec::new(),
            class_defs: Vec::new(),
            class_applies: Vec::new(),
            link_styles: Vec::new(),
        }
    }

    /// Add a node unless its id is taken.
    pub fn add_node(&mut self, node: Node) -> (r: Result<(), String>)
        ensures
            has_node(old(self).nodes@, node.id@) ==> (r matches Err(m) && m@ == exists_msg(node.id@)
                && *final(self) == *old(self)),
            !has_node(old(self).nodes@, node.id@) ==> r is Ok && final(self).nodes@ == old(
                self,
            ).nodes@.push(node) && final(self).edges == old(self).edges && same_settings(
                *final(self),
                *old(self),
            ),
    {
        proof {
            lemma_has_node_first(self.nodes@, node.id@);
        }
        if find_node(&self.nodes, node.id.as_str()).is_some() {
            return Err(concat3("node '", node.id.as_str(), "' already exists"));
        }
        self.nodes.push(node);
        Ok(())
    }

    /// Remove a node and every edge that touches it.
    pub fn remove_node(&mut self, id: &str)
        ensures
            final(self).nodes@ == old(self).nodes@.filter(node_not(id@)),
            final(self).edges@ == old(self).edges@.filter(edge_avoids(id@)),
            same_settings(*final(self), *old(self)),
    {
        let ghost pn = node_not(id@);
        let ghost pe = edge_avoids(id@);
        let mut nodes: Vec<Node> = Vec::new();
        let mut i: usize = 0;
        proof {
            lemma_filter_empty(self.nodes@, pn);
        }
        while i < self.nodes.len()
            invariant
                i <= self.nodes@.len(),
                pn == node_not(id@),
                nodes@ == self.nodes@.take(i as int).filter(pn),
            decreases self.nodes@.len() - i,
        {
            proof {
                lemma_filter_step(self.nodes@, pn, i as int);
            }
            if !str_eq(self.nodes[i].id.as_str(), id) {
                nodes.push(clone_node(&self.nodes[i]));
            }
            i = i + 1;
        }
        let mut edges: Vec<Edge> = Vec::new();
        let mut j: usize = 0;
        proof {
            lemma_filter_empty(self.edges@, pe);
        }
        while j < self.edges.len()
            invariant
                j <= self.edges@.len(),
                pe == edge_avoids(id@),
                edges@ == self.edges@.take(j as int).filter(pe),
            decreases self.edges@.len() - j,
        {
            proof {
                lemma_filter_step(self.edges@, pe, j as int);
            }
            if !str_eq(self.edges[j].from.as_str(), id) && !str_eq(self.edges[j].to.as_str(), id) {
                edges.push(clone_edge(&self.edges[j]));
            }
            j = j + 1;
        }
        proof {
            assert(self.nodes@.take(self.nodes@.len() as int) =~= self.nodes@);
            assert(self.edges@.take(self.edges@.len() as int) =~= self.edges@);
        }
        self.nodes = nodes;
        self.edges = edges;
    }

    /// Change the text and/or shape of the first node with this id.
    pub fn update_node(&mut self, id: &str, text: Option<&str>, shape: Option<NodeShape>) -> (r:
        Result<(), String>)
        ensures
            first(old(self).nodes@, node_is(id@)) matches Some(k) ==> {
                &&& r is Ok
                &&& final(self).nodes@.len() == old(self).nodes@.len()
                &&& forall|j: int|
                    0 <= j < old(self).nodes@.len() && j != k ==> final(self).nodes@[j] == old(
                        self,
                    ).nodes@[j]
                &&& final(self).nodes@[k].id == old(self).nodes@[k].id
                &&& final(self).nodes@[k].href == old(self).nodes@[k].href
                &&& final(self).nodes@[k].tooltip == old(self).nodes@[k].tooltip
                &&& final(self).nodes@[k].text@ == (match text {
                    Some(t) => t@,
                    None => old(self).nodes@[k].text@,
                })
                &&& final(self).nodes@[k].shape == (match shape {
                    Some(s) => s,
                    None => old(self).nodes@[k].shape,
                })
            },
            first(old(self).nodes@, node_is(id@)) is None ==> (r matches Err(m) && m@
                == missing_node_msg(id@) && *final(self) == *old(self)),
            final(self).edges == old(self).edges,
            same_settings(*final(self), *old(self)),
    {
        match find_node(&self.nodes, id) {
            None => Err(concat3("node '", id, "' not found")),
            Some(k) => {
                let mut n = clone_node(&self.nodes[k]);
                if let Some(t) = text {
                    n.text = string_from(t);
                }
                if let Some(s) = shape {
                    n.shape = s;
                }
                self.nodes.set(k, n);
                Ok(())
            },
        }
    }

    /// Add an edge between existing nodes.
    pub fn add_edge(&mut self, edge: Edge) -> (r: Result<(), String>)
        ensures
            !has_node(old(self).nodes@, edge.from@) ==> (r matches Err(m) && m@ == missing_node_msg(
                edge.from@,
            ) && *final(self) == *old(self)),
            has_node(old(self).nodes@, edge.from@) && !has_node(old(self).nodes@, edge.to@) ==> (r matches Err(m)
                && m@ == missing_node_msg(edge.to@) && *final(self) == *old(self)),
            has_node(old(self).nodes@, edge.from@) && has_node(old(self).nodes@, edge.to@) ==> r is Ok
                && final(self).edges@ == old(self).edges@.push(edge) && final(self).nodes == old(
                self,
            ).nodes && same_settings(*final(self), *old(self)),
    {
        proof {
            lemma_has_node_first(self.nodes@, edge.from@);
            lemma_has_node_first(self.nodes@, edge.to@);
        }
        if find_node(&self.nodes, edge.from.as_str()).is_none() {
            return Err(concat3("node '", edge.from.as_str(), "' not found"));
        }
        if find_node(&self.nodes, edge.to.as_str()).is_none() {
            return Err(concat3("node '", edge.to.as_str(), "' not found"));
        }
        self.edges.push(edge);
        Ok(())
    }

    /// Remove every edge between `from` and `to`; an error when there is none.
    pub fn remove_edge(&mut self, from: &str, to: &str) -> (r: Result<(), String>)
        ensures
            final(self).edges@ == old(self).edges@.filter(edge_not(from@, to@)),
            final(self).nodes == old(self).nodes,
            same_settings(*final(self), *old(self)),
            r is Ok <==> final(self).edges@.len() != old(self).edges@.len(),
            r matches Err(m) ==> m@ == missing_edge_msg(from@, to@),
    {
        let ghost pe = edge_not(from@, to@);
        let mut edges: Vec<Edge> = Vec::new();
        let mut j: usize = 0;
        proof {
            lemma_filter_empty(self.edges@, pe);
        }
        while j < self.edges.len()
            invariant
                j <= self.edges@.len(),
                pe == edge_not(from@, to@),
                edges@ == self.edges@.take(j as int).filter(pe),
            decreases self.edges@.len() - j,
        {
            proof {
                lemma_filter_step(self.edges@, pe, j as int);
            }
            if !(str_eq(self.edges[j].from.as_str(), from) && str_eq(self.edges[j].to.as_str(), to)) {
                edges.push(clone_edge(&self.edges[j]));
            }
            j = j + 1;
        }
        proof {
            assert(self.edges@.take(self.edges@.len() as int) =~= self.edges@);
        }
        let before = self.edges.len();
        self.edges = edges;
        if self.edges.len() == before {
            return Err(
                {
                    let mut m = concat3("edge '", from, " -> ");
                    m.append(to);
                    m.append("' not found");
                    m
                },
            );
        }
        Ok(())
    }

    /// Change the label and/or style of the first edge between `from` and `to`.
    pub fn update_edge(&mut self, from: &str, to: &str, label: Option<&str>, style: Option<EdgeStyle>) -> (r: Result<(), String>)
        ensures
            first(old(self).edges@, edge_is(from@, to@)) matches Some(k) ==> {
                &&& r is Ok
                &&& final(self).edges@.len() == old(self).edges@.len()
                &&& forall|j: int|
                    0 <= j < old(self).edges@.len() && j != k ==> final(self).edges@[j] == old(
                        self,
                    ).edges@[j]
                &&& final(self).edges@[k].from == old(self).edges@[k].from
                &&& final(self).edges@[k].to == old(self).edges@[k].to
                &&& final(self).edges@[k].label@ == (match label {
                    Some(t) => t@,
                    None => old(self).edges@[k].label@,
                })
                &&& final(self).edges@[k].style == (match style {
                    Some(s) => s,
                    None => old(self).edges@[k].style,
                })
            },
            first(old(self).edges@, edge_is(from@, to@)) is None ==> (r matches Err(m) && m@
                == missing_edge_msg(from@, to@) && *final(self) == *old(self)),
            final(self).nodes == old(self).nodes,
            same_settings(*final(self), *old(self)),
    {
        match find_edge(&self.edges, from, to) {
            None => {
                let mut m = concat3("edge '", from, " -> ");
                m.append(to);
                m.append("' not found");
                Err(m)
            },
            Some(k) => {
                let mut e = clone_edge(&self.edges[k]);
                if let Some(l) = label {
                    e.label = string_from(l);
                }
                if let Some(s) = style {
                    e.style = s;
                }
                self.edges.set(k, e);
                Ok(())
            },
        }
    }

    /// The first node with this id.
    pub fn get_node(&self, id: &str) -> (r: Option<&Node>)
        ensures
            r matches Some(n) ==> first(self.nodes@, node_is(id@)) matches Some(k) && *n
                == self.nodes@[k],
            r is None ==> first(self.nodes@, node_is(id@)) is None,
    {
        match find_node(&self.nodes, id) {
            Some(k) => Some(&self.nodes[k]),
            None => None,
        }
    }
}


/// The bracket pair that draws a shape.
pub open spec fn shape_open(s: NodeShape) -> Seq<char> {
    match s {
        NodeShape::Rect => "["@,
        NodeShape::Diamond => "{"@,
        NodeShape::Stadium => "("@,
        NodeShape::Hexagon => "{{"@,
        NodeShape::Cylinder => "[("@,
        NodeShape::Circle => "(("@,
    }
}

pub open spec fn shape_close(s: NodeShape) -> Seq<char> {
    match s {
        NodeShape::Rect => "]"@,
        NodeShape::Diamond => "}"@,
        NodeShape::Stadium => ")"@,
        NodeShape::Hexagon => "}}"@,
        NodeShape::Cylinder => ")]"@,
        NodeShape::Circle => "))"@,
    }
}

fn shape_brackets(s: NodeShape) -> (r: (&'static str, &'static str))
    ensures
        r.0@ == shape_open(s),
        r.1@ == shape_close(s),
{
    match s {
        NodeShape::Rect => ("[", "]"),
        NodeShape::Diamond => ("{", "}"),
        NodeShape::Stadium => ("(", ")"),
        NodeShape::Hexagon => ("{{", "}}"),
        NodeShape::Cylinder => ("[(", ")]"),
        NodeShape::Circle => ("((", "))"),
    }
}

/// Mermaid line declaring a node.
pub open spec fn node_line(n: Node) -> Seq<char> {
    "    "@ + fmt_id(n.id@) + shape_open(n.shape) + n.text@ + shape_close(n.shape) + "\n"@
}

/// Mermaid line for an edge.
pub open spec fn edge_line(e: Edge) -> Seq<char> {
    "    "@ + fmt_id(e.from@) + " "@ + arrow_text(e.style) + (if e.label@.len() == 0 {
        " "@
    } else {
        "|"@ + e.label@ + "| "@
    }) + fmt_id(e.to@) + "\n"@
}

/// Mermaid line listing one subgraph member.
pub open spec fn member_line(id: String) -> Seq<char> {
    "        "@ + fmt_id(id@) + "\n"@
}

/// Mermaid block for a subgraph.
pub open spec fn subgraph_block(sg: Subgraph) -> Seq<char> {
    "    subgraph "@ + fmt_id(sg.id@) + "\n"@ + flat(sg.nodes@, |id: String| member_line(id))
        + "    end\n"@
}

pub open spec fn style_line(st: NodeStyle) -> Seq<char> {
    "    style "@ + fmt_id(st.node_id@) + " "@ + st.properties@ + "\n"@
}

pub open spec fn class_def_line(cd: ClassDef) -> Seq<char> {
    "    classDef "@ + cd.name@ + " "@ + cd.properties@ + "\n"@
}

/// Formatted ids of a sequence of strings.
pub open spec fn fmt_ids(ids: Seq<String>) -> Seq<Seq<char>> {
    Seq::new(ids.len(), |i: int| fmt_id(ids[i]@))
}

pub open spec fn class_apply_line(ca: ClassApply) -> Seq<char> {
    "    class "@ + join(fmt_ids(ca.node_ids@), ","@) + " "@ + ca.class_name@ + "\n"@
}

pub open spec fn link_style_line(ls: LinkStyle) -> Seq<char> {
    "    linkStyle "@ + decimal(ls.index as nat) + " "@ + ls.properties@ + "\n"@
}

/// Mermaid text of a flowchart before the final trim.
pub open spec fn mermaid_body(d: Diagram) -> Seq<char> {
    "graph "@ + d.rankdir@ + "\n"@ + flat(d.nodes@, |n: Node| node_line(n)) + flat(
        d.edges@,
        |e: Edge| edge_line(e),
    ) + flat(d.subgraphs@, |sg: Subgraph| subgraph_block(sg)) + flat(
        d.styles@,
        |st: NodeStyle| style_line(st),
    ) + flat(d.class_defs@, |cd: ClassDef| class_def_line(cd)) + flat(
        d.class_applies@,
        |ca: ClassApply| class_apply_line(ca),
    ) + flat(d.link_styles@, |ls: LinkStyle| link_style_line(ls))
}

/// Mermaid text of a flowchart (`Diagram::to_mermaid`).
pub open spec fn flowchart_mermaid(d: Diagram) -> Seq<char> {
    trim(mermaid_body(d))
}

fn format_ids(ids: &Vec<String>) -> (r: Vec<String>)
    ensures
        views(r@) == fmt_ids(ids@),
{
    let mut r: Vec<String> = Vec::new();
    let mut i: usize = 0;
    while i < ids.len()
        invariant
            i <= ids@.len(),
            views(r@) == fmt_ids(ids@).take(i as int),
        decreases ids@.len() - i,
    {
        let f = format_id(ids[i].as_str());
        let ghost before = r@;
        r.push(f);
        assert(views(r@) =~= views(before).push(f@));
        i = i + 1;
        assert(views(r@) =~= fmt_ids(ids@).take(i as int));
    }
    assert(fmt_ids(ids@).take(ids@.len() as int) =~= fmt_ids(ids@));
    r
}

fn node_text(n: &Node) -> (r: String)
    ensures
        r@ == node_line(*n),
{
    let (open, close) = shape_brackets(n.shape);
    let mut out = String::from_str("    ");
    out.append(format_id(n.id.as_str()).as_str());
    out.append(open);
    out.append(n.text.as_str());
    out.append(close);
    out.append("\n");
    out
}

fn edge_text(e: &Edge) -> (r: String)
    ensures
        r@ == edge_line(*e),
{
    let mut out = String::from_str("    ");
    out.append(format_id(e.from.as_str()).as_str());
    out.append(" ");
    out.append(e.style.arrow_str());
    if e.label.as_str().is_empty() {
        out.append(" ");
    } else {
        out.append("|");
        out.append(e.label.as_str());
        out.append("| ");
    }
    out.append(format_id(e.to.as_str()).as_str());
    out.append("\n");
    out
}

impl Diagram {
    /// Mermaid flowchart text.
    pub fn to_mermaid(&self) -> (r: String)
        ensures
            r@ == flowchart_mermaid(*self),
    {
        let mut out = String::from_str("graph ");
        out.append(self.rankdir.as_str());
        out.append("\n");
        let ghost base = out@;
        let ghost fnode = |n: Node| node_line(n);
        let mut i: usize = 0;
        while i < self.nodes.len()
            invariant
                i <= self.nodes@.len(),
                fnode == (|n: Node| node_line(n)),
                out@ == base + flat(self.nodes@.take(i as int), fnode),
            decreases self.nodes@.len() - i,
        {
            proof {
                lemma_flat_step(self.nodes@, fnode, i as int);
            }
            out.append(node_text(&self.nodes[i]).as_str());
            i = i + 1;
        }
        proof {
            lemma_flat_all(self.nodes@, fnode);
        }
        let ghost base = out@;
        let ghost fedge = |e: Edge| edge_line(e);
        let mut i: usize = 0;
        while i < self.edges.len()
            invariant
                i <= self.edges@.len(),
                fedge == (|e: Edge| edge_line(e)),
                out@ == base + flat(self.edges@.take(i as int), fedge),
            decreases self.edges@.len() - i,
        {
            proof {
                lemma_flat_step(self.edges@, fedge, i as int);
            }
            out.append(edge_text(&self.edges[i]).as_str());
            i = i + 1;
        }
        proof {
            lemma_flat_all(self.edges@, fedge);
        }
        let ghost base = out@;
        let ghost fsg = |sg: Subgraph| subgraph_block(sg);
        let mut i: usize = 0;
        while i < self.subgraphs.len()
            invariant
                i <= self.subgraphs@.len(),
                fsg == (|sg: Subgraph| subgraph_block(sg)),
                out@ == base + flat(self.subgraphs@.take(i as int), fsg),
            decreases self.subgraphs@.len() - i,
        {
            proof {
                lemma_flat_step(self.subgraphs@, fsg, i as int);
            }
            let sg = &self.subgraphs[i];
            out.append("    subgraph ");
            out.append(format_id(sg.id.as_str()).as_str());
            out.append("\n");
            let ghost inner = out@;
            let ghost fm = |id: String| member_line(id);
            let mut k: usize = 0;
            while k < sg.nodes.len()
                invariant
                    k <= sg.nodes@.len(),
                    fm == (|id: String| member_line(id)),
                    out@ == inner + flat(sg.nodes@.take(k as int), fm),
                decreases sg.nodes@.len() - k,
            {
                proof {
                    lemma_flat_step(sg.nodes@, fm, k as int);
                }
                out.append("        ");
                out.append(format_id(sg.nodes[k].as_str()).as_str());
                out.append("\n");
                k = k + 1;
            }
            proof {
                lemma_flat_all(sg.nodes@, fm);
            }
            out.append("    end\n");
            i = i + 1;
        }
        proof {
            lemma_flat_all(self.subgraphs@, fsg);
        }
        let ghost base = out@;
        let ghost fst = |st: NodeStyle| style_line(st);
        let mut i: usize = 0;
        while i < self.styles.len()
            invariant
                i <= self.styles@.len(),
                fst == (|st: NodeStyle| style_line(st)),
                out@ == base + flat(self.styles@.take(i as int), fst),
            decreases self.styles@.len() - i,
        {
            proof {
                lemma_flat_step(self.styles@, fst, i as int);
            }
            let st = &self.styles[i];
            out.append("    style ");
            out.append(format_id(st.node_id.as_str()).as_str());
            out.append(" ");
            out.append(st.properties.as_str());
            out.append("\n");
            i = i + 1;
        }
        proof {
            lemma_flat_all(self.styles@, fst);
        }
        let ghost base = out@;
        let ghost fcd = |cd: ClassDef| class_def_line(cd);
        let mut i: usize = 0;
        while i < self.class_defs.len()
            invariant
                i <= self.class_defs@.len(),
                fcd == (|cd: ClassDef| class_def_line(cd)),
                out@ == base + flat(self.class_defs@.take(i as int), fcd),
            decreases self.class_defs@.len() - i,
        {
            proof {
                lemma_flat_step(self.class_defs@, fcd, i as int);
            }
            let cd = &self.class_defs[i];
            out.append("    classDef ");
            out.append(cd.name.as_str());
            out.append(" ");
            out.append(cd.properties.as_str());
            out.append("\n");
            i = i + 1;
        }
        proof {
            lemma_flat_all(self.class_defs@, fcd);
        }
        let ghost base = out@;
        let ghost fca = |ca: ClassApply| class_apply_line(ca);
        let mut i: usize = 0;
        while i < self.class_applies.len()
            invariant
                i <= self.class_applies@.len(),
                fca == (|ca: ClassApply| class_apply_line(ca)),
                out@ == base + flat(self.class_applies@.take(i as int), fca),
            decreases self.class_applies@.len() - i,
        {
            proof {
                lemma_flat_step(self.class_applies@, fca, i as int);
            }
            let ca = &self.class_applies[i];
            let ids = format_ids(&ca.node_ids);
            out.append("    class ");
            out.append(join_strings(&ids, ",").as_str());
            out.append(" ");
            out.append(ca.class_name.as_str());
            out.append("\n");
            i = i + 1;
        }
        proof {
            lemma_flat_all(self.class_applies@, fca);
        }
        let ghost base = out@;
        let ghost fls = |ls: LinkStyle| link_style_line(ls);
        let mut i: usize = 0;
        while i < self.link_styles.len()
            invariant
                i <= self.link_styles@.len(),
                fls == (|ls: LinkStyle| link_style_line(ls)),
                out@ == base + flat(self.link_styles@.take(i as int), fls),
            decreases self.link_styles@.len() - i,
        {
            proof {
                lemma_flat_step(self.link_styles@, fls, i as int);
            }
            let ls = &self.link_styles[i];
            out.append("    linkStyle ");
            push_decimal(&mut out, ls.index);
            out.append(" ");
            out.append(ls.properties.as_str());
            out.append("\n");
            i = i + 1;
        }
        proof {
            lemma_flat_all(self.link_styles@, fls);
        }
        let cs = chars_of(out.as_str());
        string_of(trim_slice(cs.as_slice()))
    }
}

// ---------------------------------------------------------------- laws

/// Every edge runs between nodes of the diagram.
pub open spec fn edges_connected(d: Diagram) -> bool {
    forall|k: int|
        0 <= k < d.edges@.len() ==> has_node(d.nodes@, (#[trigger] d.edges@[k]).from@) && has_node(
            d.nodes@,
            d.edges@[k].to@,
        )
}

/// `b` is `a` after one of the graph edits that succeeded: a node added, an
/// edge added between existing nodes, a node removed, or an edge removed.
pub open spec fn one_edit(a: Diagram, b: Diagram) -> bool {
    ||| exists|n: Node| b.nodes@ == a.nodes@.push(n) && b.edges@ == a.edges@
    ||| exists|e: Edge|
        has_node(a.nodes@, e.from@) && has_node(a.nodes@, e.to@) && b.edges@ == a.edges@.push(e)
            && b.nodes@ == a.nodes@
    ||| exists|id: Seq<char>|
        b.nodes@ == a.nodes@.filter(node_not(id)) && b.edges@ == a.edges@.filter(edge_avoids(id))
    ||| exists|f: Seq<char>, t: Seq<char>| b.edges@ == a.edges@.filter(edge_not(f, t)) && b.nodes@ == a.nodes@
}

proof fn lemma_filter_in<T>(s: Seq<T>, p: spec_fn(T) -> bool, i: int)
    requires
        0 <= i < s.filter(p).len(),
    ensures
        s.contains(s.filter(p)[i]),
        p(s.filter(p)[i]),
    decreases s.len(),
{
    reveal(Seq::filter);
    if s.len() > 0 {
        let prev = s.drop_last().filter(p);
        if i < prev.len() {
            lemma_filter_in(s.drop_last(), p, i);
            assert(s.filter(p)[i] == prev[i]);
            let j = choose|j: int| 0 <= j < s.drop_last().len() && s.drop_last()[j] == prev[i];
            assert(s[j] == prev[i]);
        } else {
            assert(s.filter(p)[i] == s.last());
            assert(s[s.len() - 1] == s.last());
        }
    }
}

proof fn lemma_has_node_push(ns: Seq<Node>, n: Node, id: Seq<char>)
    requires
        has_node(ns, id),
    ensures
        has_node(ns.push(n), id),
{
    let i = choose|i: int| 0 <= i < ns.len() && (#[trigger] ns[i]).id@ == id;
    assert(ns.push(n)[i] == ns[i]);
}

/// Each successful graph edit keeps every edge between nodes of the diagram.
pub proof fn law_edits_keep_edges_connected(a: Diagram, b: Diagram)
    requires
        edges_connected(a),
        one_edit(a, b),
    ensures
        edges_connected(b),
{
    broadcast use Seq::lemma_filter_contains;
    if exists|n: Node| b.nodes@ == a.nodes@.push(n) && b.edges@ == a.edges@ {
        let n = choose|n: Node| b.nodes@ == a.nodes@.push(n) && b.edges@ == a.edges@;
        assert forall|k: int| 0 <= k < b.edges@.len() implies has_node(b.nodes@, (#[trigger] b.edges@[k]).from@)
            && has_node(b.nodes@, b.edges@[k].to@) by {
            assert(b.edges@[k] == a.edges@[k]);
            lemma_has_node_push(a.nodes@, n, a.edges@[k].from@);
            lemma_has_node_push(a.nodes@, n, a.edges@[k].to@);
        }
    } else if exists|e: Edge|
        has_node(a.nodes@, e.from@) && has_node(a.nodes@, e.to@) && b.edges@ == a.edges@.push(e)
            && b.nodes@ == a.nodes@ {
        let e = choose|e: Edge|
            has_node(a.nodes@, e.from@) && has_node(a.nodes@, e.to@) && b.edges@ == a.edges@.push(e)
                && b.nodes@ == a.nodes@;
        assert forall|k: int| 0 <= k < b.edges@.len() implies has_node(b.nodes@, (#[trigger] b.edges@[k]).from@)
            && has_node(b.nodes@, b.edges@[k].to@) by {
            if k < a.edges@.len() {
                assert(b.edges@[k] == a.edges@[k]);
            }
        }
    } else if exists|id: Seq<char>|
        b.nodes@ == a.nodes@.filter(node_not(id)) && b.edges@ == a.edges@.filter(edge_avoids(id)) {
        let id = choose|id: Seq<char>|
            b.nodes@ == a.nodes@.filter(node_not(id)) && b.edges@ == a.edges@.filter(edge_avoids(id));
        assert forall|k: int| 0 <= k < b.edges@.len() implies has_node(b.nodes@, (#[trigger] b.edges@[k]).from@)
            && has_node(b.nodes@, b.edges@[k].to@) by {
            lemma_filter_in(a.edges@, edge_avoids(id), k);
            let e = b.edges@[k];
            let q = choose|q: int| 0 <= q < a.edges@.len() && a.edges@[q] == e;
            assert(has_node(a.nodes@, a.edges@[q].from@));
            let i = choose|i: int| 0 <= i < a.nodes@.len() && (#[trigger] a.nodes@[i]).id@ == e.from@;
            let j = choose|j: int| 0 <= j < a.nodes@.len() && (#[trigger] a.nodes@[j]).id@ == e.to@;
            assert(node_not(id)(a.nodes@[i]));
            assert(node_not(id)(a.nodes@[j]));
            assert(b.nodes@.contains(a.nodes@[i]));
            assert(b.nodes@.contains(a.nodes@[j]));
        }
    } else {
        let (f, t) = choose|f: Seq<char>, t: Seq<char>|
            b.edges@ == a.edges@.filter(edge_not(f, t)) && b.nodes@ == a.nodes@;
        assert forall|k: int| 0 <= k < b.edges@.len() implies has_node(b.nodes@, (#[trigger] b.edges@[k]).from@)
            && has_node(b.nodes@, b.edges@[k].to@) by {
            lemma_filter_in(a.edges@, edge_not(f, t), k);
            let q = choose|q: int| 0 <= q < a.edges@.len() && a.edges@[q] == b.edges@[k];
            assert(has_node(a.nodes@, a.edges@[q].from@));
        }
    }
}

/// A node added to a diagram is the one a lookup of its id then finds.
pub proof fn law_added_node_is_found(a: Diagram, b: Diagram, n: Node)
    requires
        !has_node(a.nodes@, n.id@),
        b.nodes@ == a.nodes@.push(n),
    ensures
        first(b.nodes@, node_is(n.id@)) == Some(a.nodes@.len() as int),
        b.nodes@[a.nodes@.len() as int] == n,
{
    let k = a.nodes@.len() as int;
    lemma_first_from(b.nodes@, node_is(n.id@), 0);
    match first(b.nodes@, node_is(n.id@)) {
        Some(j) => {
            if j < k {
                assert(b.nodes@[j] == a.nodes@[j]);
                assert(has_node(a.nodes@, n.id@));
            }
        },
        None => {
            assert(node_is(n.id@)(b.nodes@[k]));
        },
    }
}

/// After a node is removed, a lookup of its id finds nothing and no edge
/// touches it.
pub proof fn law_removed_node_is_gone(a: Diagram, b: Diagram, id: Seq<char>)
    requires
        b.nodes@ == a.nodes@.filter(node_not(id)),
        b.edges@ == a.edges@.filter(edge_avoids(id)),
    ensures
        first(b.nodes@, node_is(id)) is None,
        forall|k: int| 0 <= k < b.edges@.len() ==> (#[trigger] b.edges@[k]).from@ != id && b.edges@[k].to@ != id,
{
    lemma_first_from(b.nodes@, node_is(id), 0);
    if let Some(j) = first(b.nodes@, node_is(id)) {
        lemma_filter_in(a.nodes@, node_not(id), j);
    }
    assert forall|k: int| 0 <= k < b.edges@.len() implies (#[trigger] b.edges@[k]).from@ != id && b.edges@[k].to@ != id by {
        lemma_filter_in(a.edges@, edge_avoids(id), k);
    }
}

} // verus!
