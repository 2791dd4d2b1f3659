//! Flowchart-wide operations: merging two flowcharts, comparing them, and
//! checking one for dangling edges, orphans and cycles.

use vstd::prelude::*;
use crate::diagram::{
    clone_edge, clone_node, ClassApply, ClassDef, Diagram, Edge, LinkStyle, Node, NodeStyle, Subgraph,
};
use crate::text::{chars_of, eq_slice, join, join_strings, str_eq, string_from, views, clone_strings};
use crate::formats::plantuml::{unvisited, lemma_unvisited_mono, lemma_unvisited_push};

verus! {

// ---------------------------------------------------------------- merge

pub open spec fn has_node_id(ns: Seq<Node>, id: Seq<char>) -> bool {
    exists|k: int| 0 <= k < ns.len() && (#[trigger] ns[k]).id@ == id
}

/// `res` followed by the nodes of `more` whose id it does not hold yet.
pub open spec fn merge_nodes(res: Seq<Node>, more: Seq<Node>) -> Seq<Node>
    decreases more.len(),
{
    if more.len() == 0 {
        res
    } else {
        let prev = merge_nodes(res, more.drop_last());
        if has_node_id(prev, more.last().id@) {
            prev
        } else {
            prev.push(more.last())
        }
    }
}

/// The key of an edge: `from|to`.
pub open spec fn edge_key(e: Edge) -> Seq<char> {
    e.from@ + "|"@ + e.to@
}

pub open spec fn has_edge_key(es: Seq<Edge>, key: Seq<char>) -> bool {
    exists|k: int| 0 <= k < es.len() && edge_key(#[trigger] es[k]) == key
}

/// The edges of `more` whose key is not among `base`'s.
pub open spec fn new_edges(base: Seq<Edge>, more: Seq<Edge>) -> Seq<Edge>
    decreases more.len(),
{
    if more.len() == 0 {
        Seq::empty()
    } else {
        let prev = new_edges(base, more.drop_last());
        if has_edge_key(base, edge_key(more.last())) {
            prev
        } else {
            prev.push(more.last())
        }
    }
}

pub open spec fn merge_styles(res: Seq<NodeStyle>, more: Seq<NodeStyle>) -> Seq<NodeStyle>
    decreases more.len(),
{
    if more.len() == 0 {
        res
    } else {
        let prev = merge_styles(res, more.drop_last());
        if exists|k: int| 0 <= k < prev.len() && (#[trigger] prev[k]).node_id@ == more.last().node_id@ {
            prev
        } else {
            prev.push(more.last())
        }
    }
}

pub open spec fn merge_class_defs(res: Seq<ClassDef>, more: Seq<ClassDef>) -> Seq<ClassDef>
    decreases more.len(),
{
    if more.len() == 0 {
        res
    } else {
        let prev = merge_class_defs(res, more.drop_last());
        if exists|k: int| 0 <= k < prev.len() && (#[trigger] prev[k]).name@ == more.last().name@ {
            prev
        } else {
            prev.push(more.last())
        }
    }
}

pub type ApplyV = (Seq<Seq<char>>, Seq<char>);

pub open spec fn applies_v(s: Seq<ClassApply>) -> Seq<ApplyV> {
    Seq::new(s.len(), |k: int| (views(s[k].node_ids@), s[k].class_name@))
}

pub open spec fn merge_applies(res: Seq<ApplyV>, more: Seq<ApplyV>) -> Seq<ApplyV>
    decreases more.len(),
{
    if more.len() == 0 {
        res
    } else {
        let prev = merge_applies(res, more.drop_last());
        if prev.contains(more.last()) {
            prev
        } else {
            prev.push(more.last())
        }
    }
}

pub open spec fn merge_link_styles(res: Seq<LinkStyle>, more: Seq<LinkStyle>) -> Seq<LinkStyle>
    decreases more.len(),
{
    if more.len() == 0 {
        res
    } else {
        let prev = merge_link_styles(res, more.drop_last());
        if exists|k: int| 0 <= k < prev.len() && (#[trigger] prev[k]).index == more.last().index {
            prev
        } else {
            prev.push(more.last())
        }
    }
}

pub type SubV = (Seq<char>, Seq<Seq<char>>);

pub open spec fn subs_v(s: Seq<Subgraph>) -> Seq<SubV> {
    Seq::new(s.len(), |k: int| (s[k].id@, views(s[k].nodes@)))
}

/// `ids` with each of `more` appended unless already there.
pub open spec fn add_missing(ids: Seq<Seq<char>>, more: Seq<Seq<char>>) -> Seq<Seq<char>>
    decreases more.len(),
{
    if more.len() == 0 {
        ids
    } else {
        let prev = add_missing(ids, more.drop_last());
        if prev.contains(more.last()) {
            prev
        } else {
            prev.push(more.last())
        }
    }
}

/// Index of the first subgraph with this id.
pub open spec fn sub_index(ss: Seq<SubV>, id: Seq<char>) -> Option<int> {
    crate::text::first(ss, |s: SubV| s.0 == id)
}

/// Subgraphs merged by id: members of a known one are added to it.
pub open spec fn merge_subgraphs(res: Seq<SubV>, more: Seq<SubV>) -> Seq<SubV>
    decreases more.len(),
{
    if more.len() == 0 {
        res
    } else {
        let prev = merge_subgraphs(res, more.drop_last());
        let sg = more.last();
        match sub_index(prev, sg.0) {
            Some(k) => prev.update(k, (prev[k].0, add_missing(prev[k].1, sg.1))),
            None => prev.push(sg),
        }
    }
}

/// `r` is `a` merged with `b`: `b`'s new nodes, edges, styles and subgraph
/// members added to `a`'s; `b`'s direction when it has one.
pub open spec fn is_merge(r: Diagram, a: Diagram, b: Diagram) -> bool {
    &&& r.rankdir@ == (if b.rankdir@.len() > 0 { b.rankdir@ } else { a.rankdir@ })
    &&& r.nodes@ == merge_nodes(a.nodes@, b.nodes@)
    &&& r.edges@ == a.edges@ + new_edges(a.edges@, b.edges@)
    &&& r.styles@ == merge_styles(a.styles@, b.styles@)
    &&& r.class_defs@ == merge_class_defs(a.class_defs@, b.class_defs@)
    &&& applies_v(r.class_applies@) == merge_applies(applies_v(a.class_applies@), applies_v(b.class_applies@))
    &&& r.link_styles@ == merge_link_styles(a.link_styles@, b.link_styles@)
    &&& subs_v(r.subgraphs@) == merge_subgraphs(subs_v(a.subgraphs@), subs_v(b.subgraphs@))
}


fn clone_nodes(v: &Vec<Node>) -> (r: Vec<Node>)
    ensures
        r@ == v@,
{
    let mut r: Vec<Node> = Vec::new();
    let mut k: usize = 0;
    while k < v.len()
        invariant
            k <= v@.len(),
            r@ == v@.take(k as int),
        decreases v@.len() - k,
    {
        r.push(clone_node(&v[k]));
        assert(r@ =~= v@.take(k + 1));
        k = k + 1;
    }
    assert(v@.take(v@.len() as int) =~= v@);
    r
}

fn clone_edges(v: &Vec<Edge>) -> (r: Vec<Edge>)
    ensures
        r@ == v@,
{
    let mut r: Vec<Edge> = Vec::new();
    let mut k: usize = 0;
    while k < v.len()
        invariant
            k <= v@.len(),
            r@ == v@.take(k as int),
        decreases v@.len() - k,
    {
        r.push(clone_edge(&v[k]));
        assert(r@ =~= v@.take(k + 1));
        k = k + 1;
    }
    assert(v@.take(v@.len() as int) =~= v@);
    r
}

fn merge_nodes_exec(a: &Vec<Node>, b: &Vec<Node>) -> (r: Vec<Node>)
    ensures
        r@ == merge_nodes(a@, b@),
{
    let mut r = clone_nodes(a);
    let mut k: usize = 0;
    assert(b@.take(0) =~= Seq::<Node>::empty());
    while k < b.len()
        invariant
            k <= b@.len(),
            r@ == merge_nodes(a@, b@.take(k as int)),
        decreases b@.len() - k,
    {
        assert(b@.take(k + 1).drop_last() =~= b@.take(k as int));
        let mut found = false;
        let mut j: usize = 0;
        while j < r.len()
            invariant
                j <= r@.len(),
                k < b@.len(),
                found == exists|q: int| 0 <= q < j && (#[trigger] r@[q]).id@ == b@[k as int].id@,
            decreases r@.len() - j,
        {
            if str_eq(r[j].id.as_str(), b[k].id.as_str()) {
                found = true;
            }
            j = j + 1;
        }
        if !found {
            r.push(clone_node(&b[k]));
        }
        k = k + 1;
    }
    assert(b@.take(b@.len() as int) =~= b@);
    r
}

fn key_eq(e: &Edge, f: &Edge) -> (b: bool)
    ensures
        b == (edge_key(*e) == edge_key(*f)),
{
    let mut x = string_from(e.from.as_str());
    x.append("|");
    x.append(e.to.as_str());
    let mut y = string_from(f.from.as_str());
    y.append("|");
    y.append(f.to.as_str());
    str_eq(x.as_str(), y.as_str())
}

fn merge_edges_exec(a: &Vec<Edge>, b: &Vec<Edge>) -> (r: Vec<Edge>)
    ensures
        r@ == a@ + new_edges(a@, b@),
{
    let mut r = clone_edges(a);
    let mut k: usize = 0;
    assert(b@.take(0) =~= Seq::<Edge>::empty());
    assert(r@ =~= a@ + new_edges(a@, b@.take(0)));
    while k < b.len()
        invariant
            k <= b@.len(),
            r@ == a@ + new_edges(a@, b@.take(k as int)),
        decreases b@.len() - k,
    {
        assert(b@.take(k + 1).drop_last() =~= b@.take(k as int));
        let mut found = false;
        let mut j: usize = 0;
        while j < a.len()
            invariant
                j <= a@.len(),
                k < b@.len(),
                found == exists|q: int| 0 <= q < j && edge_key(#[trigger] a@[q]) == edge_key(b@[k as int]),
            decreases a@.len() - j,
        {
            if key_eq(&a[j], &b[k]) {
                found = true;
            }
            j = j + 1;
        }
        let ghost before = r@;
        if !found {
            r.push(clone_edge(&b[k]));
        }
        assert(r@ =~= a@ + new_edges(a@, b@.take(k + 1)));
        k = k + 1;
    }
    assert(b@.take(b@.len() as int) =~= b@);
    r
}

fn merge_styles_exec(a: &Vec<NodeStyle>, b: &Vec<NodeStyle>) -> (r: Vec<NodeStyle>)
    ensures
        r@ == merge_styles(a@, b@),
{
    let mut r: Vec<NodeStyle> = Vec::new();
    let mut k: usize = 0;
    while k < a.len()
        invariant
            k <= a@.len(),
            r@ == a@.take(k as int),
        decreases a@.len() - k,
    {
        r.push(NodeStyle { node_id: a[k].node_id.clone(), properties: a[k].properties.clone() });
        assert(r@ =~= a@.take(k + 1));
        k = k + 1;
    }
    assert(a@.take(a@.len() as int) =~= a@);
    let mut k: usize = 0;
    assert(b@.take(0) =~= Seq::<NodeStyle>::empty());
    while k < b.len()
        invariant
            k <= b@.len(),
            r@ == merge_styles(a@, b@.take(k as int)),
        decreases b@.len() - k,
    {
        assert(b@.take(k + 1).drop_last() =~= b@.take(k as int));
        let mut found = false;
        let mut j: usize = 0;
        while j < r.len()
            invariant
                j <= r@.len(),
                k < b@.len(),
                found == exists|q: int| 0 <= q < j && (#[trigger] r@[q]).node_id@ == b@[k as int].node_id@,
            decreases r@.len() - j,
        {
            if str_eq(r[j].node_id.as_str(), b[k].node_id.as_str()) {
                found = true;
            }
            j = j + 1;
        }
        if !found {
            r.push(NodeStyle { node_id: b[k].node_id.clone(), properties: b[k].properties.clone() });
        }
        k = k + 1;
    }
    assert(b@.take(b@.len() as int) =~= b@);
    r
}

fn merge_class_defs_exec(a: &Vec<ClassDef>, b: &Vec<ClassDef>) -> (r: Vec<ClassDef>)
    ensures
        r@ == merge_class_defs(a@, b@),
{
    let mut r: Vec<ClassDef> = Vec::new();
    let mut k: usize = 0;
    while k < a.len()
        invariant
            k <= a@.len(),
            r@ == a@.take(k as int),
        decreases a@.len() - k,
    {
        r.push(ClassDef { name: a[k].name.clone(), properties: a[k].properties.clone() });
        assert(r@ =~= a@.take(k + 1));
        k = k + 1;
    }
    assert(a@.take(a@.len() as int) =~= a@);
    let mut k: usize = 0;
    assert(b@.take(0) =~= Seq::<ClassDef>::empty());
    while k < b.len()
        invariant
            k <= b@.len(),
            r@ == merge_class_defs(a@, b@.take(k as int)),
        decreases b@.len() - k,
    {
        assert(b@.take(k + 1).drop_last() =~= b@.take(k as int));
        let mut found = false;
        let mut j: usize = 0;
        while j < r.len()
            invariant
                j <= r@.len(),
                k < b@.len(),
                found == exists|q: int| 0 <= q < j && (#[trigger] r@[q]).name@ == b@[k as int].name@,
            decreases r@.len() - j,
        {
            if str_eq(r[j].name.as_str(), b[k].name.as_str()) {
                found = true;
            }
            j = j + 1;
        }
        if !found {
            r.push(ClassDef { name: b[k].name.clone(), properties: b[k].properties.clone() });
        }
        k = k + 1;
    }
    assert(b@.take(b@.len() as int) =~= b@);
    r
}

fn strings_eq(a: &Vec<String>, b: &Vec<String>) -> (r: bool)
    ensures
        r == (views(a@) == views(b@)),
{
    if a.len() != b.len() {
        assert(views(a@).len() != views(b@).len());
        return false;
    }
    let mut k: usize = 0;
    while k < a.len()
        invariant
            k <= a@.len(),
            a@.len() == b@.len(),
            forall|q: int| 0 <= q < k ==> (#[trigger] views(a@)[q]) == views(b@)[q],
        decreases a@.len() - k,
    {
        if !str_eq(a[k].as_str(), b[k].as_str()) {
            assert(views(a@)[k as int] != views(b@)[k as int]);
            return false;
        }
        k = k + 1;
    }
    assert(views(a@) =~= views(b@));
    true
}

fn clone_apply(c: &ClassApply) -> (r: ClassApply)
    ensures
        views(r.node_ids@) == views(c.node_ids@),
        r.class_name@ == c.class_name@,
{
    ClassApply { node_ids: clone_strings(&c.node_ids), class_name: c.class_name.clone() }
}

fn merge_applies_exec(a: &Vec<ClassApply>, b: &Vec<ClassApply>) -> (r: Vec<ClassApply>)
    ensures
        applies_v(r@) == merge_applies(applies_v(a@), applies_v(b@)),
{
    let mut r: Vec<ClassApply> = Vec::new();
    let mut k: usize = 0;
    while k < a.len()
        invariant
            k <= a@.len(),
            applies_v(r@) == applies_v(a@).take(k as int),
        decreases a@.len() - k,
    {
        let ghost before = applies_v(r@);
        let c = clone_apply(&a[k]);
        r.push(c);
        assert(applies_v(r@) =~= before.push((views(c.node_ids@), c.class_name@)));
        assert(applies_v(r@) =~= applies_v(a@).take(k + 1));
        k = k + 1;
    }
    assert(applies_v(a@).take(a@.len() as int) =~= applies_v(a@));
    let ghost bv = applies_v(b@);
    let mut k: usize = 0;
    assert(bv.take(0) =~= Seq::<ApplyV>::empty());
    while k < b.len()
        invariant
            k <= b@.len(),
            bv == applies_v(b@),
            applies_v(r@) == merge_applies(applies_v(a@), bv.take(k as int)),
        decreases b@.len() - k,
    {
        assert(bv.take(k + 1).drop_last() =~= bv.take(k as int));
        let mut found = false;
        let mut j: usize = 0;
        while j < r.len()
            invariant
                j <= r@.len(),
                k < b@.len(),
                bv == applies_v(b@),
                found == exists|q: int| 0 <= q < j && (#[trigger] applies_v(r@)[q]) == bv[k as int],
            decreases r@.len() - j,
        {
            assert(applies_v(r@)[j as int] == (views(r@[j as int].node_ids@), r@[j as int].class_name@));
            if str_eq(r[j].class_name.as_str(), b[k].class_name.as_str()) && strings_eq(&r[j].node_ids, &b[k].node_ids) {
                found = true;
            }
            j = j + 1;
        }
        let ghost before = applies_v(r@);
        proof {
            if found {
                let q = choose|q: int| 0 <= q < j && before[q] == bv[k as int];
                assert(before.contains(bv[k as int]));
            }
        }
        if !found {
            r.push(clone_apply(&b[k]));
            assert(applies_v(r@) =~= before.push(bv[k as int]));
        }
        k = k + 1;
    }
    assert(bv.take(b@.len() as int) =~= bv);
    r
}

fn merge_link_styles_exec(a: &Vec<LinkStyle>, b: &Vec<LinkStyle>) -> (r: Vec<LinkStyle>)
    ensures
        r@ == merge_link_styles(a@, b@),
{
    let mut r: Vec<LinkStyle> = Vec::new();
    let mut k: usize = 0;
    while k < a.len()
        invariant
            k <= a@.len(),
            r@ == a@.take(k as int),
        decreases a@.len() - k,
    {
        r.push(LinkStyle { index: a[k].index, properties: a[k].properties.clone() });
        assert(r@ =~= a@.take(k + 1));
        k = k + 1;
    }
    assert(a@.take(a@.len() as int) =~= a@);
    let mut k: usize = 0;
    assert(b@.take(0) =~= Seq::<LinkStyle>::empty());
    while k < b.len()
        invariant
            k <= b@.len(),
            r@ == merge_link_styles(a@, b@.take(k as int)),
        decreases b@.len() - k,
    {
        assert(b@.take(k + 1).drop_last() =~= b@.take(k as int));
        let mut found = false;
        let mut j: usize = 0;
        while j < r.len()
            invariant
                j <= r@.len(),
                k < b@.len(),
                found == exists|q: int| 0 <= q < j && (#[trigger] r@[q]).index == b@[k as int].index,
            decreases r@.len() - j,
        {
            if r[j].index == b[k].index {
                found = true;
            }
            j = j + 1;
        }
        if !found {
            r.push(LinkStyle { index: b[k].index, properties: b[k].properties.clone() });
        }
        k = k + 1;
    }
    assert(b@.take(b@.len() as int) =~= b@);
    r
}

fn add_missing_exec(ids: &Vec<String>, more: &Vec<String>) -> (r: Vec<String>)
    ensures
        views(r@) == add_missing(views(ids@), views(more@)),
{
    let mut r = clone_strings(ids);
    let ghost mv = views(more@);
    let mut k: usize = 0;
    assert(mv.take(0) =~= Seq::<Seq<char>>::empty());
    while k < more.len()
        invariant
            k <= more@.len(),
            mv == views(more@),
            views(r@) == add_missing(views(ids@), mv.take(k as int)),
        decreases more@.len() - k,
    {
        assert(mv.take(k + 1).drop_last() =~= mv.take(k as int));
        let mut found = false;
        let mut j: usize = 0;
        while j < r.len()
            invariant
                j <= r@.len(),
                k < more@.len(),
                mv == views(more@),
                found == exists|q: int| 0 <= q < j && (#[trigger] views(r@)[q]) == mv[k as int],
            decreases r@.len() - j,
        {
            assert(views(r@)[j as int] == r@[j as int]@);
            if str_eq(r[j].as_str(), more[k].as_str()) {
                found = true;
            }
            j = j + 1;
        }
        let ghost before = views(r@);
        if !found {
            r.push(more[k].clone());
            assert(views(r@) =~= before.push(mv[k as int]));
        }
        proof {
            if found {
                let q = choose|q: int| 0 <= q < before.len() && before[q] == mv[k as int];
                assert(before.contains(mv[k as int]));
            } else {
                assert(!before.contains(mv[k as int]));
            }
        }
        k = k + 1;
    }
    assert(mv.take(more@.len() as int) =~= mv);
    r
}

fn merge_subgraphs_exec(a: &Vec<Subgraph>, b: &Vec<Subgraph>) -> (r: Vec<Subgraph>)
    ensures
        subs_v(r@) == merge_subgraphs(subs_v(a@), subs_v(b@)),
{
    let mut r: Vec<Subgraph> = Vec::new();
    let mut k: usize = 0;
    while k < a.len()
        invariant
            k <= a@.len(),
            subs_v(r@) == subs_v(a@).take(k as int),
        decreases a@.len() - k,
    {
        let ghost before = subs_v(r@);
        let sg = Subgraph { id: a[k].id.clone(), nodes: clone_strings(&a[k].nodes) };
        r.push(sg);
        assert(subs_v(r@) =~= before.push((sg.id@, views(sg.nodes@))));
        assert(subs_v(r@) =~= subs_v(a@).take(k + 1));
        k = k + 1;
    }
    assert(subs_v(a@).take(a@.len() as int) =~= subs_v(a@));
    let ghost bv = subs_v(b@);
    let mut k: usize = 0;
    assert(bv.take(0) =~= Seq::<SubV>::empty());
    while k < b.len()
        invariant
            k <= b@.len(),
            bv == subs_v(b@),
            subs_v(r@) == merge_subgraphs(subs_v(a@), bv.take(k as int)),
        decreases b@.len() - k,
    {
        assert(bv.take(k + 1).drop_last() =~= bv.take(k as int));
        let ghost rv = subs_v(r@);
        let ghost p = |s: SubV| s.0 == bv[k as int].0;
        proof { crate::text::lemma_first_from(rv, p, 0); }
        let mut j: usize = 0;
        while j < r.len() && !str_eq(r[j].id.as_str(), b[k].id.as_str())
            invariant
                j <= r@.len(),
                rv == subs_v(r@),
                bv == subs_v(b@),
                k < b@.len(),
                p == (|s: SubV| s.0 == bv[k as int].0),
                forall|q: int| 0 <= q < j ==> !p(#[trigger] rv[q]),
            decreases r@.len() - j,
        {
            j = j + 1;
        }
        if j < r.len() {
            proof {
                match crate::text::first(rv, p) {
                    Some(q) => {
                        if q < j {
                            assert(!p(rv[q]));
                        }
                        if q > j {
                            assert(!p(rv[j as int]));
                        }
                    },
                    None => {
                        assert(!p(rv[j as int]));
                    },
                }
            }
            assert(sub_index(rv, bv[k as int].0) == Some(j as int));
            let merged = add_missing_exec(&r[j].nodes, &b[k].nodes);
            let sg = Subgraph { id: r[j].id.clone(), nodes: merged };
            r.set(j, sg);
            assert(subs_v(r@) =~= rv.update(j as int, (rv[j as int].0, add_missing(rv[j as int].1, bv[k as int].1))));
        } else {
            proof {
                if let Some(q) = crate::text::first(rv, p) {
                    assert(!p(rv[q]));
                }
            }
            assert(sub_index(rv, bv[k as int].0) is None);
            r.push(Subgraph { id: b[k].id.clone(), nodes: clone_strings(&b[k].nodes) });
            assert(subs_v(r@) =~= rv.push(bv[k as int]));
        }
        k = k + 1;
    }
    assert(bv.take(b@.len() as int) =~= bv);
    r
}

impl Diagram {
    /// `self` merged with `other`: the other's new nodes, edges (by endpoints),
    /// styles, class definitions and uses, link styles and subgraph members
    /// are added; existing ones are kept as they are; `other`'s direction wins
    /// when it has one.
    pub fn merge(&self, other: &Diagram) -> (r: Diagram)
        ensures
            is_merge(r, *self, *other),
    {
        let rankdir = if chars_of(other.rankdir.as_str()).len() > 0 {
            other.rankdir.clone()
        } else {
            self.rankdir.clone()
        };
        Diagram {
            rankdir,
            nodes: merge_nodes_exec(&self.nodes, &other.nodes),
            edges: merge_edges_exec(&self.edges, &other.edges),
            subgraphs: merge_subgraphs_exec(&self.subgraphs, &other.subgraphs),
            styles: merge_styles_exec(&self.styles, &other.styles),
            class_defs: merge_class_defs_exec(&self.class_defs, &other.class_defs),
            class_applies: merge_applies_exec(&self.class_applies, &other.class_applies),
            link_styles: merge_link_styles_exec(&self.link_styles, &other.link_styles),
        }
    }
}


// ---------------------------------------------------------------- diff

/// What changed from one flowchart to another: nodes by id and edges by
/// endpoints (for repeated ids, the last one counts).
#[derive(Clone, Debug)]
pub struct DiagramDiff {
    pub added_nodes: Vec<Node>,
    pub removed_nodes: Vec<Node>,
    pub modified_nodes: Vec<(Node, Node)>,
    pub added_edges: Vec<Edge>,
    pub removed_edges: Vec<Edge>,
    pub modified_edges: Vec<(Edge, Edge)>,
    pub rankdir_changed: bool,
}

/// Index of the last node with this id.
pub open spec fn last_node(ns: Seq<Node>, id: Seq<char>) -> Option<int>
    decreases ns.len(),
{
    if ns.len() == 0 {
        None
    } else if ns.last().id@ == id {
        Some(ns.len() - 1)
    } else {
        last_node(ns.drop_last(), id)
    }
}

/// Index of the last edge with this key.
pub open spec fn last_edge(es: Seq<Edge>, key: Seq<char>) -> Option<int>
    decreases es.len(),
{
    if es.len() == 0 {
        None
    } else if edge_key(es.last()) == key {
        Some(es.len() - 1)
    } else {
        last_edge(es.drop_last(), key)
    }
}

pub proof fn lemma_last_node(ns: Seq<Node>, id: Seq<char>)
    ensures
        last_node(ns, id) matches Some(k) ==> 0 <= k < ns.len() && ns[k].id@ == id,
    decreases ns.len(),
{
    if ns.len() > 0 && ns.last().id@ != id {
        lemma_last_node(ns.drop_last(), id);
    }
}

pub proof fn lemma_last_edge(es: Seq<Edge>, key: Seq<char>)
    ensures
        last_edge(es, key) matches Some(k) ==> 0 <= k < es.len() && edge_key(es[k]) == key,
    decreases es.len(),
{
    if es.len() > 0 && edge_key(es.last()) != key {
        lemma_last_edge(es.drop_last(), key);
    }
}

/// Nodes of `b` (last of each id) that `a` lacks, in `b`'s order.
pub open spec fn added_nodes(a: Seq<Node>, b: Seq<Node>, n: int) -> Seq<Node>
    decreases n,
{
    if n <= 0 {
        Seq::empty()
    } else {
        let prev = added_nodes(a, b, n - 1);
        let x = b[n - 1];
        if last_node(b, x.id@) == Some(n - 1) && last_node(a, x.id@) is None {
            prev.push(x)
        } else {
            prev
        }
    }
}

/// Pairs (old, new) of nodes whose text or shape differ.
pub open spec fn modified_nodes(a: Seq<Node>, b: Seq<Node>, n: int) -> Seq<(Node, Node)>
    decreases n,
{
    if n <= 0 {
        Seq::empty()
    } else {
        let prev = modified_nodes(a, b, n - 1);
        let x = b[n - 1];
        if last_node(b, x.id@) == Some(n - 1) {
            match last_node(a, x.id@) {
                Some(j) => if a[j].text@ != x.text@ || a[j].shape != x.shape {
                    prev.push((a[j], x))
                } else {
                    prev
                },
                None => prev,
            }
        } else {
            prev
        }
    }
}

pub open spec fn added_edges(a: Seq<Edge>, b: Seq<Edge>, n: int) -> Seq<Edge>
    decreases n,
{
    if n <= 0 {
        Seq::empty()
    } else {
        let prev = added_edges(a, b, n - 1);
        let x = b[n - 1];
        if last_edge(b, edge_key(x)) == Some(n - 1) && last_edge(a, edge_key(x)) is None {
            prev.push(x)
        } else {
            prev
        }
    }
}

pub open spec fn modified_edges(a: Seq<Edge>, b: Seq<Edge>, n: int) -> Seq<(Edge, Edge)>
    decreases n,
{
    if n <= 0 {
        Seq::empty()
    } else {
        let prev = modified_edges(a, b, n - 1);
        let x = b[n - 1];
        if last_edge(b, edge_key(x)) == Some(n - 1) {
            match last_edge(a, edge_key(x)) {
                Some(j) => if a[j].label@ != x.label@ || a[j].style != x.style {
                    prev.push((a[j], x))
                } else {
                    prev
                },
                None => prev,
            }
        } else {
            prev
        }
    }
}

/// `d` is the difference from `a` to `b`.
pub open spec fn is_diff(d: DiagramDiff, a: Diagram, b: Diagram) -> bool {
    &&& d.added_nodes@ == added_nodes(a.nodes@, b.nodes@, b.nodes@.len() as int)
    &&& d.removed_nodes@ == added_nodes(b.nodes@, a.nodes@, a.nodes@.len() as int)
    &&& d.modified_nodes@ == modified_nodes(a.nodes@, b.nodes@, b.nodes@.len() as int)
    &&& d.added_edges@ == added_edges(a.edges@, b.edges@, b.edges@.len() as int)
    &&& d.removed_edges@ == added_edges(b.edges@, a.edges@, a.edges@.len() as int)
    &&& d.modified_edges@ == modified_edges(a.edges@, b.edges@, b.edges@.len() as int)
    &&& d.rankdir_changed == (a.rankdir@ != b.rankdir@)
}

fn last_node_exec(ns: &Vec<Node>, id: &str) -> (r: Option<usize>)
    ensures
        r matches Some(j) ==> last_node(ns@, id@) == Some(j as int),
        r is None ==> last_node(ns@, id@) is None,
{
    let mut k = ns.len();
    assert(ns@.take(k as int) =~= ns@);
    while k > 0
        invariant
            k <= ns@.len(),
            last_node(ns@, id@) == last_node(ns@.take(k as int), id@),
        decreases k,
    {
        assert(ns@.take(k as int).last() == ns@[k - 1]);
        if str_eq(ns[k - 1].id.as_str(), id) {
            return Some(k - 1);
        }
        assert(ns@.take(k as int).drop_last() =~= ns@.take(k - 1));
        k = k - 1;
    }
    None
}

fn last_edge_exec(es: &Vec<Edge>, e: &Edge) -> (r: Option<usize>)
    ensures
        r matches Some(j) ==> last_edge(es@, edge_key(*e)) == Some(j as int),
        r is None ==> last_edge(es@, edge_key(*e)) is None,
{
    let mut k = es.len();
    assert(es@.take(k as int) =~= es@);
    while k > 0
        invariant
            k <= es@.len(),
            last_edge(es@, edge_key(*e)) == last_edge(es@.take(k as int), edge_key(*e)),
        decreases k,
    {
        assert(es@.take(k as int).last() == es@[k - 1]);
        if key_eq(&es[k - 1], e) {
            return Some(k - 1);
        }
        assert(es@.take(k as int).drop_last() =~= es@.take(k - 1));
        k = k - 1;
    }
    None
}

fn added_nodes_exec(a: &Vec<Node>, b: &Vec<Node>) -> (r: Vec<Node>)
    ensures
        r@ == added_nodes(a@, b@, b@.len() as int),
{
    let mut r: Vec<Node> = Vec::new();
    let mut k: usize = 0;
    while k < b.len()
        invariant
            k <= b@.len(),
            r@ == added_nodes(a@, b@, k as int),
        decreases b@.len() - k,
    {
        let id = b[k].id.as_str();
        proof { lemma_last_node(b@, id@); }
        let is_last = match last_node_exec(b, id) {
            Some(j) => j == k,
            None => false,
        };
        let absent = last_node_exec(a, id).is_none();
        if is_last && absent {
            r.push(clone_node(&b[k]));
        }
        k = k + 1;
    }
    r
}

fn modified_nodes_exec(a: &Vec<Node>, b: &Vec<Node>) -> (r: Vec<(Node, Node)>)
    ensures
        r@ == modified_nodes(a@, b@, b@.len() as int),
{
    let mut r: Vec<(Node, Node)> = Vec::new();
    let mut k: usize = 0;
    while k < b.len()
        invariant
            k <= b@.len(),
            r@ == modified_nodes(a@, b@, k as int),
        decreases b@.len() - k,
    {
        let id = b[k].id.as_str();
        proof { lemma_last_node(b@, id@); }
        let is_last = match last_node_exec(b, id) {
            Some(j) => j == k,
            None => false,
        };
        if is_last {
            proof { lemma_last_node(a@, id@); }
            match last_node_exec(a, id) {
                Some(j) => {
                    assert(last_node(a@, id@) == Some(j as int));
                    if !str_eq(a[j].text.as_str(), b[k].text.as_str()) || a[j].shape != b[k].shape {
                        r.push((clone_node(&a[j]), clone_node(&b[k])));
                    }
                },
                None => {},
            }
        }
        k = k + 1;
    }
    r
}

fn added_edges_exec(a: &Vec<Edge>, b: &Vec<Edge>) -> (r: Vec<Edge>)
    ensures
        r@ == added_edges(a@, b@, b@.len() as int),
{
    let mut r: Vec<Edge> = Vec::new();
    let mut k: usize = 0;
    while k < b.len()
        invariant
            k <= b@.len(),
            r@ == added_edges(a@, b@, k as int),
        decreases b@.len() - k,
    {
        proof { lemma_last_edge(b@, edge_key(b@[k as int])); }
        let is_last = match last_edge_exec(b, &b[k]) {
            Some(j) => j == k,
            None => false,
        };
        if is_last && last_edge_exec(a, &b[k]).is_none() {
            r.push(clone_edge(&b[k]));
        }
        k = k + 1;
    }
    r
}

fn modified_edges_exec(a: &Vec<Edge>, b: &Vec<Edge>) -> (r: Vec<(Edge, Edge)>)
    ensures
        r@ == modified_edges(a@, b@, b@.len() as int),
{
    let mut r: Vec<(Edge, Edge)> = Vec::new();
    let mut k: usize = 0;
    while k < b.len()
        invariant
            k <= b@.len(),
            r@ == modified_edges(a@, b@, k as int),
        decreases b@.len() - k,
    {
        proof { lemma_last_edge(b@, edge_key(b@[k as int])); }
        let is_last = match last_edge_exec(b, &b[k]) {
            Some(j) => j == k,
            None => false,
        };
        if is_last {
            proof { lemma_last_edge(a@, edge_key(b@[k as int])); }
            match last_edge_exec(a, &b[k]) {
                Some(j) => {
                    assert(last_edge(a@, edge_key(b@[k as int])) == Some(j as int));
                    if !str_eq(a[j].label.as_str(), b[k].label.as_str()) || a[j].style != b[k].style {
                        r.push((clone_edge(&a[j]), clone_edge(&b[k])));
                    }
                },
                None => {},
            }
        }
        k = k + 1;
    }
    r
}

impl Diagram {
    /// What changed from `self` to `other`.
    pub fn diff(&self, other: &Diagram) -> (d: DiagramDiff)
        ensures
            is_diff(d, *self, *other),
    {
        DiagramDiff {
            added_nodes: added_nodes_exec(&self.nodes, &other.nodes),
            removed_nodes: added_nodes_exec(&other.nodes, &self.nodes),
            modified_nodes: modified_nodes_exec(&self.nodes, &other.nodes),
            added_edges: added_edges_exec(&self.edges, &other.edges),
            removed_edges: added_edges_exec(&other.edges, &self.edges),
            modified_edges: modified_edges_exec(&self.edges, &other.edges),
            rankdir_changed: !str_eq(self.rankdir.as_str(), other.rankdir.as_str()),
        }
    }
}


// ---------------------------------------------------------------- validation

/// Node ids without repeats, in order of first appearance.
pub open spec fn uniq_ids(ns: Seq<Node>) -> Seq<Seq<char>>
    decreases ns.len(),
{
    if ns.len() == 0 {
        Seq::empty()
    } else {
        let prev = uniq_ids(ns.drop_last());
        if prev.contains(ns.last().id@) {
            prev
        } else {
            prev.push(ns.last().id@)
        }
    }
}

/// Dangling-edge messages of the first `n` edges.
pub open spec fn dangling(ns: Seq<Node>, es: Seq<Edge>, n: int) -> Seq<Seq<char>>
    decreases n,
{
    if n <= 0 {
        Seq::empty()
    } else {
        let e = es[n - 1];
        dangling(ns, es, n - 1) + (if has_node_id(ns, e.from@) {
            Seq::empty()
        } else {
            seq!["dangling edge: source node '"@ + e.from@ + "' not found"@]
        }) + (if has_node_id(ns, e.to@) {
            Seq::empty()
        } else {
            seq!["dangling edge: target node '"@ + e.to@ + "' not found"@]
        })
    }
}

pub open spec fn is_endpoint(es: Seq<Edge>, id: Seq<char>) -> bool {
    exists|k: int| 0 <= k < es.len() && ((#[trigger] es[k]).from@ == id || es[k].to@ == id)
}

/// Orphaned-node messages of the first `n` nodes.
pub open spec fn orphans(ns: Seq<Node>, es: Seq<Edge>, n: int) -> Seq<Seq<char>>
    decreases n,
{
    if n <= 0 {
        Seq::empty()
    } else {
        orphans(ns, es, n - 1) + if is_endpoint(es, ns[n - 1].id@) {
            Seq::empty()
        } else {
            seq!["orphaned node: '"@ + ns[n - 1].id@ + "' has no edges"@]
        }
    }
}

/// Targets of the edges leaving `id`, in edge order.
pub open spec fn out_targets(es: Seq<Edge>, id: Seq<char>) -> Seq<Seq<char>>
    decreases es.len(),
{
    if es.len() == 0 {
        Seq::empty()
    } else {
        let prev = out_targets(es.drop_last(), id);
        if es.last().from@ == id {
            prev.push(es.last().to@)
        } else {
            prev
        }
    }
}

/// Every id the walk can meet: node ids and edge ends.
pub open spec fn universe(ns: Seq<Node>, es: Seq<Edge>) -> Seq<Seq<char>> {
    Seq::new(ns.len(), |k: int| ns[k].id@) + Seq::new(es.len(), |k: int| es[k].from@)
        + Seq::new(es.len(), |k: int| es[k].to@)
}

/// Position of the first occurrence of `x`.
pub open spec fn index_in(s: Seq<Seq<char>>, x: Seq<char>) -> int {
    match crate::text::first(s, |y: Seq<char>| y == x) {
        Some(k) => k,
        None => 0,
    }
}

pub type Walk = (Seq<Seq<char>>, Seq<Seq<char>>);

/// Depth-first walk from `node` with the current `path`: the finished ids and
/// the issues, a cycle being reported each time the walk meets the path.
pub open spec fn dfs(es: Seq<Edge>, univ: Seq<Seq<char>>, node: Seq<char>, path: Seq<Seq<char>>, visited: Seq<Seq<char>>, issues: Seq<Seq<char>>) -> Walk
    decreases unvisited(univ, path + visited), 1nat, 0nat,
{
    if visited.contains(node) || !univ.contains(node) {
        (visited, issues)
    } else if path.contains(node) {
        let s = index_in(path, node);
        (visited, issues.push("cycle detected: "@ + join(path.subrange(s, path.len() as int), " -> "@)))
    } else {
        proof {
            assert(!(path + visited).contains(node)) by {
                if (path + visited).contains(node) {
                    let j = choose|j: int| 0 <= j < (path + visited).len() && (path + visited)[j] == node;
                    if j < path.len() {
                        assert(path[j] == node);
                    } else {
                        assert(visited[j - path.len()] == node);
                    }
                }
            }
            lemma_unvisited_push(univ, path + visited, node);
            lemma_push_concat(path, visited, node, univ);
        }
        let (v2, i2) = dfs_children(es, univ, out_targets(es, node), 0, path.push(node), visited, issues);
        (v2.push(node), i2)
    }
}

pub proof fn lemma_push_concat(path: Seq<Seq<char>>, visited: Seq<Seq<char>>, node: Seq<char>, univ: Seq<Seq<char>>)
    ensures
        unvisited(univ, path.push(node) + visited) <= unvisited(univ, (path + visited).push(node)),
{
    assert forall|x: Seq<char>| (path + visited).push(node).contains(x) implies (path.push(node) + visited).contains(x) by {
        let j = choose|j: int| 0 <= j < (path + visited).push(node).len() && (path + visited).push(node)[j] == x;
        if j < path.len() {
            assert((path.push(node) + visited)[j] == x);
        } else if j < path.len() + visited.len() {
            assert((path.push(node) + visited)[j + 1] == x);
        } else {
            assert((path.push(node) + visited)[path.len() as int] == x);
        }
    }
    lemma_unvisited_mono(univ, (path + visited).push(node), path.push(node) + visited);
}

pub proof fn lemma_concat_grow(path: Seq<Seq<char>>, visited: Seq<Seq<char>>, more: Seq<Seq<char>>, univ: Seq<Seq<char>>)
    ensures
        unvisited(univ, path + (visited + more)) <= unvisited(univ, path + visited),
{
    assert forall|x: Seq<char>| (path + visited).contains(x) implies (path + (visited + more)).contains(x) by {
        let j = choose|j: int| 0 <= j < (path + visited).len() && (path + visited)[j] == x;
        assert((path + (visited + more))[j] == x);
    }
    lemma_unvisited_mono(univ, path + visited, path + (visited + more));
}

/// The walk from each of `ts[k..]` in turn.
pub open spec fn dfs_children(es: Seq<Edge>, univ: Seq<Seq<char>>, ts: Seq<Seq<char>>, k: int, path: Seq<Seq<char>>, visited: Seq<Seq<char>>, issues: Seq<Seq<char>>) -> Walk
    decreases unvisited(univ, path + visited), 2nat, (if 0 <= k <= ts.len() { ts.len() - k } else { 0 }) as nat,
{
    if k < 0 || k >= ts.len() {
        (visited, issues)
    } else {
        let (v, i) = dfs(es, univ, ts[k], path, visited, issues);
        proof { lemma_concat_grow(path, visited, v, univ); }
        dfs_children(es, univ, ts, k + 1, path, visited + v, i)
    }
}

/// The walk from each of `ids[k..]` not yet visited.
pub open spec fn dfs_roots(es: Seq<Edge>, univ: Seq<Seq<char>>, ids: Seq<Seq<char>>, k: int, visited: Seq<Seq<char>>, issues: Seq<Seq<char>>) -> Seq<Seq<char>>
    decreases ids.len() - k,
{
    if k < 0 || k >= ids.len() {
        issues
    } else if visited.contains(ids[k]) {
        dfs_roots(es, univ, ids, k + 1, visited, issues)
    } else {
        let (v, i) = dfs(es, univ, ids[k], Seq::empty(), visited, issues);
        dfs_roots(es, univ, ids, k + 1, v, i)
    }
}

/// Everything `validate` reports: dangling edges, orphaned nodes, then cycles.
pub open spec fn validation(d: Diagram) -> Seq<Seq<char>> {
    let ns = d.nodes@;
    let es = d.edges@;
    dangling(ns, es, es.len() as int) + orphans(ns, es, ns.len() as int)
        + dfs_roots(es, universe(ns, es), uniq_ids(ns), 0, Seq::empty(), Seq::empty())
}


pub(crate) fn contains_str(v: &Vec<String>, x: &str) -> (b: bool)
    ensures
        b == views(v@).contains(x@),
{
    let mut k: usize = 0;
    while k < v.len()
        invariant
            k <= v@.len(),
            forall|j: int| 0 <= j < k ==> (#[trigger] views(v@)[j]) != x@,
        decreases v@.len() - k,
    {
        if str_eq(v[k].as_str(), x) {
            assert(views(v@)[k as int] == x@);
            return true;
        }
        k = k + 1;
    }
    false
}

fn push_view(v: &mut Vec<String>, x: &str)
    ensures
        views(final(v)@) == views(old(v)@).push(x@),
{
    let ghost before = views(v@);
    v.push(string_from(x));
    assert(views(v@) =~= before.push(x@));
}

fn in_universe(g: &Diagram, x: &str) -> (b: bool)
    ensures
        b == universe(g.nodes@, g.edges@).contains(x@),
{
    let ghost a = Seq::new(g.nodes@.len(), |k: int| g.nodes@[k].id@);
    let ghost f = Seq::new(g.edges@.len(), |k: int| g.edges@[k].from@);
    let ghost t = Seq::new(g.edges@.len(), |k: int| g.edges@[k].to@);
    let mut k: usize = 0;
    while k < g.nodes.len()
        invariant
            k <= g.nodes@.len(),
            a == Seq::new(g.nodes@.len(), |k: int| g.nodes@[k].id@),
            forall|j: int| 0 <= j < k ==> (#[trigger] a[j]) != x@,
        decreases g.nodes@.len() - k,
    {
        if str_eq(g.nodes[k].id.as_str(), x) {
            assert(universe(g.nodes@, g.edges@)[k as int] == x@);
            return true;
        }
        k = k + 1;
    }
    assert(universe(g.nodes@, g.edges@) =~= a + f + t);
    let mut k: usize = 0;
    while k < g.edges.len()
        invariant
            k <= g.edges@.len(),
            a == Seq::new(g.nodes@.len(), |k: int| g.nodes@[k].id@),
            forall|j: int| 0 <= j < a.len() ==> (#[trigger] a[j]) != x@,
            universe(g.nodes@, g.edges@) == a + f + t,
            f == Seq::new(g.edges@.len(), |k: int| g.edges@[k].from@),
            t == Seq::new(g.edges@.len(), |k: int| g.edges@[k].to@),
            forall|j: int| 0 <= j < k ==> (#[trigger] f[j]) != x@ && t[j] != x@,
        decreases g.edges@.len() - k,
    {
        if str_eq(g.edges[k].from.as_str(), x) {
            assert(universe(g.nodes@, g.edges@)[a.len() + k] == x@);
            return true;
        }
        if str_eq(g.edges[k].to.as_str(), x) {
            assert(universe(g.nodes@, g.edges@)[a.len() + f.len() + k] == x@);
            return true;
        }
        assert(f[k as int] != x@ && t[k as int] != x@);
        k = k + 1;
    }
    assert(k == g.edges@.len());
    proof {
        let u = universe(g.nodes@, g.edges@);
        if u.contains(x@) {
            let j = choose|j: int| 0 <= j < u.len() && u[j] == x@;
            if j < a.len() {
                assert(a[j] == x@);
            } else if j < a.len() + f.len() {
                assert(f[j - a.len()] == x@);
            } else {
                let q = j - a.len() - f.len();
                assert(0 <= q < k);
                assert(f[q] != x@ && t[q] != x@);
                assert(t[q] == x@);
            }
            assert(false);
        }
    }
    false
}

fn out_targets_exec(es: &Vec<Edge>, id: &str) -> (r: Vec<String>)
    ensures
        views(r@) == out_targets(es@, id@),
{
    let mut r: Vec<String> = Vec::new();
    let mut k: usize = 0;
    assert(es@.take(0) =~= Seq::<Edge>::empty());
    while k < es.len()
        invariant
            k <= es@.len(),
            views(r@) == out_targets(es@.take(k as int), id@),
        decreases es@.len() - k,
    {
        assert(es@.take(k + 1).drop_last() =~= es@.take(k as int));
        assert(es@.take(k + 1).last() == es@[k as int]);
        if str_eq(es[k].from.as_str(), id) {
            push_view(&mut r, es[k].to.as_str());
        }
        k = k + 1;
    }
    assert(es@.take(es@.len() as int) =~= es@);
    r
}

fn extend_views(a: &mut Vec<String>, b: &Vec<String>)
    ensures
        views(final(a)@) == views(old(a)@) + views(b@),
{
    let ghost a0 = views(a@);
    let mut k: usize = 0;
    while k < b.len()
        invariant
            k <= b@.len(),
            views(a@) == a0 + views(b@).take(k as int),
        decreases b@.len() - k,
    {
        push_view(a, b[k].as_str());
        assert(views(b@).take(k + 1) =~= views(b@).take(k as int).push(b@[k as int]@));
        k = k + 1;
    }
    assert(views(b@).take(b@.len() as int) =~= views(b@));
}

/// `cycle detected: a -> b -> ...` for the path from the first `node` on.
fn cycle_msg(path: &Vec<String>, node: &str) -> (m: String)
    requires
        views(path@).contains(node@),
    ensures
        m@ == "cycle detected: "@ + join(views(path@).subrange(index_in(views(path@), node@), path@.len() as int), " -> "@),
{
    let ghost pv = views(path@);
    let ghost p = |y: Seq<char>| y == node@;
    proof { crate::text::lemma_first_from(pv, p, 0); }
    let mut s: usize = 0;
    while s < path.len() && !str_eq(path[s].as_str(), node)
        invariant
            s <= path@.len(),
            pv == views(path@),
            p == (|y: Seq<char>| y == node@),
            forall|q: int| 0 <= q < s ==> !p(#[trigger] pv[q]),
        decreases path@.len() - s,
    {
        s = s + 1;
    }
    proof {
        if s == path.len() {
            let j = choose|j: int| 0 <= j < pv.len() && pv[j] == node@;
            assert(!p(pv[j]));
        }
        match crate::text::first(pv, p) {
            Some(q) => {
                if q < s {
                    assert(!p(pv[q]));
                }
                if q > s {
                    assert(!p(pv[s as int]));
                }
            },
            None => {
                assert(!p(pv[s as int]));
            },
        }
    }
    let mut tail: Vec<String> = Vec::new();
    let mut k = s;
    while k < path.len()
        invariant
            s <= k <= path@.len(),
            pv == views(path@),
            views(tail@) == pv.subrange(s as int, k as int),
        decreases path@.len() - k,
    {
        push_view(&mut tail, path[k].as_str());
        assert(pv.subrange(s as int, k + 1) =~= pv.subrange(s as int, k as int).push(pv[k as int]));
        k = k + 1;
    }
    let mut m = string_from("cycle detected: ");
    m.append(join_strings(&tail, " -> ").as_str());
    m
}

fn dfs_exec(
    g: &Diagram,
    Ghost(univ): Ghost<Seq<Seq<char>>>,
    node: &str,
    path: &mut Vec<String>,
    visited: &mut Vec<String>,
    issues: &mut Vec<String>,
)
    requires
        univ == universe(g.nodes@, g.edges@),
    ensures
        views(final(path)@) == views(old(path)@),
        (views(final(visited)@), views(final(issues)@)) == dfs(g.edges@, univ, node@, views(old(path)@), views(old(visited)@), views(old(issues)@)),
    decreases unvisited(univ, views(old(path)@) + views(old(visited)@)), 1nat, 0nat,
{
    let ghost pv = views(path@);
    let ghost vv = views(visited@);
    if contains_str(visited, node) || !in_universe(g, node) {
        return;
    }
    if contains_str(path, node) {
        let m = cycle_msg(path, node);
        push_view(issues, m.as_str());
        return;
    }
    proof {
        assert(!(pv + vv).contains(node@)) by {
            if (pv + vv).contains(node@) {
                let j = choose|j: int| 0 <= j < (pv + vv).len() && (pv + vv)[j] == node@;
                if j < pv.len() {
                    assert(pv[j] == node@);
                } else {
                    assert(vv[j - pv.len()] == node@);
                }
            }
        }
        lemma_unvisited_push(univ, pv + vv, node@);
        lemma_push_concat(pv, vv, node@, univ);
    }
    push_view(path, node);
    let ts = out_targets_exec(&g.edges, node);
    children_exec(g, Ghost(univ), &ts, 0, path, visited, issues);
    let ghost before = path@;
    assert(views(before) == pv.push(node@));
    path.pop();
    assert(views(path@) =~= views(before).drop_last());
    assert(views(path@) =~= pv);
    push_view(visited, node);
}

fn children_exec(
    g: &Diagram,
    Ghost(univ): Ghost<Seq<Seq<char>>>,
    ts: &Vec<String>,
    k: usize,
    path: &mut Vec<String>,
    visited: &mut Vec<String>,
    issues: &mut Vec<String>,
)
    requires
        univ == universe(g.nodes@, g.edges@),
        k <= ts@.len(),
    ensures
        views(final(path)@) == views(old(path)@),
        (views(final(visited)@), views(final(issues)@)) == dfs_children(g.edges@, univ, views(ts@), k as int, views(old(path)@), views(old(visited)@), views(old(issues)@)),
    decreases unvisited(univ, views(old(path)@) + views(old(visited)@)), 2nat, (ts@.len() - k) as nat,
{
    if k >= ts.len() {
        return;
    }
    let ghost pv = views(path@);
    let ghost vv = views(visited@);
    let mut tmp = clone_strings(visited);
    assert(views(tmp@) == vv);
    dfs_exec(g, Ghost(univ), ts[k].as_str(), path, &mut tmp, issues);
    extend_views(visited, &tmp);
    proof { lemma_concat_grow(pv, vv, views(tmp@), univ); }
    children_exec(g, Ghost(univ), ts, k + 1, path, visited, issues);
}

impl Diagram {
    /// Problems of a flowchart: edges whose ends are not nodes, nodes on no
    /// edge, and each cycle met by a depth-first walk from every node.
    pub fn validate(&self) -> (r: Vec<String>)
        ensures
            views(r@) == validation(*self),
    {
        let ghost ns = self.nodes@;
        let ghost es = self.edges@;
        let mut issues: Vec<String> = Vec::new();
        let mut k: usize = 0;
        assert(views(issues@) =~= dangling(ns, es, 0));
        while k < self.edges.len()
            invariant
                k <= es.len(),
                ns == self.nodes@,
                es == self.edges@,
                views(issues@) == dangling(ns, es, k as int),
            decreases es.len() - k,
        {
            let e = &self.edges[k];
            let ghost before = views(issues@);
            if crate::diagram::find_node(&self.nodes, e.from.as_str()).is_none() {
                let mut m = string_from("dangling edge: source node '");
                m.append(e.from.as_str());
                m.append("' not found");
                push_view(&mut issues, m.as_str());
            }
            let ghost mid = views(issues@);
            if crate::diagram::find_node(&self.nodes, e.to.as_str()).is_none() {
                let mut m = string_from("dangling edge: target node '");
                m.append(e.to.as_str());
                m.append("' not found");
                push_view(&mut issues, m.as_str());
            }
            proof { lemma_has_node_first_iff(ns, e.from@); lemma_has_node_first_iff(ns, e.to@); }
            assert(views(issues@) =~= dangling(ns, es, k + 1));
            k = k + 1;
        }
        let ghost d0 = views(issues@);
        let mut k: usize = 0;
        while k < self.nodes.len()
            invariant
                k <= ns.len(),
                ns == self.nodes@,
                es == self.edges@,
                views(issues@) == d0 + orphans(ns, es, k as int),
            decreases ns.len() - k,
        {
            let id = self.nodes[k].id.as_str();
            let mut found = false;
            let mut j: usize = 0;
            while j < self.edges.len()
                invariant
                    j <= es.len(),
                    k < ns.len(),
                    ns == self.nodes@,
                    es == self.edges@,
                    id@ == ns[k as int].id@,
                    found == exists|q: int| 0 <= q < j && ((#[trigger] es[q]).from@ == id@ || es[q].to@ == id@),
                decreases es.len() - j,
            {
                if str_eq(self.edges[j].from.as_str(), id) || str_eq(self.edges[j].to.as_str(), id) {
                    found = true;
                }
                j = j + 1;
            }
            if !found {
                let mut m = string_from("orphaned node: '");
                m.append(id);
                m.append("' has no edges");
                push_view(&mut issues, m.as_str());
            }
            assert(views(issues@) =~= d0 + orphans(ns, es, k + 1));
            k = k + 1;
        }
        let ghost d1 = views(issues@);
        let mut ids: Vec<String> = Vec::new();
        let mut k: usize = 0;
        while k < self.nodes.len()
            invariant
                k <= ns.len(),
                ns == self.nodes@,
                views(ids@) == uniq_ids(ns.take(k as int)),
            decreases ns.len() - k,
        {
            assert(ns.take(k + 1).drop_last() =~= ns.take(k as int));
            if !contains_str(&ids, self.nodes[k].id.as_str()) {
                push_view(&mut ids, self.nodes[k].id.as_str());
            }
            k = k + 1;
        }
        assert(ns.take(ns.len() as int) =~= ns);
        let ghost univ = universe(ns, es);
        let ghost iv = views(ids@);
        let mut visited: Vec<String> = Vec::new();
        let mut cycles: Vec<String> = Vec::new();
        assert(views(visited@) =~= Seq::<Seq<char>>::empty());
        assert(views(cycles@) =~= Seq::<Seq<char>>::empty());
        let mut k: usize = 0;
        while k < ids.len()
            invariant
                k <= ids@.len(),
                iv == views(ids@),
                univ == universe(self.nodes@, self.edges@),
                es == self.edges@,
                dfs_roots(es, univ, iv, 0, Seq::empty(), Seq::empty())
                    == dfs_roots(es, univ, iv, k as int, views(visited@), views(cycles@)),
            decreases ids@.len() - k,
        {
            if !contains_str(&visited, ids[k].as_str()) {
                let mut path: Vec<String> = Vec::new();
                assert(views(path@) =~= Seq::<Seq<char>>::empty());
                dfs_exec(self, Ghost(univ), ids[k].as_str(), &mut path, &mut visited, &mut cycles);
            }
            k = k + 1;
        }
        extend_views(&mut issues, &cycles);
        issues
    }
}

proof fn lemma_has_node_first_iff(ns: Seq<Node>, id: Seq<char>)
    ensures
        has_node_id(ns, id) <==> crate::text::first(ns, crate::diagram::node_is(id)) is Some,
{
    crate::text::lemma_first_from(ns, crate::diagram::node_is(id), 0);
    if has_node_id(ns, id) {
        let k = choose|k: int| 0 <= k < ns.len() && ns[k].id@ == id;
        assert(crate::diagram::node_is(id)(ns[k]));
    }
    if let Some(k) = crate::text::first(ns, crate::diagram::node_is(id)) {
        assert(ns[k].id@ == id);
    }
}

// ---------------------------------------------------------------- laws

proof fn lemma_merge_nodes(res: Seq<Node>, more: Seq<Node>)
    ensures
        merge_nodes(res, more).len() >= res.len(),
        merge_nodes(res, more).take(res.len() as int) == res,
        forall|k: int| 0 <= k < more.len() ==> has_node_id(merge_nodes(res, more), (#[trigger] more[k]).id@),
        forall|k: int| res.len() <= k < merge_nodes(res, more).len() ==> !has_node_id(res, (#[trigger] merge_nodes(res, more)[k]).id@),
    decreases more.len(),
{
    if more.len() > 0 {
        let p = more.drop_last();
        let prev = merge_nodes(res, p);
        lemma_merge_nodes(res, p);
        let r = merge_nodes(res, more);
        assert(r.take(res.len() as int) =~= res) by {
            assert(prev.take(res.len() as int) =~= res);
        }
        assert forall|k: int| 0 <= k < more.len() implies has_node_id(r, (#[trigger] more[k]).id@) by {
            if k < p.len() {
                assert(p[k] == more[k]);
                let q = choose|q: int| 0 <= q < prev.len() && (#[trigger] prev[q]).id@ == more[k].id@;
                assert(r[q] == prev[q]);
            } else if !has_node_id(prev, more.last().id@) {
                assert(r[prev.len() as int] == more.last());
            }
        }
        assert forall|k: int| res.len() <= k < r.len() implies !has_node_id(res, (#[trigger] r[k]).id@) by {
            if k < prev.len() {
                assert(r[k] == prev[k]);
            } else {
                assert(r[k] == more.last());
                if has_node_id(res, more.last().id@) {
                    let q = choose|q: int| 0 <= q < res.len() && (#[trigger] res[q]).id@ == more.last().id@;
                    assert(prev[q] == res[q]) by {
                        assert(prev.take(res.len() as int)[q] == prev[q]);
                    }
                }
            }
        }
    }
}

proof fn lemma_new_edges(base: Seq<Edge>, more: Seq<Edge>)
    ensures
        forall|k: int| 0 <= k < more.len() && !has_edge_key(base, edge_key(#[trigger] more[k]))
            ==> has_edge_key(new_edges(base, more), edge_key(more[k])),
        forall|k: int| 0 <= k < new_edges(base, more).len() ==> !has_edge_key(base, edge_key(#[trigger] new_edges(base, more)[k])),
    decreases more.len(),
{
    if more.len() > 0 {
        let p = more.drop_last();
        let prev = new_edges(base, p);
        lemma_new_edges(base, p);
        let r = new_edges(base, more);
        assert forall|k: int| 0 <= k < more.len() && !has_edge_key(base, edge_key(#[trigger] more[k]))
            implies has_edge_key(r, edge_key(more[k])) by {
            if k < p.len() {
                assert(p[k] == more[k]);
                let q = choose|q: int| 0 <= q < prev.len() && edge_key(#[trigger] prev[q]) == edge_key(more[k]);
                assert(r[q] == prev[q]);
            } else {
                assert(r[prev.len() as int] == more.last());
            }
        }
        assert forall|k: int| 0 <= k < r.len() implies !has_edge_key(base, edge_key(#[trigger] r[k])) by {
            if k < prev.len() {
                assert(r[k] == prev[k]);
            }
        }
    }
}

proof fn lemma_last_node_in(ns: Seq<Node>, k: int)
    requires
        0 <= k < ns.len(),
    ensures
        last_node(ns, ns[k].id@) is Some,
    decreases ns.len(),
{
    if ns.last().id@ != ns[k].id@ {
        assert(ns.drop_last()[k] == ns[k]);
        lemma_last_node_in(ns.drop_last(), k);
    }
}

proof fn lemma_last_node_has(ns: Seq<Node>, id: Seq<char>)
    requires
        has_node_id(ns, id),
    ensures
        last_node(ns, id) is Some,
{
    let k = choose|k: int| 0 <= k < ns.len() && (#[trigger] ns[k]).id@ == id;
    lemma_last_node_in(ns, k);
}

/// In a sequence whose items past `n` carry ids absent from the first `n`,
/// the last item of an id found among the first `n` is found there too.
proof fn lemma_last_node_prefix(r: Seq<Node>, n: int, id: Seq<char>)
    requires
        0 <= n <= r.len(),
        forall|k: int| n <= k < r.len() ==> !has_node_id(r.take(n), (#[trigger] r[k]).id@),
        last_node(r, id) matches Some(j) && j < n,
    ensures
        last_node(r.take(n), id) == last_node(r, id),
    decreases r.len(),
{
    if r.len() > n {
        let p = r.drop_last();
        lemma_last_node(r, id);
        let j = last_node(r, id)->0;
        if r.last().id@ == id {
            assert(r[j].id@ == id);
            assert(r.take(n)[j] == r[j]);
            assert(has_node_id(r.take(n), r[r.len() - 1].id@));
            assert(false);
        }
        assert(p.take(n) =~= r.take(n));
        assert forall|k: int| n <= k < p.len() implies !has_node_id(p.take(n), (#[trigger] p[k]).id@) by {
            assert(p[k] == r[k]);
        }
        lemma_last_node_prefix(p, n, id);
    } else {
        assert(r.take(n) =~= r);
    }
}

proof fn lemma_last_edge_has(es: Seq<Edge>, key: Seq<char>)
    requires
        has_edge_key(es, key),
    ensures
        last_edge(es, key) is Some,
    decreases es.len(),
{
    let k = choose|k: int| 0 <= k < es.len() && edge_key(#[trigger] es[k]) == key;
    if edge_key(es.last()) != key {
        assert(es.drop_last()[k] == es[k]);
        lemma_last_edge_has(es.drop_last(), key);
    }
}

proof fn lemma_last_edge_prefix(a: Seq<Edge>, extra: Seq<Edge>, key: Seq<char>)
    requires
        forall|k: int| 0 <= k < extra.len() ==> !has_edge_key(a, edge_key(#[trigger] extra[k])),
        last_edge(a + extra, key) matches Some(j) && j < a.len(),
    ensures
        last_edge(a, key) == last_edge(a + extra, key),
    decreases extra.len(),
{
    let r = a + extra;
    if extra.len() > 0 {
        lemma_last_edge(r, key);
        let j = last_edge(r, key)->0;
        if edge_key(r.last()) == key {
            assert(r[j] == a[j]);
            assert(extra[extra.len() - 1] == r.last());
            assert(has_edge_key(a, edge_key(extra[extra.len() - 1])));
        }
        assert(r.drop_last() =~= a + extra.drop_last());
        assert forall|k: int| 0 <= k < extra.drop_last().len() implies !has_edge_key(a, edge_key(#[trigger] extra.drop_last()[k])) by {
            assert(extra.drop_last()[k] == extra[k]);
        }
        lemma_last_edge_prefix(a, extra.drop_last(), key);
    } else {
        assert(r =~= a);
    }
}

proof fn lemma_no_removed_nodes(a: Seq<Node>, r: Seq<Node>, n: int)
    requires
        n <= a.len(),
        forall|k: int| 0 <= k < a.len() ==> has_node_id(r, (#[trigger] a[k]).id@),
    ensures
        added_nodes(r, a, n).len() == 0,
    decreases n,
{
    if n > 0 {
        lemma_no_removed_nodes(a, r, n - 1);
        lemma_last_node_has(r, a[n - 1].id@);
    }
}

proof fn lemma_no_modified_nodes(a: Seq<Node>, r: Seq<Node>, n: int)
    requires
        n <= r.len(),
        a.len() <= r.len(),
        r.take(a.len() as int) == a,
        forall|k: int| a.len() <= k < r.len() ==> !has_node_id(a, (#[trigger] r[k]).id@),
    ensures
        modified_nodes(a, r, n).len() == 0,
    decreases n,
{
    if n > 0 {
        lemma_no_modified_nodes(a, r, n - 1);
        let x = r[n - 1];
        if last_node(r, x.id@) == Some(n - 1) {
            if n - 1 < a.len() {
                assert forall|k: int| a.len() <= k < r.len() implies !has_node_id(r.take(a.len() as int), (#[trigger] r[k]).id@) by {}
                lemma_last_node_prefix(r, a.len() as int, x.id@);
                assert(a[n - 1] == x);
            } else if last_node(a, x.id@) is Some {
                lemma_last_node(a, x.id@);
                let j = last_node(a, x.id@)->0;
                assert(has_node_id(a, x.id@));
                assert(false);
            }
        }
    }
}

proof fn lemma_no_removed_edges(a: Seq<Edge>, r: Seq<Edge>, n: int)
    requires
        n <= a.len(),
        forall|k: int| 0 <= k < a.len() ==> has_edge_key(r, edge_key(#[trigger] a[k])),
    ensures
        added_edges(r, a, n).len() == 0,
    decreases n,
{
    if n > 0 {
        lemma_no_removed_edges(a, r, n - 1);
        lemma_last_edge_has(r, edge_key(a[n - 1]));
    }
}

proof fn lemma_no_modified_edges(a: Seq<Edge>, extra: Seq<Edge>, n: int)
    requires
        n <= a.len() + extra.len(),
        forall|k: int| 0 <= k < extra.len() ==> !has_edge_key(a, edge_key(#[trigger] extra[k])),
    ensures
        modified_edges(a, a + extra, n).len() == 0,
    decreases n,
{
    let r = a + extra;
    if n > 0 {
        lemma_no_modified_edges(a, extra, n - 1);
        let x = r[n - 1];
        if last_edge(r, edge_key(x)) == Some(n - 1) {
            if n - 1 < a.len() {
                lemma_last_edge_prefix(a, extra, edge_key(x));
                assert(a[n - 1] == x);
            } else if last_edge(a, edge_key(x)) is Some {
                lemma_last_edge(a, edge_key(x));
                let j = last_edge(a, edge_key(x))->0;
                assert(extra[n - 1 - a.len()] == x);
                assert(has_edge_key(a, edge_key(extra[n - 1 - a.len()])));
            }
        }
    }
}

/// Merging keeps the left diagram's nodes and edges in place, in front, and
/// the result holds a node of every id and an edge of every key of the right
/// diagram.
pub proof fn law_merge_keeps_left_and_adds_right(r: Diagram, a: Diagram, b: Diagram)
    requires
        is_merge(r, a, b),
    ensures
        r.nodes@.len() >= a.nodes@.len(),
        r.nodes@.take(a.nodes@.len() as int) == a.nodes@,
        r.edges@.take(a.edges@.len() as int) == a.edges@,
        forall|k: int| 0 <= k < b.nodes@.len() ==> has_node_id(r.nodes@, (#[trigger] b.nodes@[k]).id@),
        forall|k: int| 0 <= k < b.edges@.len() ==> has_edge_key(r.edges@, edge_key(#[trigger] b.edges@[k])),
{
    lemma_merge_nodes(a.nodes@, b.nodes@);
    lemma_new_edges(a.edges@, b.edges@);
    let extra = new_edges(a.edges@, b.edges@);
    assert(r.edges@.take(a.edges@.len() as int) =~= a.edges@);
    assert forall|k: int| 0 <= k < b.edges@.len() implies has_edge_key(r.edges@, edge_key(#[trigger] b.edges@[k])) by {
        let key = edge_key(b.edges@[k]);
        if has_edge_key(a.edges@, key) {
            let q = choose|q: int| 0 <= q < a.edges@.len() && edge_key(#[trigger] a.edges@[q]) == key;
            assert(r.edges@[q] == a.edges@[q]);
        } else {
            let q = choose|q: int| 0 <= q < extra.len() && edge_key(#[trigger] extra[q]) == key;
            assert(r.edges@[a.edges@.len() + q] == extra[q]);
        }
    }
}

/// Diffing a diagram against its merge with another reports nothing removed
/// and nothing changed: merging only adds.
pub proof fn law_merge_only_adds(r: Diagram, a: Diagram, b: Diagram, d: DiagramDiff)
    requires
        is_merge(r, a, b),
        is_diff(d, a, r),
    ensures
        d.removed_nodes@.len() == 0,
        d.modified_nodes@.len() == 0,
        d.removed_edges@.len() == 0,
        d.modified_edges@.len() == 0,
{
    lemma_merge_nodes(a.nodes@, b.nodes@);
    lemma_new_edges(a.edges@, b.edges@);
    let extra = new_edges(a.edges@, b.edges@);
    assert forall|k: int| 0 <= k < a.nodes@.len() implies has_node_id(r.nodes@, (#[trigger] a.nodes@[k]).id@) by {
        assert(r.nodes@[k] == a.nodes@[k]) by {
            assert(r.nodes@.take(a.nodes@.len() as int)[k] == r.nodes@[k]);
        }
    }
    lemma_no_removed_nodes(a.nodes@, r.nodes@, a.nodes@.len() as int);
    lemma_no_modified_nodes(a.nodes@, r.nodes@, r.nodes@.len() as int);
    assert forall|k: int| 0 <= k < a.edges@.len() implies has_edge_key(r.edges@, edge_key(#[trigger] a.edges@[k])) by {
        assert(r.edges@[k] == a.edges@[k]);
    }
    lemma_no_removed_edges(a.edges@, r.edges@, a.edges@.len() as int);
    lemma_no_modified_edges(a.edges@, extra, r.edges@.len() as int);
}

proof fn lemma_merge_nodes_known(res: Seq<Node>, more: Seq<Node>)
    requires
        forall|k: int| 0 <= k < more.len() ==> has_node_id(res, (#[trigger] more[k]).id@),
    ensures
        merge_nodes(res, more) == res,
    decreases more.len(),
{
    if more.len() > 0 {
        lemma_merge_nodes_known(res, more.drop_last());
        assert(has_node_id(res, more[more.len() - 1].id@));
    }
}

proof fn lemma_new_edges_known(base: Seq<Edge>, more: Seq<Edge>)
    requires
        forall|k: int| 0 <= k < more.len() ==> has_edge_key(base, edge_key(#[trigger] more[k])),
    ensures
        new_edges(base, more) == Seq::<Edge>::empty(),
    decreases more.len(),
{
    if more.len() > 0 {
        lemma_new_edges_known(base, more.drop_last());
        assert(has_edge_key(base, edge_key(more[more.len() - 1])));
    }
}

proof fn lemma_merge_styles_known(res: Seq<NodeStyle>, more: Seq<NodeStyle>)
    requires
        forall|k: int| 0 <= k < more.len() ==> res.contains(#[trigger] more[k]),
    ensures
        merge_styles(res, more) == res,
    decreases more.len(),
{
    if more.len() > 0 {
        lemma_merge_styles_known(res, more.drop_last());
        assert(res.contains(more[more.len() - 1]));
    }
}

proof fn lemma_merge_class_defs_known(res: Seq<ClassDef>, more: Seq<ClassDef>)
    requires
        forall|k: int| 0 <= k < more.len() ==> res.contains(#[trigger] more[k]),
    ensures
        merge_class_defs(res, more) == res,
    decreases more.len(),
{
    if more.len() > 0 {
        lemma_merge_class_defs_known(res, more.drop_last());
        assert(res.contains(more[more.len() - 1]));
    }
}

proof fn lemma_merge_applies_known(res: Seq<ApplyV>, more: Seq<ApplyV>)
    requires
        forall|k: int| 0 <= k < more.len() ==> res.contains(#[trigger] more[k]),
    ensures
        merge_applies(res, more) == res,
    decreases more.len(),
{
    if more.len() > 0 {
        lemma_merge_applies_known(res, more.drop_last());
        assert(res.contains(more[more.len() - 1]));
    }
}

proof fn lemma_merge_link_styles_known(res: Seq<LinkStyle>, more: Seq<LinkStyle>)
    requires
        forall|k: int| 0 <= k < more.len() ==> res.contains(#[trigger] more[k]),
    ensures
        merge_link_styles(res, more) == res,
    decreases more.len(),
{
    if more.len() > 0 {
        lemma_merge_link_styles_known(res, more.drop_last());
        assert(res.contains(more[more.len() - 1]));
    }
}

/// Merging a diagram with itself changes nothing but, where its subgraph ids
/// repeat, its subgraphs: nodes, edges, direction, styles, class definitions,
/// class statements and link styles come out as they were.
pub proof fn law_merge_self(r: Diagram, a: Diagram)
    requires
        is_merge(r, a, a),
    ensures
        r.rankdir@ == a.rankdir@,
        r.nodes@ == a.nodes@,
        r.edges@ == a.edges@,
        r.styles@ == a.styles@,
        r.class_defs@ == a.class_defs@,
        applies_v(r.class_applies@) == applies_v(a.class_applies@),
        r.link_styles@ == a.link_styles@,
{
    let ns = a.nodes@;
    assert forall|k: int| 0 <= k < ns.len() implies has_node_id(ns, (#[trigger] ns[k]).id@) by {
        assert(ns[k].id@ == ns[k].id@);
    }
    lemma_merge_nodes_known(ns, ns);
    let es = a.edges@;
    assert forall|k: int| 0 <= k < es.len() implies has_edge_key(es, edge_key(#[trigger] es[k])) by {
        assert(edge_key(es[k]) == edge_key(es[k]));
    }
    lemma_new_edges_known(es, es);
    assert(es + Seq::<Edge>::empty() =~= es);
    assert forall|k: int| 0 <= k < a.styles@.len() implies a.styles@.contains(#[trigger] a.styles@[k]) by {}
    lemma_merge_styles_known(a.styles@, a.styles@);
    assert forall|k: int| 0 <= k < a.class_defs@.len() implies a.class_defs@.contains(#[trigger] a.class_defs@[k]) by {}
    lemma_merge_class_defs_known(a.class_defs@, a.class_defs@);
    let av = applies_v(a.class_applies@);
    assert forall|k: int| 0 <= k < av.len() implies av.contains(#[trigger] av[k]) by {}
    lemma_merge_applies_known(av, av);
    assert forall|k: int| 0 <= k < a.link_styles@.len() implies a.link_styles@.contains(#[trigger] a.link_styles@[k]) by {}
    lemma_merge_link_styles_known(a.link_styles@, a.link_styles@);
}

/// The nodes of `b` whose id `a` does not have.
pub open spec fn new_nodes_of(a: Seq<Node>, b: Seq<Node>) -> Seq<Node> {
    b.filter(|n: Node| !has_node_id(a, n.id@))
}

/// The edges of `b` whose key `a` does not have.
pub open spec fn new_edges_of(a: Seq<Edge>, b: Seq<Edge>) -> Seq<Edge> {
    b.filter(|e: Edge| !has_edge_key(a, edge_key(e)))
}

proof fn lemma_merge_nodes_filter(a: Seq<Node>, b: Seq<Node>)
    requires
        forall|i: int, j: int| 0 <= i < j < b.len() ==> (#[trigger] b[i]).id@ != (#[trigger] b[j]).id@,
    ensures
        merge_nodes(a, b) == a + new_nodes_of(a, b),
    decreases b.len(),
{
    let p = |n: Node| !has_node_id(a, n.id@);
    if b.len() == 0 {
        crate::text::lemma_filter_empty(b, p);
        assert(b.take(0) =~= b);
        assert(a + b.filter(p) =~= a);
    } else {
        let bl = b.drop_last();
        assert forall|i: int, j: int| 0 <= i < j < bl.len() implies (#[trigger] bl[i]).id@ != (#[trigger] bl[j]).id@ by {
            assert(bl[i] == b[i] && bl[j] == b[j]);
        }
        lemma_merge_nodes_filter(a, bl);
        crate::text::lemma_filter_step(b, p, b.len() - 1);
        assert(b.take(b.len() - 1) =~= bl);
        assert(b.take(b.len() as int) =~= b);
        let prev = merge_nodes(a, bl);
        let x = b.last();
        assert(prev == a + bl.filter(p));
        // x's id is among prev's exactly when it is among a's.
        if has_node_id(prev, x.id@) && !has_node_id(a, x.id@) {
            let k = choose|k: int| 0 <= k < prev.len() && (#[trigger] prev[k]).id@ == x.id@;
            assert(k >= a.len());
            let m = k - a.len();
            assert(prev[k] == bl.filter(p)[m]);
            assert(bl.filter(p).contains(prev[k]));
            assert(bl.contains(prev[k])) by {
                bl.lemma_filter_contains_rev(p, prev[k]);
            }
            let j = choose|j: int| 0 <= j < bl.len() && bl[j] == prev[k];
            assert(b[j] == bl[j]);
            assert(b[j].id@ == b[b.len() - 1].id@);
        }
        if has_node_id(a, x.id@) {
            let k = choose|k: int| 0 <= k < a.len() && (#[trigger] a[k]).id@ == x.id@;
            assert(prev[k] == a[k]);
        }
        assert(merge_nodes(a, b) =~= a + b.filter(p));
    }
}

proof fn lemma_new_edges_filter(a: Seq<Edge>, b: Seq<Edge>)
    ensures
        new_edges(a, b) == new_edges_of(a, b),
    decreases b.len(),
{
    let p = |e: Edge| !has_edge_key(a, edge_key(e));
    if b.len() == 0 {
        crate::text::lemma_filter_empty(b, p);
        assert(b.take(0) =~= b);
    } else {
        lemma_new_edges_filter(a, b.drop_last());
        crate::text::lemma_filter_step(b, p, b.len() - 1);
        assert(b.take(b.len() - 1) =~= b.drop_last());
        assert(b.take(b.len() as int) =~= b);
    }
}

/// Merging keeps `a`'s nodes and adds those of `b` whose id `a` lacks, in
/// `b`'s order (where `b`'s ids are distinct); keeps `a`'s edges and adds
/// those of `b` whose (from, to) key `a` lacks; and takes `b`'s direction
/// unless it is empty.
pub proof fn law_merge_exact(r: Diagram, a: Diagram, b: Diagram)
    requires
        is_merge(r, a, b),
        forall|i: int, j: int| 0 <= i < j < b.nodes@.len() ==> (#[trigger] b.nodes@[i]).id@ != (#[trigger] b.nodes@[j]).id@,
    ensures
        r.nodes@ == a.nodes@ + new_nodes_of(a.nodes@, b.nodes@),
        r.edges@ == a.edges@ + new_edges_of(a.edges@, b.edges@),
        r.rankdir@ == (if b.rankdir@.len() == 0 { a.rankdir@ } else { b.rankdir@ }),
{
    lemma_merge_nodes_filter(a.nodes@, b.nodes@);
    lemma_new_edges_filter(a.edges@, b.edges@);
}

} // verus!
