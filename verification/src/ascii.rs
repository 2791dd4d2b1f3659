//! Plain-text rendering: flowcharts as stacked layers of boxes joined by
//! connector rows, the other kinds as a compact outline.

use vstd::prelude::*;
use crate::analyze::nub;
use crate::class::{relation_token, Class, ClassDiagram, ClassMember, Relation};
use crate::er::{Attribute, Cardinality, Entity, ErDiagram, Relationship};
use crate::gantt::{GanttDiagram, GanttTask};
use crate::ir::{kind_name, kind_of, Diagram, Document};
use crate::sequence::{Message, MessageArrow, Participant, SequenceDiagram};
use crate::state::{StateDiagram, Transition};
use crate::diagram::{edge_is, node_is, Diagram as Flowchart, Edge, Node};
use crate::er::{str_lt, str_lt_exec};
use crate::graph_ops::{contains_str, uniq_ids, universe};
use crate::text::{chars_of, decimal, first, first_from, join, lemma_first_from, str_eq, views};

verus! {

// ---------------------------------------------------------------- layers

/// Number of edges ending at `v`.
pub open spec fn in_count(es: Seq<Edge>, v: Seq<char>) -> nat
    decreases es.len(),
{
    if es.len() == 0 {
        0
    } else {
        in_count(es.drop_last(), v) + if es.last().to@ == v { 1nat } else { 0nat }
    }
}

/// The ids among `ids` that no edge ends at.
pub open spec fn sources(ids: Seq<Seq<char>>, es: Seq<Edge>) -> Seq<Seq<char>>
    decreases ids.len(),
{
    if ids.len() == 0 {
        Seq::empty()
    } else {
        let p = sources(ids.drop_last(), es);
        if in_count(es, ids.last()) == 0 {
            p.push(ids.last())
        } else {
            p
        }
    }
}

/// Where the layering starts: the nodes nothing points at, or, when every
/// node has an incoming edge, the first node.
pub open spec fn starts(ns: Seq<Node>, es: Seq<Edge>) -> Seq<Seq<char>> {
    let s = sources(uniq_ids(ns), es);
    if s.len() == 0 && ns.len() > 0 {
        seq![ns[0].id@]
    } else {
        s
    }
}

/// Some walk of exactly `k` edges leads from a start to `v`.
pub open spec fn reach(ns: Seq<Node>, es: Seq<Edge>, k: nat, v: Seq<char>) -> bool
    decreases k,
{
    if k == 0 {
        starts(ns, es).contains(v)
    } else {
        exists|j: int| 0 <= j < es.len() && (#[trigger] es[j]).to@ == v && reach(ns, es, (k - 1) as nat, es[j].from@)
    }
}

/// The longest such walk shorter than `k` edges.
pub open spec fn best(ns: Seq<Node>, es: Seq<Edge>, v: Seq<char>, k: nat) -> Option<nat>
    decreases k,
{
    if k == 0 {
        None
    } else if reach(ns, es, (k - 1) as nat, v) {
        Some((k - 1) as nat)
    } else {
        best(ns, es, v, (k - 1) as nat)
    }
}

/// The layer of an id: the longest walk to it from a start, of fewer edges
/// than there are distinct node ids; a node no such walk reaches sits on
/// layer 0, an edge end it reaches on no layer.
pub open spec fn layer_of(ns: Seq<Node>, es: Seq<Edge>, v: Seq<char>) -> Option<nat> {
    match best(ns, es, v, uniq_ids(ns).len()) {
        Some(x) => Some(x),
        None => if uniq_ids(ns).contains(v) {
            Some(0)
        } else {
            None
        },
    }
}

/// Every id of the flowchart once: node ids, then edge ends.
pub open spec fn cands(ns: Seq<Node>, es: Seq<Edge>) -> Seq<Seq<char>> {
    nub(universe(ns, es))
}

/// Highest layer among `c`.
pub open spec fn top_layer(ns: Seq<Node>, es: Seq<Edge>, c: Seq<Seq<char>>) -> nat
    decreases c.len(),
{
    if c.len() == 0 {
        0
    } else {
        let p = top_layer(ns, es, c.drop_last());
        match layer_of(ns, es, c.last()) {
            Some(x) => if x > p { x } else { p },
            None => p,
        }
    }
}

/// The ids of `c` on layer `k`, in order.
pub open spec fn members(ns: Seq<Node>, es: Seq<Edge>, c: Seq<Seq<char>>, k: nat) -> Seq<Seq<char>>
    decreases c.len(),
{
    if c.len() == 0 {
        Seq::empty()
    } else {
        let p = members(ns, es, c.drop_last(), k);
        if layer_of(ns, es, c.last()) == Some(k) {
            p.push(c.last())
        } else {
            p
        }
    }
}

/// Order within a layer: more incoming edges first, then by id.
pub open spec fn before(es: Seq<Edge>, a: Seq<char>, b: Seq<char>) -> bool {
    in_count(es, a) > in_count(es, b) || (in_count(es, a) == in_count(es, b) && str_lt(a, b))
}

pub open spec fn ins_id(es: Seq<Edge>, sorted: Seq<Seq<char>>, x: Seq<char>) -> Seq<Seq<char>> {
    match first(sorted, |y: Seq<char>| before(es, x, y)) {
        Some(j) => sorted.insert(j, x),
        None => sorted.push(x),
    }
}

/// `s` put in layer order.
pub open spec fn sort_ids(es: Seq<Edge>, s: Seq<Seq<char>>) -> Seq<Seq<char>>
    decreases s.len(),
{
    if s.len() == 0 {
        Seq::empty()
    } else {
        ins_id(es, sort_ids(es, s.drop_last()), s.last())
    }
}

/// The layers of a flowchart, top to bottom.
pub open spec fn layers(ns: Seq<Node>, es: Seq<Edge>) -> Seq<Seq<Seq<char>>> {
    let c = cands(ns, es);
    Seq::new(top_layer(ns, es, c) + 1, |k: int| sort_ids(es, members(ns, es, c, k as nat)))
}

pub open spec fn opt_nat(o: Option<usize>) -> Option<nat> {
    match o {
        Some(x) => Some(x as nat),
        None => None,
    }
}

pub(crate) proof fn lemma_nub<A>(s: Seq<A>)
    ensures
        forall|x: A| #![trigger nub(s).contains(x)] #![trigger s.contains(x)] nub(s).contains(x) <==> s.contains(x),
        nub(s).len() <= s.len(),
    decreases s.len(),
{
    if s.len() > 0 {
        let p = s.drop_last();
        let np = nub(p);
        let ns = nub(s);
        lemma_nub(p);
        assert(forall|k: int| 0 <= k < p.len() ==> p[k] == s[k]);
        assert(forall|q: int| 0 <= q < np.len() ==> np[q] == ns[q]);
        assert forall|x: A| s.contains(x) implies ns.contains(x) by {
            let k = choose|k: int| 0 <= k < s.len() && s[k] == x;
            if k < p.len() {
                assert(p[k] == x);
                assert(p.contains(x));
                let q = choose|q: int| 0 <= q < np.len() && np[q] == x;
                assert(ns[q] == x);
            } else if !np.contains(s.last()) {
                assert(ns[np.len() as int] == x);
            }
        }
        assert forall|x: A| ns.contains(x) implies s.contains(x) by {
            let q = choose|q: int| 0 <= q < ns.len() && ns[q] == x;
            if q < np.len() {
                assert(np[q] == x);
                assert(np.contains(x));
                let k = choose|k: int| 0 <= k < p.len() && p[k] == x;
                assert(p[k] == s[k]);
                assert(s[k] == x);
            } else {
                assert(s[s.len() - 1] == x);
            }
        }
    }
}

pub(crate) fn nub_exec(v: &Vec<String>) -> (r: Vec<String>)
    ensures
        views(r@) == nub(views(v@)),
{
    let ghost vv = views(v@);
    let mut r: Vec<String> = Vec::new();
    let mut k: usize = 0;
    assert(vv.take(0) =~= Seq::<Seq<char>>::empty());
    while k < v.len()
        invariant
            k <= v@.len(),
            vv == views(v@),
            views(r@) == nub(vv.take(k as int)),
        decreases v@.len() - k,
    {
        assert(vv.take(k + 1).drop_last() =~= vv.take(k as int));
        assert(vv.take(k + 1).last() == v@[k as int]@);
        if !contains_str(&r, v[k].as_str()) {
            let ghost before = views(r@);
            r.push(v[k].clone());
            assert(views(r@) =~= before.push(v@[k as int]@));
        }
        k = k + 1;
    }
    assert(vv.take(v@.len() as int) =~= vv);
    r
}

pub(crate) fn universe_exec(ns: &Vec<Node>, es: &Vec<Edge>) -> (r: Vec<String>)
    ensures
        views(r@) == universe(ns@, es@),
{
    let mut r: Vec<String> = Vec::new();
    let mut k: usize = 0;
    while k < ns.len()
        invariant
            k <= ns@.len(),
            views(r@) == Seq::new(k as nat, |i: int| ns@[i].id@),
        decreases ns@.len() - k,
    {
        let ghost before = views(r@);
        r.push(ns[k].id.clone());
        assert(views(r@) =~= before.push(ns@[k as int].id@));
        assert(views(r@) =~= Seq::new((k + 1) as nat, |i: int| ns@[i].id@));
        k = k + 1;
    }
    let ghost a = views(r@);
    k = 0;
    while k < es.len()
        invariant
            k <= es@.len(),
            views(r@) == a + Seq::new(k as nat, |i: int| es@[i].from@),
        decreases es@.len() - k,
    {
        let ghost before = views(r@);
        r.push(es[k].from.clone());
        assert(views(r@) =~= before.push(es@[k as int].from@));
        assert(views(r@) =~= a + Seq::new((k + 1) as nat, |i: int| es@[i].from@));
        k = k + 1;
    }
    let ghost b = views(r@);
    k = 0;
    while k < es.len()
        invariant
            k <= es@.len(),
            views(r@) == b + Seq::new(k as nat, |i: int| es@[i].to@),
        decreases es@.len() - k,
    {
        let ghost before = views(r@);
        r.push(es[k].to.clone());
        assert(views(r@) =~= before.push(es@[k as int].to@));
        assert(views(r@) =~= b + Seq::new((k + 1) as nat, |i: int| es@[i].to@));
        k = k + 1;
    }
    assert(a =~= Seq::new(ns@.len(), |i: int| ns@[i].id@));
    r
}

pub(crate) fn uniq_ids_exec(ns: &Vec<Node>) -> (r: Vec<String>)
    ensures
        views(r@) == uniq_ids(ns@),
{
    let mut r: Vec<String> = Vec::new();
    let mut k: usize = 0;
    assert(ns@.take(0) =~= Seq::<Node>::empty());
    while k < ns.len()
        invariant
            k <= ns@.len(),
            views(r@) == uniq_ids(ns@.take(k as int)),
        decreases ns@.len() - k,
    {
        assert(ns@.take(k + 1).drop_last() =~= ns@.take(k as int));
        if !contains_str(&r, ns[k].id.as_str()) {
            let ghost before = views(r@);
            r.push(ns[k].id.clone());
            assert(views(r@) =~= before.push(ns@[k as int].id@));
        }
        k = k + 1;
    }
    assert(ns@.take(ns@.len() as int) =~= ns@);
    r
}

proof fn lemma_in_count_le(es: Seq<Edge>, v: Seq<char>)
    ensures
        in_count(es, v) <= es.len(),
    decreases es.len(),
{
    if es.len() > 0 {
        lemma_in_count_le(es.drop_last(), v);
    }
}

pub(crate) fn in_count_exec(es: &Vec<Edge>, v: &str) -> (r: usize)
    ensures
        r == in_count(es@, v@),
{
    let mut c: usize = 0;
    let mut k: usize = 0;
    while k < es.len()
        invariant
            k <= es@.len(),
            c == in_count(es@.take(k as int), v@),
        decreases es@.len() - k,
    {
        assert(es@.take(k + 1).drop_last() =~= es@.take(k as int));
        proof {
            lemma_in_count_le(es@.take(k as int), v@);
        }
        if str_eq(es[k].to.as_str(), v) {
            c = c + 1;
        }
        k = k + 1;
    }
    assert(es@.take(es@.len() as int) =~= es@);
    c
}

pub(crate) fn starts_exec(ns: &Vec<Node>, es: &Vec<Edge>, uniq: &Vec<String>) -> (r: Vec<String>)
    requires
        views(uniq@) == uniq_ids(ns@),
    ensures
        views(r@) == starts(ns@, es@),
{
    let ghost u = views(uniq@);
    let mut r: Vec<String> = Vec::new();
    let mut k: usize = 0;
    assert(u.take(0) =~= Seq::<Seq<char>>::empty());
    while k < uniq.len()
        invariant
            k <= uniq@.len(),
            u == views(uniq@),
            views(r@) == sources(u.take(k as int), es@),
        decreases uniq@.len() - k,
    {
        assert(u.take(k + 1).drop_last() =~= u.take(k as int));
        assert(u.take(k + 1).last() == uniq@[k as int]@);
        if in_count_exec(es, uniq[k].as_str()) == 0 {
            let ghost before = views(r@);
            r.push(uniq[k].clone());
            assert(views(r@) =~= before.push(uniq@[k as int]@));
        }
        k = k + 1;
    }
    assert(u.take(uniq@.len() as int) =~= u);
    if r.len() == 0 && ns.len() > 0 {
        let mut s: Vec<String> = Vec::new();
        s.push(ns[0].id.clone());
        assert(views(s@) =~= seq![ns@[0].id@]);
        s
    } else {
        r
    }
}

/// Position of `x` in `v`.
fn index_of(v: &Vec<String>, x: &str) -> (r: Option<usize>)
    ensures
        r matches Some(i) ==> i < v@.len() && v@[i as int]@ == x@,
        r is None ==> !views(v@).contains(x@),
{
    let mut k: usize = 0;
    while k < v.len()
        invariant
            k <= v@.len(),
            forall|j: int| 0 <= j < k ==> (#[trigger] views(v@)[j]) != x@,
        decreases v@.len() - k,
    {
        if str_eq(v[k].as_str(), x) {
            return Some(k);
        }
        assert(views(v@)[k as int] == v@[k as int]@);
        k = k + 1;
    }
    None
}

fn before_exec(es: &Vec<Edge>, a: &str, b: &str) -> (r: bool)
    ensures
        r == before(es@, a@, b@),
{
    let ia = in_count_exec(es, a);
    let ib = in_count_exec(es, b);
    if ia > ib {
        true
    } else if ia == ib {
        let x = chars_of(a);
        let y = chars_of(b);
        str_lt_exec(x.as_slice(), y.as_slice())
    } else {
        false
    }
}

fn sort_ids_exec(es: &Vec<Edge>, v: &Vec<String>) -> (r: Vec<String>)
    ensures
        views(r@) == sort_ids(es@, views(v@)),
{
    let ghost all = views(v@);
    let mut sorted: Vec<String> = Vec::new();
    let mut k: usize = 0;
    assert(all.take(0) =~= Seq::<Seq<char>>::empty());
    while k < v.len()
        invariant
            k <= v@.len(),
            all == views(v@),
            views(sorted@) == sort_ids(es@, all.take(k as int)),
        decreases v@.len() - k,
    {
        let x = &v[k];
        let ghost sv = views(sorted@);
        let ghost p = |y: Seq<char>| before(es@, x@, y);
        let mut j: usize = 0;
        while j < sorted.len() && !before_exec(es, x.as_str(), sorted[j].as_str())
            invariant
                j <= sorted@.len(),
                sv == views(sorted@),
                p == (|y: Seq<char>| before(es@, x@, y)),
                first(sv, p) == first_from(sv, p, j as int),
            decreases sorted@.len() - j,
        {
            assert(sv[j as int] == sorted@[j as int]@);
            j = j + 1;
        }
        proof {
            if j < sorted@.len() {
                assert(sv[j as int] == sorted@[j as int]@);
            }
            let t1 = all.take(k + 1);
            assert(t1.drop_last() =~= all.take(k as int));
            assert(t1.last() == x@);
            lemma_first_from(sv, p, j as int);
            assert(sort_ids(es@, t1) == ins_id(es@, sv, x@));
        }
        if j < sorted.len() {
            sorted.insert(j, x.clone());
            assert(views(sorted@) =~= sv.insert(j as int, x@));
        } else {
            sorted.push(x.clone());
            assert(views(sorted@) =~= sv.push(x@));
        }
        k = k + 1;
    }
    assert(all.take(v@.len() as int) =~= all);
    sorted
}

/// For each id of `c` (the flowchart's ids), the longest walk to it from a
/// start with fewer than `bound` edges.
pub(crate) fn longest_walks(fc: &Flowchart, c: &Vec<String>, st: &Vec<String>, bound: usize) -> (lay: Vec<Option<usize>>)
    requires
        views(c@) == cands(fc.nodes@, fc.edges@),
        views(st@) == starts(fc.nodes@, fc.edges@),
    ensures
        lay@.len() == c@.len(),
        forall|q: int| 0 <= q < c@.len() ==> opt_nat(#[trigger] lay@[q]) == best(fc.nodes@, fc.edges@, views(c@)[q], bound as nat),
{
    let ns = &fc.nodes;
    let es = &fc.edges;
    let ghost nsv = ns@;
    let ghost esv = es@;
    let ghost cv = views(c@);
    let u = universe_exec(ns, es);
    proof {
        lemma_nub(views(u@));
    }
    let n = c.len();
    let m = es.len();
    // where each edge starts, as a position in `c`
    let mut from_idx: Vec<usize> = Vec::new();
    let mut j: usize = 0;
    while j < m
        invariant
            j <= m,
            m == es@.len(),
            n == c@.len(),
            cv == views(c@),
            views(u@) == universe(nsv, esv),
            nsv == ns@,
            esv == es@,
            forall|x: Seq<char>| #![trigger cv.contains(x)] cv.contains(x) <==> views(u@).contains(x),
            from_idx@.len() == j,
            forall|q: int| 0 <= q < j ==> (#[trigger] from_idx@[q]) < n && c@[from_idx@[q] as int]@ == es@[q].from@,
        decreases m - j,
    {
        assert(universe(nsv, esv)[nsv.len() + j] == es@[j as int].from@);
        assert(views(u@).contains(es@[j as int].from@));
        assert(cv.contains(es@[j as int].from@));
        match index_of(&c, es[j].from.as_str()) {
            Some(i) => {
                from_idx.push(i);
            },
            None => {
                assert(false);
            },
        }
        j = j + 1;
    }
    // walks of no edge
    let mut cur: Vec<bool> = Vec::new();
    let mut i: usize = 0;
    while i < n
        invariant
            i <= n,
            n == c@.len(),
            cv == views(c@),
            views(st@) == starts(nsv, esv),
            cur@.len() == i,
            forall|q: int| 0 <= q < i ==> (#[trigger] cur@[q]) == reach(nsv, esv, 0, cv[q]),
        decreases n - i,
    {
        assert(cv[i as int] == c@[i as int]@);
        let b = contains_str(&st, c[i].as_str());
        cur.push(b);
        i = i + 1;
    }
    let mut lay: Vec<Option<usize>> = Vec::new();
    i = 0;
    while i < n
        invariant
            i <= n,
            lay@.len() == i,
            forall|q: int| 0 <= q < i ==> (#[trigger] lay@[q]) is None,
        decreases n - i,
    {
        lay.push(None);
        i = i + 1;
    }
    let mut k: usize = 0;
    while k < bound
        invariant
            k <= bound,
            n == c@.len(),
            m == es@.len(),
            cv == views(c@),
            nsv == ns@,
            esv == es@,
            from_idx@.len() == m,
            forall|q: int| 0 <= q < m ==> (#[trigger] from_idx@[q]) < n && c@[from_idx@[q] as int]@ == es@[q].from@,
            cur@.len() == n,
            lay@.len() == n,
            forall|q: int| 0 <= q < n ==> (#[trigger] cur@[q]) == reach(nsv, esv, k as nat, cv[q]),
            forall|q: int| 0 <= q < n ==> opt_nat(#[trigger] lay@[q]) == best(nsv, esv, cv[q], k as nat),
        decreases bound - k,
    {
        i = 0;
        while i < n
            invariant
                i <= n,
                n == c@.len(),
                cur@.len() == n,
                lay@.len() == n,
                forall|q: int| 0 <= q < n ==> (#[trigger] cur@[q]) == reach(nsv, esv, k as nat, cv[q]),
                forall|q: int| 0 <= q < i ==> opt_nat(#[trigger] lay@[q]) == best(nsv, esv, cv[q], (k + 1) as nat),
                forall|q: int| i <= q < n ==> opt_nat(#[trigger] lay@[q]) == best(nsv, esv, cv[q], k as nat),
            decreases n - i,
        {
            if cur[i] {
                lay.set(i, Some(k));
            }
            i = i + 1;
        }
        let mut nxt: Vec<bool> = Vec::new();
        i = 0;
        while i < n
            invariant
                i <= n,
                n == c@.len(),
                m == es@.len(),
                cv == views(c@),
                esv == es@,
                from_idx@.len() == m,
                forall|q: int| 0 <= q < m ==> (#[trigger] from_idx@[q]) < n && c@[from_idx@[q] as int]@ == es@[q].from@,
                cur@.len() == n,
                forall|q: int| 0 <= q < n ==> (#[trigger] cur@[q]) == reach(nsv, esv, k as nat, cv[q]),
                nxt@.len() == i,
                forall|q: int| 0 <= q < i ==> (#[trigger] nxt@[q]) == reach(nsv, esv, (k + 1) as nat, cv[q]),
            decreases n - i,
        {
            let mut found = false;
            let mut jj: usize = 0;
            while jj < m
                invariant
                    jj <= m,
                    i < n,
                    n == c@.len(),
                    m == es@.len(),
                    cv == views(c@),
                    esv == es@,
                    from_idx@.len() == m,
                    forall|q: int| 0 <= q < m ==> (#[trigger] from_idx@[q]) < n && c@[from_idx@[q] as int]@ == es@[q].from@,
                    cur@.len() == n,
                    forall|q: int| 0 <= q < n ==> (#[trigger] cur@[q]) == reach(nsv, esv, k as nat, cv[q]),
                    found == exists|q: int| 0 <= q < jj && (#[trigger] esv[q]).to@ == cv[i as int] && reach(nsv, esv, k as nat, esv[q].from@),
                decreases m - jj,
            {
                let fi = from_idx[jj];
                assert(cv[fi as int] == es@[jj as int].from@);
                assert(cv[i as int] == c@[i as int]@);
                if cur[fi] && str_eq(es[jj].to.as_str(), c[i].as_str()) {
                    found = true;
                }
                jj = jj + 1;
            }
            assert(reach(nsv, esv, (k + 1) as nat, cv[i as int]) == found);
            nxt.push(found);
            i = i + 1;
        }
        cur = nxt;
        k = k + 1;
    }
    lay
}

/// The layers of a flowchart, top to bottom, each in layer order.
pub fn layer_lists(fc: &Flowchart) -> (r: Vec<Vec<String>>)
    ensures
        r@.len() == layers(fc.nodes@, fc.edges@).len(),
        forall|k: int| 0 <= k < r@.len() ==> views(#[trigger] r@[k]@) == layers(fc.nodes@, fc.edges@)[k],
{
    let ns = &fc.nodes;
    let es = &fc.edges;
    let ghost nsv = ns@;
    let ghost esv = es@;
    let uniq = uniq_ids_exec(ns);
    let st = starts_exec(ns, es, &uniq);
    let u = universe_exec(ns, es);
    let c = nub_exec(&u);
    let ghost cv = views(c@);
    proof {
        lemma_nub(views(u@));
    }
    let bound = uniq.len();
    let lay = longest_walks(fc, &c, &st, bound);
    let n = c.len();
    // the layer of each id
    let mut lf: Vec<Option<usize>> = Vec::new();
    let mut i: usize = 0;
    while i < n
        invariant
            i <= n,
            n == c@.len(),
            cv == views(c@),
            bound == uniq_ids(nsv).len(),
            views(uniq@) == uniq_ids(nsv),
            lay@.len() == n,
            forall|q: int| 0 <= q < n ==> opt_nat(#[trigger] lay@[q]) == best(nsv, esv, cv[q], bound as nat),
            lf@.len() == i,
            forall|q: int| 0 <= q < i ==> opt_nat(#[trigger] lf@[q]) == layer_of(nsv, esv, cv[q]),
        decreases n - i,
    {
        assert(cv[i as int] == c@[i as int]@);
        let v = match lay[i] {
            Some(x) => Some(x),
            None => if contains_str(&uniq, c[i].as_str()) {
                Some(0)
            } else {
                None
            },
        };
        lf.push(v);
        i = i + 1;
    }
    // the highest layer
    let mut top: usize = 0;
    i = 0;
    assert(cv.take(0) =~= Seq::<Seq<char>>::empty());
    while i < n
        invariant
            i <= n,
            n == c@.len(),
            cv == views(c@),
            lf@.len() == n,
            forall|q: int| 0 <= q < n ==> opt_nat(#[trigger] lf@[q]) == layer_of(nsv, esv, cv[q]),
            top == top_layer(nsv, esv, cv.take(i as int)),
        decreases n - i,
    {
        assert(cv.take(i + 1).drop_last() =~= cv.take(i as int));
        assert(cv.take(i + 1).last() == cv[i as int]);
        assert(opt_nat(lf@[i as int]) == layer_of(nsv, esv, cv[i as int]));
        match lf[i] {
            Some(x) => if x > top {
                top = x;
            },
            None => {},
        }
        i = i + 1;
    }
    assert(cv.take(n as int) =~= cv);
    proof {
        lemma_top_bound(nsv, esv, cv);
    }
    // the lists
    let mut r: Vec<Vec<String>> = Vec::new();
    let mut l: usize = 0;
    while l <= top
        invariant
            l <= top + 1,
            top == top_layer(nsv, esv, cv),
            top < usize::MAX,
            n == c@.len(),
            cv == views(c@),
            esv == es@,
            lf@.len() == n,
            forall|q: int| 0 <= q < n ==> opt_nat(#[trigger] lf@[q]) == layer_of(nsv, esv, cv[q]),
            r@.len() == l,
            forall|q: int| 0 <= q < l ==> views(#[trigger] r@[q]@) == sort_ids(esv, members(nsv, esv, cv, q as nat)),
        decreases top + 1 - l,
    {
        let mut mem: Vec<String> = Vec::new();
        i = 0;
        assert(cv.take(0) =~= Seq::<Seq<char>>::empty());
        while i < n
            invariant
                i <= n,
                n == c@.len(),
                cv == views(c@),
                lf@.len() == n,
                forall|q: int| 0 <= q < n ==> opt_nat(#[trigger] lf@[q]) == layer_of(nsv, esv, cv[q]),
                views(mem@) == members(nsv, esv, cv.take(i as int), l as nat),
            decreases n - i,
        {
            assert(cv.take(i + 1).drop_last() =~= cv.take(i as int));
            assert(cv.take(i + 1).last() == cv[i as int]);
            assert(opt_nat(lf@[i as int]) == layer_of(nsv, esv, cv[i as int]));
            assert(cv[i as int] == c@[i as int]@);
            let on = match lf[i] {
                Some(x) => x == l,
                None => false,
            };
            if on {
                let ghost before = views(mem@);
                mem.push(c[i].clone());
                assert(views(mem@) =~= before.push(cv[i as int]));
            }
            i = i + 1;
        }
        assert(cv.take(n as int) =~= cv);
        let sorted = sort_ids_exec(es, &mem);
        r.push(sorted);
        l = l + 1;
    }
    r
}

proof fn lemma_top_bound(ns: Seq<Node>, es: Seq<Edge>, c: Seq<Seq<char>>)
    ensures
        top_layer(ns, es, c) < uniq_ids(ns).len() || top_layer(ns, es, c) == 0,
    decreases c.len(),
{
    if c.len() > 0 {
        lemma_top_bound(ns, es, c.drop_last());
        lemma_best_bound(ns, es, c.last(), uniq_ids(ns).len());
    }
}

pub(crate) proof fn lemma_best_bound(ns: Seq<Node>, es: Seq<Edge>, v: Seq<char>, k: nat)
    ensures
        best(ns, es, v, k) matches Some(x) ==> x < k,
    decreases k,
{
    if k > 0 {
        lemma_best_bound(ns, es, v, (k - 1) as nat);
    }
}

// ---------------------------------------------------------------- boxes

/// The text of the first node with this id, or the id itself.
pub open spec fn label_of(ns: Seq<Node>, id: Seq<char>) -> Seq<char> {
    match first(ns, node_is(id)) {
        Some(k) => ns[k].text@,
        None => id,
    }
}

pub open spec fn labels(ns: Seq<Node>, ids: Seq<Seq<char>>) -> Seq<Seq<char>> {
    Seq::new(ids.len(), |k: int| label_of(ns, ids[k]))
}

pub open spec fn repeat_char(c: char, n: nat) -> Seq<char> {
    Seq::new(n, |i: int| c)
}

/// Inner width of a box around this label.
pub open spec fn box_w(l: Seq<char>) -> nat {
    if l.len() + 2 > 6 { (l.len() + 2) as nat } else { 6 }
}

/// Widest box of a row.
pub open spec fn row_w(ls: Seq<Seq<char>>) -> nat
    decreases ls.len(),
{
    if ls.len() == 0 {
        0
    } else {
        let p = row_w(ls.drop_last());
        if box_w(ls.last()) > p { box_w(ls.last()) } else { p }
    }
}

pub open spec fn edge_cell(w: nat) -> Seq<char> {
    "+"@ + repeat_char('-', w) + "+  "@
}

pub open spec fn label_cell(l: Seq<char>, w: nat) -> Seq<char> {
    let pad = if w >= l.len() { (w - l.len()) as nat } else { 0 };
    "|"@ + repeat_char(' ', pad / 2) + l + repeat_char(' ', (pad - pad / 2) as nat) + "|  "@
}

pub open spec fn edge_row(n: nat, w: nat) -> Seq<char>
    decreases n,
{
    if n == 0 { Seq::empty() } else { edge_row((n - 1) as nat, w) + edge_cell(w) }
}

pub open spec fn label_row(ls: Seq<Seq<char>>, w: nat) -> Seq<char>
    decreases ls.len(),
{
    if ls.len() == 0 { Seq::empty() } else { label_row(ls.drop_last(), w) + label_cell(ls.last(), w) }
}

/// Without trailing spaces.
pub open spec fn trim_spaces(s: Seq<char>) -> Seq<char>
    decreases s.len(),
{
    if s.len() > 0 && s.last() == ' ' { trim_spaces(s.drop_last()) } else { s }
}

/// The three lines of boxes of one layer.
pub open spec fn layer_text(ns: Seq<Node>, ids: Seq<Seq<char>>) -> Seq<char> {
    let ls = labels(ns, ids);
    let w = row_w(ls);
    let t = trim_spaces(edge_row(ls.len(), w));
    t + "\n"@ + trim_spaces(label_row(ls, w)) + "\n"@ + t + "\n"@
}

fn repeat_exec(out: &mut String, c: char, n: u128)
    ensures
        final(out)@ == old(out)@ + repeat_char(c, n as nat),
{
    let mut i: u128 = 0;
    while i < n
        invariant
            i <= n,
            out@ == old(out)@ + repeat_char(c, i as nat),
        decreases n - i,
    {
        crate::text::push_char(out, c);
        assert(repeat_char(c, (i + 1) as nat) =~= repeat_char(c, i as nat).push(c));
        i = i + 1;
    }
}

fn trim_spaces_exec(s: &mut String)
    ensures
        final(s)@ == trim_spaces(old(s)@),
{
    let cs = chars_of(s.as_str());
    let mut n: usize = cs.len();
    assert(cs@.take(n as int) =~= cs@);
    while n > 0 && cs[n - 1] == ' '
        invariant
            n <= cs@.len(),
            trim_spaces(cs@) == trim_spaces(cs@.take(n as int)),
        decreases n,
    {
        assert(cs@.take(n as int).drop_last() =~= cs@.take(n - 1));
        n = n - 1;
    }
    assert(cs@ == old(s)@);
    let mut out = String::new();
    let mut i: usize = 0;
    while i < n
        invariant
            i <= n,
            n <= cs@.len(),
            out@ == cs@.take(i as int),
        decreases n - i,
    {
        crate::text::push_char(&mut out, cs[i]);
        assert(cs@.take(i + 1) =~= cs@.take(i as int).push(cs@[i as int]));
        i = i + 1;
    }
    proof {
        if n > 0 {
            assert(cs@.take(n as int).last() == cs@[n - 1]);
        }
    }
    *s = out;
}

fn label_exec(ns: &Vec<Node>, id: &str) -> (r: String)
    ensures
        r@ == label_of(ns@, id@),
{
    match crate::diagram::find_node(ns, id) {
        Some(k) => ns[k].text.clone(),
        None => crate::text::string_from(id),
    }
}

proof fn lemma_row_w_step(ls: Seq<Seq<char>>, k: int)
    requires
        0 <= k < ls.len(),
    ensures
        row_w(ls.take(k + 1)) == if box_w(ls[k]) > row_w(ls.take(k)) { box_w(ls[k]) } else { row_w(ls.take(k)) },
{
    assert(ls.take(k + 1).drop_last() =~= ls.take(k));
}

/// The three lines of boxes of one layer.
fn layer_text_exec(ns: &Vec<Node>, ids: &Vec<String>) -> (r: String)
    ensures
        r@ == layer_text(ns@, views(ids@)),
{
    let ghost ls = labels(ns@, views(ids@));
    let mut labs: Vec<String> = Vec::new();
    let mut w: u128 = 0;
    let mut k: usize = 0;
    assert(ls.take(0) =~= Seq::<Seq<char>>::empty());
    while k < ids.len()
        invariant
            k <= ids@.len(),
            ls == labels(ns@, views(ids@)),
            views(labs@) == ls.take(k as int),
            w == row_w(ls.take(k as int)),
            w <= usize::MAX as u128 + 2,
        decreases ids@.len() - k,
    {
        let l = label_exec(ns, ids[k].as_str());
        let n = chars_of(l.as_str()).len();
        let bw: u128 = if n as u128 + 2 > 6 { n as u128 + 2 } else { 6 };
        proof {
            lemma_row_w_step(ls, k as int);
            assert(ls[k as int] == l@);
        }
        if bw > w {
            w = bw;
        }
        let ghost before = views(labs@);
        labs.push(l);
        assert(views(labs@) =~= before.push(ls[k as int]));
        assert(ls.take(k + 1) =~= ls.take(k as int).push(ls[k as int]));
        k = k + 1;
    }
    assert(ls.take(ids@.len() as int) =~= ls);
    let mut top = String::new();
    let mut mid = String::new();
    k = 0;
    while k < labs.len()
        invariant
            k <= labs@.len(),
            views(labs@) == ls,
            w == row_w(ls),
            top@ == edge_row(k as nat, w as nat),
            mid@ == label_row(ls.take(k as int), w as nat),
        decreases labs@.len() - k,
    {
        let ghost t0 = top@;
        let ghost m0 = mid@;
        crate::text::push_str(&mut top, "+");
        repeat_exec(&mut top, '-', w);
        crate::text::push_str(&mut top, "+  ");
        assert(top@ =~= t0 + edge_cell(w as nat));
        let l = &labs[k];
        let n = chars_of(l.as_str()).len() as u128;
        let pad: u128 = if w >= n { w - n } else { 0 };
        crate::text::push_str(&mut mid, "|");
        repeat_exec(&mut mid, ' ', pad / 2);
        crate::text::push_str(&mut mid, l.as_str());
        repeat_exec(&mut mid, ' ', pad - pad / 2);
        crate::text::push_str(&mut mid, "|  ");
        proof {
            assert(ls.take(k + 1).drop_last() =~= ls.take(k as int));
            assert(ls.take(k + 1).last() == l@);
            assert(views(labs@)[k as int] == l@);
            assert(mid@ =~= m0 + label_cell(l@, w as nat));
        }
        k = k + 1;
    }
    assert(ls.take(labs@.len() as int) =~= ls);
    trim_spaces_exec(&mut top);
    trim_spaces_exec(&mut mid);
    let mut out = top.clone();
    crate::text::push_str(&mut out, "\n");
    crate::text::push_str(&mut out, mid.as_str());
    crate::text::push_str(&mut out, "\n");
    crate::text::push_str(&mut out, top.as_str());
    crate::text::push_str(&mut out, "\n");
    out
}

// ---------------------------------------------------------------- connectors

/// Some edge runs from `f` to `t`.
pub open spec fn has_edge(es: Seq<Edge>, f: Seq<char>, t: Seq<char>) -> bool {
    exists|j: int| 0 <= j < es.len() && (#[trigger] es[j]).from@ == f && es[j].to@ == t
}

/// The ids of `to` that an edge from `f` reaches, in order.
pub open spec fn targets(es: Seq<Edge>, f: Seq<char>, to: Seq<Seq<char>>) -> Seq<Seq<char>>
    decreases to.len(),
{
    if to.len() == 0 {
        Seq::empty()
    } else {
        let p = targets(es, f, to.drop_last());
        if has_edge(es, f, to.last()) { p.push(to.last()) } else { p }
    }
}

/// The label of the first edge from `f` to `t`.
pub open spec fn edge_label(es: Seq<Edge>, f: Seq<char>, t: Seq<char>) -> Seq<char> {
    match first(es, edge_is(f, t)) {
        Some(j) => es[j].label@,
        None => Seq::empty(),
    }
}

/// At most `max` characters, the last replaced by an ellipsis when cut.
pub open spec fn truncate(s: Seq<char>, max: nat) -> Seq<char> {
    if s.len() <= max {
        s
    } else {
        s.take(max - 1) + "…"@
    }
}

/// What is drawn under a box towards the next layer.
pub open spec fn connector(es: Seq<Edge>, f: Seq<char>, to: Seq<Seq<char>>) -> Seq<char> {
    let ts = targets(es, f, to);
    if ts.len() == 0 {
        "   "@
    } else if ts.len() == 1 {
        let l = edge_label(es, f, ts[0]);
        if l.len() == 0 { " | "@ } else { " |"@ + truncate(l, 10) + "|"@ }
    } else {
        " |×"@ + decimal(ts.len()) + " "@
    }
}

pub open spec fn connector_row(es: Seq<Edge>, from: Seq<Seq<char>>, to: Seq<Seq<char>>) -> Seq<char> {
    trim_spaces(join(Seq::new(from.len(), |k: int| connector(es, from[k], to)), "  "@))
}

/// The text of the first `n` layers of `ls`.
pub open spec fn layers_text(ns: Seq<Node>, es: Seq<Edge>, ls: Seq<Seq<Seq<char>>>, n: int) -> Seq<char>
    decreases n,
{
    if n <= 0 {
        Seq::empty()
    } else {
        layers_text(ns, es, ls, n - 1) + layer_text(ns, ls[n - 1]) + if n < ls.len() {
            connector_row(es, ls[n - 1], ls[n]) + "\n"@
        } else {
            Seq::empty()
        }
    }
}

/// A flowchart drawn as layers of boxes.
pub open spec fn flowchart_ascii(fc: Flowchart) -> Seq<char> {
    if fc.nodes@.len() == 0 {
        "(empty flowchart)\n"@
    } else {
        let ls = layers(fc.nodes@, fc.edges@);
        layers_text(fc.nodes@, fc.edges@, ls, ls.len() as int)
    }
}

fn has_edge_exec(es: &Vec<Edge>, f: &str, t: &str) -> (r: bool)
    ensures
        r == has_edge(es@, f@, t@),
{
    let mut j: usize = 0;
    while j < es.len()
        invariant
            j <= es@.len(),
            forall|q: int| 0 <= q < j ==> !((#[trigger] es@[q]).from@ == f@ && es@[q].to@ == t@),
        decreases es@.len() - j,
    {
        if str_eq(es[j].from.as_str(), f) && str_eq(es[j].to.as_str(), t) {
            return true;
        }
        j = j + 1;
    }
    false
}

fn edge_label_exec(es: &Vec<Edge>, f: &str, t: &str) -> (r: String)
    ensures
        r@ == edge_label(es@, f@, t@),
{
    proof {
        lemma_first_from(es@, edge_is(f@, t@), 0);
    }
    let mut j: usize = 0;
    while j < es.len()
        invariant
            j <= es@.len(),
            first(es@, edge_is(f@, t@)) == first_from(es@, edge_is(f@, t@), j as int),
        decreases es@.len() - j,
    {
        if str_eq(es[j].from.as_str(), f) && str_eq(es[j].to.as_str(), t) {
            return es[j].label.clone();
        }
        j = j + 1;
    }
    String::new()
}

fn truncate_exec(s: &str, max: usize) -> (r: String)
    requires
        max > 0,
    ensures
        r@ == truncate(s@, max as nat),
{
    let cs = chars_of(s);
    if cs.len() <= max {
        crate::text::string_from(s)
    } else {
        let mut out = String::new();
        let mut i: usize = 0;
        while i < max - 1
            invariant
                i <= max - 1,
                max - 1 < cs@.len(),
                out@ == cs@.take(i as int),
            decreases max - 1 - i,
        {
            crate::text::push_char(&mut out, cs[i]);
            assert(cs@.take(i + 1) =~= cs@.take(i as int).push(cs@[i as int]));
            i = i + 1;
        }
        crate::text::push_str(&mut out, "…");
        out
    }
}

fn connector_exec(es: &Vec<Edge>, f: &str, to: &Vec<String>) -> (r: String)
    ensures
        r@ == connector(es@, f@, views(to@)),
{
    let ghost tv = views(to@);
    let mut ts: Vec<String> = Vec::new();
    let mut k: usize = 0;
    assert(tv.take(0) =~= Seq::<Seq<char>>::empty());
    while k < to.len()
        invariant
            k <= to@.len(),
            tv == views(to@),
            views(ts@) == targets(es@, f@, tv.take(k as int)),
        decreases to@.len() - k,
    {
        assert(tv.take(k + 1).drop_last() =~= tv.take(k as int));
        assert(tv.take(k + 1).last() == to@[k as int]@);
        if has_edge_exec(es, f, to[k].as_str()) {
            let ghost before = views(ts@);
            ts.push(to[k].clone());
            assert(views(ts@) =~= before.push(to@[k as int]@));
        }
        k = k + 1;
    }
    assert(tv.take(to@.len() as int) =~= tv);
    if ts.len() == 0 {
        crate::text::string_from("   ")
    } else if ts.len() == 1 {
        assert(views(ts@)[0] == ts@[0]@);
        let l = edge_label_exec(es, f, ts[0].as_str());
        if chars_of(l.as_str()).len() == 0 {
            crate::text::string_from(" | ")
        } else {
            let mut out = crate::text::string_from(" |");
            let t = truncate_exec(l.as_str(), 10);
            crate::text::push_str(&mut out, t.as_str());
            crate::text::push_str(&mut out, "|");
            out
        }
    } else {
        let mut out = crate::text::string_from(" |×");
        crate::text::push_decimal(&mut out, ts.len());
        crate::text::push_str(&mut out, " ");
        out
    }
}

fn connector_row_exec(es: &Vec<Edge>, from: &Vec<String>, to: &Vec<String>) -> (r: String)
    ensures
        r@ == connector_row(es@, views(from@), views(to@)),
{
    let mut cs: Vec<String> = Vec::new();
    let mut k: usize = 0;
    while k < from.len()
        invariant
            k <= from@.len(),
            views(cs@) == Seq::new(k as nat, |q: int| connector(es@, views(from@)[q], views(to@))),
        decreases from@.len() - k,
    {
        let c = connector_exec(es, from[k].as_str(), to);
        let ghost before = views(cs@);
        cs.push(c);
        assert(views(from@)[k as int] == from@[k as int]@);
        assert(views(cs@) =~= before.push(c@));
        assert(views(cs@) =~= Seq::new((k + 1) as nat, |q: int| connector(es@, views(from@)[q], views(to@))));
        k = k + 1;
    }
    let mut row = crate::text::join_strings(&cs, "  ");
    assert(views(cs@) =~= Seq::new(views(from@).len(), |q: int| connector(es@, views(from@)[q], views(to@))));
    trim_spaces_exec(&mut row);
    row
}

/// A flowchart drawn as layers of boxes.
pub fn render_flowchart(fc: &Flowchart) -> (r: String)
    ensures
        r@ == flowchart_ascii(*fc),
{
    if fc.nodes.len() == 0 {
        return crate::text::string_from("(empty flowchart)\n");
    }
    let ls = layer_lists(fc);
    let ghost lv = layers(fc.nodes@, fc.edges@);
    let mut out = String::new();
    let mut i: usize = 0;
    while i < ls.len()
        invariant
            i <= ls@.len(),
            ls@.len() == lv.len(),
            lv == layers(fc.nodes@, fc.edges@),
            forall|k: int| 0 <= k < ls@.len() ==> views(#[trigger] ls@[k]@) == lv[k],
            out@ == layers_text(fc.nodes@, fc.edges@, lv, i as int),
        decreases ls@.len() - i,
    {
        let t = layer_text_exec(&fc.nodes, &ls[i]);
        assert(views(ls@[i as int]@) == lv[i as int]);
        let ghost o0 = out@;
        crate::text::push_str(&mut out, t.as_str());
        if i + 1 < ls.len() {
            let row = connector_row_exec(&fc.edges, &ls[i], &ls[i + 1]);
            assert(views(ls@[i + 1]@) == lv[i + 1]);
            crate::text::push_str(&mut out, row.as_str());
            crate::text::push_str(&mut out, "\n");
        }
        assert(out@ =~= layers_text(fc.nodes@, fc.edges@, lv, i + 1));
        i = i + 1;
    }
    out
}

// ---------------------------------------------------------------- outlines

pub open spec fn participant_line(p: Participant) -> Seq<char> {
    "  participant "@ + (if p.label@.len() == 0 { p.id@ } else { p.label@ }) + "\n"@
}

pub open spec fn arrow_token(a: MessageArrow) -> Seq<char> {
    match a {
        MessageArrow::Solid => "->>"@,
        MessageArrow::Dashed => "-->>"@,
    }
}

pub open spec fn message_line(m: Message) -> Seq<char> {
    "  "@ + m.from@ + " "@ + arrow_token(m.arrow) + " "@ + m.to@ + ": "@ + m.text@ + "\n"@
}

pub open spec fn participant_lines(ps: Seq<Participant>) -> Seq<char>
    decreases ps.len(),
{
    if ps.len() == 0 { Seq::empty() } else { participant_lines(ps.drop_last()) + participant_line(ps.last()) }
}

pub open spec fn message_lines(ms: Seq<Message>) -> Seq<char>
    decreases ms.len(),
{
    if ms.len() == 0 { Seq::empty() } else { message_lines(ms.drop_last()) + message_line(ms.last()) }
}

pub open spec fn sequence_ascii(d: SequenceDiagram) -> Seq<char> {
    "sequenceDiagram\n"@ + participant_lines(d.participants@) + message_lines(d.messages@)
}

pub open spec fn member_lines(ms: Seq<ClassMember>) -> Seq<char>
    decreases ms.len(),
{
    if ms.len() == 0 { Seq::empty() } else { member_lines(ms.drop_last()) + "    "@ + ms.last().text@ + "\n"@ }
}

pub open spec fn class_block(c: Class) -> Seq<char> {
    "  class "@ + c.id@ + (match c.stereotype {
        Some(st) => " <<"@ + st@ + ">>"@,
        None => Seq::empty(),
    }) + "\n"@ + member_lines(c.members@)
}

pub open spec fn class_blocks(cs: Seq<Class>) -> Seq<char>
    decreases cs.len(),
{
    if cs.len() == 0 { Seq::empty() } else { class_blocks(cs.drop_last()) + class_block(cs.last()) }
}

pub open spec fn relation_lines(rs: Seq<Relation>) -> Seq<char>
    decreases rs.len(),
{
    if rs.len() == 0 {
        Seq::empty()
    } else {
        let r = rs.last();
        relation_lines(rs.drop_last()) + "  "@ + r.from@ + " "@ + relation_token(r.kind) + " "@ + r.to@ + "\n"@
    }
}

pub open spec fn class_ascii(d: ClassDiagram) -> Seq<char> {
    "classDiagram\n"@ + class_blocks(d.classes@) + relation_lines(d.relations@)
}

pub open spec fn task_lines(ts: Seq<GanttTask>) -> Seq<char>
    decreases ts.len(),
{
    if ts.len() == 0 {
        Seq::empty()
    } else {
        task_lines(ts.drop_last()) + "  "@ + ts.last().name@ + " ["@ + ts.last().section@ + "]\n"@
    }
}

pub open spec fn gantt_ascii(d: GanttDiagram) -> Seq<char> {
    (if d.title@.len() == 0 { Seq::empty() } else { "gantt: "@ + d.title@ + "\n"@ }) + task_lines(d.tasks@)
}

pub open spec fn transition_lines(ts: Seq<Transition>) -> Seq<char>
    decreases ts.len(),
{
    if ts.len() == 0 {
        Seq::empty()
    } else {
        let t = ts.last();
        transition_lines(ts.drop_last()) + "  "@ + t.from@ + " --> "@ + t.to@ + (if t.label@.len() == 0 {
            "\n"@
        } else {
            " : "@ + t.label@ + "\n"@
        })
    }
}

pub open spec fn state_ascii(d: StateDiagram) -> Seq<char> {
    "stateDiagram-v2\n"@ + transition_lines(d.transitions@)
}

pub open spec fn card_symbol(c: Cardinality) -> Seq<char> {
    match c {
        Cardinality::One => "1"@,
        Cardinality::ZeroOrOne => "0..1"@,
        Cardinality::ZeroOrMore => "0..*"@,
        Cardinality::OneOrMore => "1..*"@,
    }
}

pub open spec fn attribute_lines(a: Seq<Attribute>) -> Seq<char>
    decreases a.len(),
{
    if a.len() == 0 {
        Seq::empty()
    } else {
        attribute_lines(a.drop_last()) + "    "@ + a.last().data_type@ + " "@ + a.last().name@ + "\n"@
    }
}

pub open spec fn entity_blocks(es: Seq<Entity>) -> Seq<char>
    decreases es.len(),
{
    if es.len() == 0 {
        Seq::empty()
    } else {
        entity_blocks(es.drop_last()) + "  "@ + es.last().id@ + " {\n"@ + attribute_lines(es.last().attributes@) + "  }\n"@
    }
}

pub open spec fn relationship_lines(rs: Seq<Relationship>) -> Seq<char>
    decreases rs.len(),
{
    if rs.len() == 0 {
        Seq::empty()
    } else {
        relationship_lines(rs.drop_last()) + relationship_line(rs.last())
    }
}

pub open spec fn relationship_line(r: Relationship) -> Seq<char> {
    "  "@ + r.from@ + " "@ + card_symbol(r.from_card) + "--"@ + card_symbol(r.to_card) + " "@ + r.to@ + " : "@
        + r.label@ + "\n"@
}

fn relationship_line_exec(r: &Relationship) -> (s: String)
    ensures
        s@ == relationship_line(*r),
{
    let mut out = crate::text::string_from("  ");
    crate::text::push_str(&mut out, r.from.as_str());
    crate::text::push_str(&mut out, " ");
    crate::text::push_str(&mut out, r.from_card.symbol());
    crate::text::push_str(&mut out, "--");
    crate::text::push_str(&mut out, r.to_card.symbol());
    crate::text::push_str(&mut out, " ");
    crate::text::push_str(&mut out, r.to.as_str());
    crate::text::push_str(&mut out, " : ");
    crate::text::push_str(&mut out, r.label.as_str());
    crate::text::push_str(&mut out, "\n");
    out
}

pub open spec fn er_ascii(d: ErDiagram) -> Seq<char> {
    "erDiagram\n"@ + entity_blocks(d.entities@) + relationship_lines(d.relationships@)
}

pub open spec fn diagram_ascii(d: Diagram) -> Seq<char> {
    match d {
        Diagram::Flowchart(fc) => flowchart_ascii(fc),
        Diagram::Sequence(s) => sequence_ascii(s),
        Diagram::Class(c) => class_ascii(c),
        Diagram::Gantt(g) => gantt_ascii(g),
        Diagram::State(s) => state_ascii(s),
        Diagram::Er(e) => er_ascii(e),
    }
}

/// The text of the first `n` diagrams of a document of several.
pub open spec fn document_ascii_upto(ds: Seq<Diagram>, n: int) -> Seq<char>
    decreases n,
{
    if n <= 0 {
        Seq::empty()
    } else {
        document_ascii_upto(ds, n - 1) + (if n - 1 > 0 { "\n"@ } else { Seq::empty() }) + "// diagram "@
            + decimal((n - 1) as nat) + ": "@ + kind_name(kind_of(ds[n - 1])) + "\n"@ + diagram_ascii(ds[n - 1])
    }
}

/// A document as plain text; several diagrams are each headed by a marker.
pub open spec fn document_ascii(ds: Seq<Diagram>) -> Seq<char> {
    if ds.len() == 0 {
        "(empty document)\n"@
    } else if ds.len() == 1 {
        diagram_ascii(ds[0])
    } else {
        document_ascii_upto(ds, ds.len() as int)
    }
}

fn sequence_outline(d: &SequenceDiagram) -> (r: String)
    ensures
        r@ == sequence_ascii(*d),
{
    let mut out = crate::text::string_from("sequenceDiagram\n");
    let ghost h = out@;
    let ps = &d.participants;
    let mut i: usize = 0;
    assert(ps@.take(0) =~= Seq::<Participant>::empty());
    while i < ps.len()
        invariant
            i <= ps@.len(),
            out@ == h + participant_lines(ps@.take(i as int)),
        decreases ps@.len() - i,
    {
        assert(ps@.take(i + 1).drop_last() =~= ps@.take(i as int));
        let ghost o0 = out@;
        let p = &ps[i];
        crate::text::push_str(&mut out, "  participant ");
        if chars_of(p.label.as_str()).len() == 0 {
            crate::text::push_str(&mut out, p.id.as_str());
        } else {
            crate::text::push_str(&mut out, p.label.as_str());
        }
        crate::text::push_str(&mut out, "\n");
        assert(out@ =~= o0 + participant_line(*p));
        i = i + 1;
    }
    assert(ps@.take(ps@.len() as int) =~= ps@);
    let ghost h2 = out@;
    let ms = &d.messages;
    i = 0;
    assert(ms@.take(0) =~= Seq::<Message>::empty());
    while i < ms.len()
        invariant
            i <= ms@.len(),
            out@ == h2 + message_lines(ms@.take(i as int)),
        decreases ms@.len() - i,
    {
        assert(ms@.take(i + 1).drop_last() =~= ms@.take(i as int));
        let ghost o0 = out@;
        let m = &ms[i];
        crate::text::push_str(&mut out, "  ");
        crate::text::push_str(&mut out, m.from.as_str());
        crate::text::push_str(&mut out, " ");
        match m.arrow {
            MessageArrow::Solid => crate::text::push_str(&mut out, "->>"),
            MessageArrow::Dashed => crate::text::push_str(&mut out, "-->>"),
        }
        crate::text::push_str(&mut out, " ");
        crate::text::push_str(&mut out, m.to.as_str());
        crate::text::push_str(&mut out, ": ");
        crate::text::push_str(&mut out, m.text.as_str());
        crate::text::push_str(&mut out, "\n");
        assert(out@ =~= o0 + message_line(*m));
        i = i + 1;
    }
    assert(ms@.take(ms@.len() as int) =~= ms@);
    assert(out@ =~= sequence_ascii(*d));
    out
}

fn class_outline(d: &ClassDiagram) -> (r: String)
    ensures
        r@ == class_ascii(*d),
{
    let mut out = crate::text::string_from("classDiagram\n");
    let ghost h = out@;
    let cs = &d.classes;
    let mut i: usize = 0;
    assert(cs@.take(0) =~= Seq::<Class>::empty());
    while i < cs.len()
        invariant
            i <= cs@.len(),
            out@ == h + class_blocks(cs@.take(i as int)),
        decreases cs@.len() - i,
    {
        assert(cs@.take(i + 1).drop_last() =~= cs@.take(i as int));
        let ghost o0 = out@;
        let c = &cs[i];
        crate::text::push_str(&mut out, "  class ");
        crate::text::push_str(&mut out, c.id.as_str());
        match &c.stereotype {
            Some(st) => {
                crate::text::push_str(&mut out, " <<");
                crate::text::push_str(&mut out, st.as_str());
                crate::text::push_str(&mut out, ">>");
            },
            None => {},
        }
        crate::text::push_str(&mut out, "\n");
        let ghost o1 = out@;
        let ms = &c.members;
        let mut j: usize = 0;
        assert(ms@.take(0) =~= Seq::<ClassMember>::empty());
        while j < ms.len()
            invariant
                j <= ms@.len(),
                out@ == o1 + member_lines(ms@.take(j as int)),
            decreases ms@.len() - j,
        {
            assert(ms@.take(j + 1).drop_last() =~= ms@.take(j as int));
            crate::text::push_str(&mut out, "    ");
            crate::text::push_str(&mut out, ms[j].text.as_str());
            crate::text::push_str(&mut out, "\n");
            j = j + 1;
        }
        assert(ms@.take(ms@.len() as int) =~= ms@);
        assert(out@ =~= o0 + class_block(*c));
        i = i + 1;
    }
    assert(cs@.take(cs@.len() as int) =~= cs@);
    let ghost h2 = out@;
    let rs = &d.relations;
    i = 0;
    assert(rs@.take(0) =~= Seq::<Relation>::empty());
    while i < rs.len()
        invariant
            i <= rs@.len(),
            out@ == h2 + relation_lines(rs@.take(i as int)),
        decreases rs@.len() - i,
    {
        assert(rs@.take(i + 1).drop_last() =~= rs@.take(i as int));
        let r = &rs[i];
        crate::text::push_str(&mut out, "  ");
        crate::text::push_str(&mut out, r.from.as_str());
        crate::text::push_str(&mut out, " ");
        crate::text::push_str(&mut out, r.kind.mermaid_str());
        crate::text::push_str(&mut out, " ");
        crate::text::push_str(&mut out, r.to.as_str());
        crate::text::push_str(&mut out, "\n");
        i = i + 1;
    }
    assert(rs@.take(rs@.len() as int) =~= rs@);
    out
}

fn gantt_outline(d: &GanttDiagram) -> (r: String)
    ensures
        r@ == gantt_ascii(*d),
{
    let mut out = String::new();
    if chars_of(d.title.as_str()).len() > 0 {
        crate::text::push_str(&mut out, "gantt: ");
        crate::text::push_str(&mut out, d.title.as_str());
        crate::text::push_str(&mut out, "\n");
    }
    let ghost h = out@;
    let ts = &d.tasks;
    let mut i: usize = 0;
    assert(ts@.take(0) =~= Seq::<GanttTask>::empty());
    while i < ts.len()
        invariant
            i <= ts@.len(),
            out@ == h + task_lines(ts@.take(i as int)),
        decreases ts@.len() - i,
    {
        assert(ts@.take(i + 1).drop_last() =~= ts@.take(i as int));
        crate::text::push_str(&mut out, "  ");
        crate::text::push_str(&mut out, ts[i].name.as_str());
        crate::text::push_str(&mut out, " [");
        crate::text::push_str(&mut out, ts[i].section.as_str());
        crate::text::push_str(&mut out, "]\n");
        i = i + 1;
    }
    assert(ts@.take(ts@.len() as int) =~= ts@);
    out
}

fn state_outline(d: &StateDiagram) -> (r: String)
    ensures
        r@ == state_ascii(*d),
{
    let mut out = crate::text::string_from("stateDiagram-v2\n");
    let ghost h = out@;
    let ts = &d.transitions;
    let mut i: usize = 0;
    assert(ts@.take(0) =~= Seq::<Transition>::empty());
    while i < ts.len()
        invariant
            i <= ts@.len(),
            out@ == h + transition_lines(ts@.take(i as int)),
        decreases ts@.len() - i,
    {
        assert(ts@.take(i + 1).drop_last() =~= ts@.take(i as int));
        let t = &ts[i];
        crate::text::push_str(&mut out, "  ");
        crate::text::push_str(&mut out, t.from.as_str());
        crate::text::push_str(&mut out, " --> ");
        crate::text::push_str(&mut out, t.to.as_str());
        if chars_of(t.label.as_str()).len() == 0 {
            crate::text::push_str(&mut out, "\n");
        } else {
            crate::text::push_str(&mut out, " : ");
            crate::text::push_str(&mut out, t.label.as_str());
            crate::text::push_str(&mut out, "\n");
        }
        i = i + 1;
    }
    assert(ts@.take(ts@.len() as int) =~= ts@);
    out
}

fn er_outline(d: &ErDiagram) -> (r: String)
    ensures
        r@ == er_ascii(*d),
{
    let mut out = crate::text::string_from("erDiagram\n");
    let ghost h = out@;
    let es = &d.entities;
    let mut i: usize = 0;
    assert(es@.take(0) =~= Seq::<Entity>::empty());
    while i < es.len()
        invariant
            i <= es@.len(),
            out@ == h + entity_blocks(es@.take(i as int)),
        decreases es@.len() - i,
    {
        assert(es@.take(i + 1).drop_last() =~= es@.take(i as int));
        let ghost o0 = out@;
        let e = &es[i];
        crate::text::push_str(&mut out, "  ");
        crate::text::push_str(&mut out, e.id.as_str());
        crate::text::push_str(&mut out, " {\n");
        let ghost o1 = out@;
        let a = &e.attributes;
        let mut j: usize = 0;
        assert(a@.take(0) =~= Seq::<Attribute>::empty());
        while j < a.len()
            invariant
                j <= a@.len(),
                out@ == o1 + attribute_lines(a@.take(j as int)),
            decreases a@.len() - j,
        {
            assert(a@.take(j + 1).drop_last() =~= a@.take(j as int));
            crate::text::push_str(&mut out, "    ");
            crate::text::push_str(&mut out, a[j].data_type.as_str());
            crate::text::push_str(&mut out, " ");
            crate::text::push_str(&mut out, a[j].name.as_str());
            crate::text::push_str(&mut out, "\n");
            j = j + 1;
        }
        assert(a@.take(a@.len() as int) =~= a@);
        crate::text::push_str(&mut out, "  }\n");
        assert(out@ =~= o0 + "  "@ + e.id@ + " {\n"@ + attribute_lines(e.attributes@) + "  }\n"@);
        i = i + 1;
    }
    assert(es@.take(es@.len() as int) =~= es@);
    let ghost h2 = out@;
    let rs = &d.relationships;
    i = 0;
    assert(rs@.take(0) =~= Seq::<Relationship>::empty());
    while i < rs.len()
        invariant
            i <= rs@.len(),
            out@ == h2 + relationship_lines(rs@.take(i as int)),
        decreases rs@.len() - i,
    {
        assert(rs@.take(i + 1).drop_last() =~= rs@.take(i as int));
        let line = relationship_line_exec(&rs[i]);
        crate::text::push_str(&mut out, line.as_str());
        i = i + 1;
    }
    assert(rs@.take(rs@.len() as int) =~= rs@);
    out
}

fn render_diagram(d: &Diagram) -> (r: String)
    ensures
        r@ == diagram_ascii(*d),
{
    match d {
        Diagram::Flowchart(fc) => render_flowchart(fc),
        Diagram::Sequence(s) => sequence_outline(s),
        Diagram::Class(c) => class_outline(c),
        Diagram::Gantt(g) => gantt_outline(g),
        Diagram::State(s) => state_outline(s),
        Diagram::Er(e) => er_outline(e),
    }
}

/// A document as plain text: flowcharts as layers of boxes, other kinds as
/// an outline; several diagrams are each headed by a `// diagram N: kind`
/// marker.
pub fn render_document(doc: &Document) -> (r: String)
    ensures
        r@ == document_ascii(doc.diagrams@),
{
    let ds = &doc.diagrams;
    if ds.len() == 0 {
        return crate::text::string_from("(empty document)\n");
    }
    if ds.len() == 1 {
        return render_diagram(&ds[0]);
    }
    let mut out = String::new();
    let mut i: usize = 0;
    while i < ds.len()
        invariant
            i <= ds@.len(),
            out@ == document_ascii_upto(ds@, i as int),
        decreases ds@.len() - i,
    {
        let ghost o0 = out@;
        if i > 0 {
            crate::text::push_str(&mut out, "\n");
        }
        crate::text::push_str(&mut out, "// diagram ");
        crate::text::push_decimal(&mut out, i);
        crate::text::push_str(&mut out, ": ");
        crate::text::push_str(&mut out, ds[i].kind().as_str());
        crate::text::push_str(&mut out, "\n");
        let t = render_diagram(&ds[i]);
        crate::text::push_str(&mut out, t.as_str());
        assert(out@ =~= document_ascii_upto(ds@, i + 1));
        i = i + 1;
    }
    out
}

} // verus!
