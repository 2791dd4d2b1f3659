//! Structural comparison of two documents, diagram by diagram.

use vstd::prelude::*;
use crate::class::{ostr, rel_v, ClassDiagram, Relation, RelV};
use crate::ascii::{
    best, cands, in_count_exec, longest_walks, nub_exec, opt_nat, sources, starts_exec, uniq_ids_exec, universe_exec,
};
use crate::diagram::{Diagram as Flowchart, Edge, NodeShape};
use crate::er::{rel_v as er_rel_v, ErDiagram, RelV as ErRelV, Relationship};
use crate::gantt::{GanttDiagram, GanttTask};
use crate::graph_ops::{
    added_edges, added_nodes, edge_key, is_diff, last_edge, last_node, modified_edges, modified_nodes, uniq_ids,
    validation, DiagramDiff,
};
use crate::ir::{kind_name, kind_of, Diagram, Document};
use crate::sequence::{msg_v, Message, MessageArrow, MsgV, SequenceDiagram};
use crate::state::{StateDiagram, StateNodeKind, TransV, Transition};
use crate::text::{chars_of, decimal, push_decimal, push_str, str_eq, string_from, views};

verus! {

/// The items of `a` that `b` lacks, in order.
pub open spec fn missing<A>(a: Seq<A>, b: Seq<A>) -> Seq<A>
    decreases a.len(),
{
    if a.len() == 0 {
        Seq::empty()
    } else {
        let prev = missing(a.drop_last(), b);
        if b.contains(a.last()) {
            prev
        } else {
            prev.push(a.last())
        }
    }
}

/// `a - b` held at zero.
pub open spec fn sat_sub(a: nat, b: nat) -> int {
    if a >= b {
        a - b
    } else {
        0
    }
}

fn missing_strings(a: &Vec<String>, b: &Vec<String>) -> (r: Vec<String>)
    ensures
        views(r@) == missing(views(a@), views(b@)),
{
    let ghost av = views(a@);
    let ghost bv = views(b@);
    let mut r: Vec<String> = Vec::new();
    let mut k: usize = 0;
    assert(av.take(0) =~= Seq::<Seq<char>>::empty());
    while k < a.len()
        invariant
            k <= a@.len(),
            av == views(a@),
            bv == views(b@),
            views(r@) == missing(av.take(k as int), bv),
        decreases a@.len() - k,
    {
        assert(av.take(k + 1).drop_last() =~= av.take(k as int));
        assert(av.take(k + 1).last() == a@[k as int]@);
        let mut found = false;
        let mut j: usize = 0;
        while j < b.len()
            invariant
                j <= b@.len(),
                k < a@.len(),
                bv == views(b@),
                found == exists|q: int| 0 <= q < j && (#[trigger] bv[q]) == a@[k as int]@,
            decreases b@.len() - j,
        {
            assert(bv[j as int] == b@[j as int]@);
            if str_eq(b[j].as_str(), a[k].as_str()) {
                found = true;
            }
            j = j + 1;
        }
        let ghost before = views(r@);
        if !found {
            r.push(a[k].clone());
            assert(views(r@) =~= before.push(a@[k as int]@));
        }
        proof {
            if found {
                let q = choose|q: int| 0 <= q < j && bv[q] == a@[k as int]@;
                assert(bv.contains(a@[k as int]@));
            }
        }
        k = k + 1;
    }
    assert(av.take(a@.len() as int) =~= av);
    r
}

// ---------------------------------------------------------------- sequence

/// What changed between two sequence diagrams; messages are compared by position.
#[derive(Clone, Debug)]
pub struct SequenceDiff {
    pub added_participants: Vec<String>,
    pub removed_participants: Vec<String>,
    pub added_messages: Vec<Message>,
    pub removed_messages: Vec<Message>,
    pub modified_messages: Vec<(Message, Message)>,
    pub added_notes: usize,
    pub removed_notes: usize,
    pub added_fragments: usize,
    pub removed_fragments: usize,
}

pub open spec fn part_ids(d: SequenceDiagram) -> Seq<Seq<char>> {
    Seq::new(d.participants@.len(), |k: int| d.participants@[k].id@)
}

/// Messages only in `r` (past `l`'s end), with the first `n` positions considered.
pub open spec fn tail_msgs(l: Seq<Message>, r: Seq<Message>, n: int) -> Seq<MsgV>
    decreases n,
{
    if n <= 0 {
        Seq::empty()
    } else {
        tail_msgs(l, r, n - 1) + if n - 1 >= l.len() && n - 1 < r.len() {
            seq![msg_v(r[n - 1])]
        } else {
            Seq::empty()
        }
    }
}

/// Position-wise different messages among the first `n` positions.
pub open spec fn changed_msgs(l: Seq<Message>, r: Seq<Message>, n: int) -> Seq<(MsgV, MsgV)>
    decreases n,
{
    if n <= 0 {
        Seq::empty()
    } else {
        changed_msgs(l, r, n - 1) + if n - 1 < l.len() && n - 1 < r.len() && msg_v(l[n - 1]) != msg_v(r[n - 1]) {
            seq![(msg_v(l[n - 1]), msg_v(r[n - 1]))]
        } else {
            Seq::empty()
        }
    }
}

pub open spec fn msgs_v(m: Seq<Message>) -> Seq<MsgV> {
    Seq::new(m.len(), |k: int| msg_v(m[k]))
}

pub open spec fn is_sequence_diff(d: SequenceDiff, l: SequenceDiagram, r: SequenceDiagram) -> bool {
    let n = if l.messages@.len() >= r.messages@.len() { l.messages@.len() } else { r.messages@.len() };
    &&& views(d.added_participants@) == missing(part_ids(r), part_ids(l))
    &&& views(d.removed_participants@) == missing(part_ids(l), part_ids(r))
    &&& msgs_v(d.added_messages@) == tail_msgs(l.messages@, r.messages@, n as int)
    &&& msgs_v(d.removed_messages@) == tail_msgs(r.messages@, l.messages@, n as int)
    &&& Seq::new(d.modified_messages@.len(), |k: int| (msg_v(d.modified_messages@[k].0), msg_v(d.modified_messages@[k].1)))
        == changed_msgs(l.messages@, r.messages@, n as int)
    &&& d.added_notes == sat_sub(r.notes@.len(), l.notes@.len())
    &&& d.removed_notes == sat_sub(l.notes@.len(), r.notes@.len())
    &&& d.added_fragments == sat_sub(r.fragments@.len(), l.fragments@.len())
    &&& d.removed_fragments == sat_sub(l.fragments@.len(), r.fragments@.len())
}

fn sub0(a: usize, b: usize) -> (r: usize)
    ensures
        r == sat_sub(a as nat, b as nat),
{
    if a >= b {
        a - b
    } else {
        0
    }
}

fn clone_msg(m: &Message) -> (r: Message)
    ensures
        msg_v(r) == msg_v(*m),
{
    Message { from: m.from.clone(), to: m.to.clone(), text: m.text.clone(), arrow: m.arrow }
}

fn participant_ids(d: &SequenceDiagram) -> (r: Vec<String>)
    ensures
        views(r@) == part_ids(*d),
{
    let mut r: Vec<String> = Vec::new();
    let mut k: usize = 0;
    while k < d.participants.len()
        invariant
            k <= d.participants@.len(),
            views(r@) == part_ids(*d).take(k as int),
        decreases d.participants@.len() - k,
    {
        let ghost before = views(r@);
        let x = d.participants[k].id.clone();
        r.push(x);
        assert(views(r@) =~= before.push(d.participants@[k as int].id@));
        assert(views(r@) =~= part_ids(*d).take(k + 1));
        k = k + 1;
    }
    assert(part_ids(*d).take(d.participants@.len() as int) =~= part_ids(*d));
    r
}

fn diff_sequence(l: &SequenceDiagram, r: &SequenceDiagram) -> (d: SequenceDiff)
    ensures
        is_sequence_diff(d, *l, *r),
{
    let li = participant_ids(l);
    let ri = participant_ids(r);
    let n = if l.messages.len() >= r.messages.len() { l.messages.len() } else { r.messages.len() };
    let mut added: Vec<Message> = Vec::new();
    let mut removed: Vec<Message> = Vec::new();
    let mut modified: Vec<(Message, Message)> = Vec::new();
    let mut i: usize = 0;
    assert(msgs_v(added@) =~= tail_msgs(l.messages@, r.messages@, 0));
    assert(msgs_v(removed@) =~= tail_msgs(r.messages@, l.messages@, 0));
    assert(Seq::new(modified@.len(), |k: int| (msg_v(modified@[k].0), msg_v(modified@[k].1))) =~= changed_msgs(l.messages@, r.messages@, 0));
    while i < n
        invariant
            i <= n,
            n == (if l.messages@.len() >= r.messages@.len() { l.messages@.len() } else { r.messages@.len() }),
            msgs_v(added@) == tail_msgs(l.messages@, r.messages@, i as int),
            msgs_v(removed@) == tail_msgs(r.messages@, l.messages@, i as int),
            Seq::new(modified@.len(), |k: int| (msg_v(modified@[k].0), msg_v(modified@[k].1)))
                == changed_msgs(l.messages@, r.messages@, i as int),
        decreases n - i,
    {
        let ghost a0 = msgs_v(added@);
        let ghost r0 = msgs_v(removed@);
        let ghost m0 = Seq::new(modified@.len(), |k: int| (msg_v(modified@[k].0), msg_v(modified@[k].1)));
        if i < l.messages.len() && i < r.messages.len() {
            let a = &l.messages[i];
            let b = &r.messages[i];
            let same = str_eq(a.from.as_str(), b.from.as_str()) && str_eq(a.to.as_str(), b.to.as_str())
                && str_eq(a.text.as_str(), b.text.as_str()) && a.arrow == b.arrow;
            if !same {
                let p = (clone_msg(a), clone_msg(b));
                modified.push(p);
                assert(Seq::new(modified@.len(), |k: int| (msg_v(modified@[k].0), msg_v(modified@[k].1)))
                    =~= m0.push((msg_v(*a), msg_v(*b))));
            }
        } else if i < l.messages.len() {
            let m = clone_msg(&l.messages[i]);
            removed.push(m);
            assert(msgs_v(removed@) =~= r0.push(msg_v(l.messages@[i as int])));
        } else {
            let m = clone_msg(&r.messages[i]);
            added.push(m);
            assert(msgs_v(added@) =~= a0.push(msg_v(r.messages@[i as int])));
        }
        assert(msgs_v(added@) =~= tail_msgs(l.messages@, r.messages@, i + 1));
        assert(msgs_v(removed@) =~= tail_msgs(r.messages@, l.messages@, i + 1));
        assert(Seq::new(modified@.len(), |k: int| (msg_v(modified@[k].0), msg_v(modified@[k].1)))
            =~= changed_msgs(l.messages@, r.messages@, i + 1));
        i = i + 1;
    }
    SequenceDiff {
        added_participants: missing_strings(&ri, &li),
        removed_participants: missing_strings(&li, &ri),
        added_messages: added,
        removed_messages: removed,
        modified_messages: modified,
        added_notes: sub0(r.notes.len(), l.notes.len()),
        removed_notes: sub0(l.notes.len(), r.notes.len()),
        added_fragments: sub0(r.fragments.len(), l.fragments.len()),
        removed_fragments: sub0(l.fragments.len(), r.fragments.len()),
    }
}


// ---------------------------------------------------------------- class

/// What changed between two class diagrams; relations are compared whole.
#[derive(Clone, Debug)]
pub struct ClassDiff {
    pub added_classes: Vec<String>,
    pub removed_classes: Vec<String>,
    pub added_relations: Vec<Relation>,
    pub removed_relations: Vec<Relation>,
    pub added_notes: usize,
    pub removed_notes: usize,
    pub changed_stereotypes: Vec<String>,
}

pub open spec fn class_ids(d: ClassDiagram) -> Seq<Seq<char>> {
    Seq::new(d.classes@.len(), |k: int| d.classes@[k].id@)
}

pub open spec fn rels_v(rs: Seq<Relation>) -> Seq<RelV> {
    Seq::new(rs.len(), |k: int| rel_v(rs[k]))
}

/// Index of the last class with this id.
pub open spec fn last_class(cs: Seq<crate::class::Class>, id: Seq<char>) -> Option<int>
    decreases cs.len(),
{
    if cs.len() == 0 {
        None
    } else if cs.last().id@ == id {
        Some(cs.len() - 1)
    } else {
        last_class(cs.drop_last(), id)
    }
}

/// Ids of the first `n` classes of `r` whose stereotype differs from the
/// (last) class of that id in `l`.
pub open spec fn changed_stereo(l: Seq<crate::class::Class>, r: Seq<crate::class::Class>, n: int) -> Seq<Seq<char>>
    decreases n,
{
    if n <= 0 {
        Seq::empty()
    } else {
        let c = r[n - 1];
        changed_stereo(l, r, n - 1) + match last_class(l, c.id@) {
            Some(j) => if ostr(l[j].stereotype) != ostr(c.stereotype) {
                seq![c.id@]
            } else {
                Seq::empty()
            },
            None => Seq::empty(),
        }
    }
}

pub open spec fn is_class_diff(d: ClassDiff, l: ClassDiagram, r: ClassDiagram) -> bool {
    &&& views(d.added_classes@) == missing(class_ids(r), class_ids(l))
    &&& views(d.removed_classes@) == missing(class_ids(l), class_ids(r))
    &&& rels_v(d.added_relations@) == missing(rels_v(r.relations@), rels_v(l.relations@))
    &&& rels_v(d.removed_relations@) == missing(rels_v(l.relations@), rels_v(r.relations@))
    &&& d.added_notes == sat_sub(r.notes@.len(), l.notes@.len())
    &&& d.removed_notes == sat_sub(l.notes@.len(), r.notes@.len())
    &&& views(d.changed_stereotypes@) == changed_stereo(l.classes@, r.classes@, r.classes@.len() as int)
}

fn class_id_list(d: &ClassDiagram) -> (r: Vec<String>)
    ensures
        views(r@) == class_ids(*d),
{
    let mut r: Vec<String> = Vec::new();
    let mut k: usize = 0;
    while k < d.classes.len()
        invariant
            k <= d.classes@.len(),
            views(r@) == class_ids(*d).take(k as int),
        decreases d.classes@.len() - k,
    {
        let ghost before = views(r@);
        let x = d.classes[k].id.clone();
        r.push(x);
        assert(views(r@) =~= before.push(d.classes@[k as int].id@));
        assert(views(r@) =~= class_ids(*d).take(k + 1));
        k = k + 1;
    }
    assert(class_ids(*d).take(d.classes@.len() as int) =~= class_ids(*d));
    r
}

fn opt_eq(a: &Option<String>, b: &Option<String>) -> (r: bool)
    ensures
        r == (ostr(*a) == ostr(*b)),
{
    match (a, b) {
        (Some(x), Some(y)) => str_eq(x.as_str(), y.as_str()),
        (None, None) => true,
        _ => false,
    }
}

fn rel_eq(a: &Relation, b: &Relation) -> (r: bool)
    ensures
        r == (rel_v(*a) == rel_v(*b)),
{
    str_eq(a.from.as_str(), b.from.as_str()) && str_eq(a.to.as_str(), b.to.as_str()) && a.kind == b.kind
        && str_eq(a.label.as_str(), b.label.as_str()) && opt_eq(&a.from_card, &b.from_card)
        && opt_eq(&a.to_card, &b.to_card)
}

fn clone_rel(a: &Relation) -> (r: Relation)
    ensures
        rel_v(r) == rel_v(*a),
{
    Relation {
        from: a.from.clone(),
        to: a.to.clone(),
        kind: a.kind,
        label: a.label.clone(),
        from_card: crate::text::clone_opt(&a.from_card),
        to_card: crate::text::clone_opt(&a.to_card),
    }
}

fn missing_rels(a: &Vec<Relation>, b: &Vec<Relation>) -> (r: Vec<Relation>)
    ensures
        rels_v(r@) == missing(rels_v(a@), rels_v(b@)),
{
    let ghost av = rels_v(a@);
    let ghost bv = rels_v(b@);
    let mut r: Vec<Relation> = Vec::new();
    let mut k: usize = 0;
    assert(av.take(0) =~= Seq::<RelV>::empty());
    while k < a.len()
        invariant
            k <= a@.len(),
            av == rels_v(a@),
            bv == rels_v(b@),
            rels_v(r@) == missing(av.take(k as int), bv),
        decreases a@.len() - k,
    {
        assert(av.take(k + 1).drop_last() =~= av.take(k as int));
        let mut found = false;
        let mut j: usize = 0;
        while j < b.len()
            invariant
                j <= b@.len(),
                k < a@.len(),
                bv == rels_v(b@),
                found == exists|q: int| 0 <= q < j && (#[trigger] bv[q]) == rel_v(a@[k as int]),
            decreases b@.len() - j,
        {
            assert(bv[j as int] == rel_v(b@[j as int]));
            if rel_eq(&b[j], &a[k]) {
                found = true;
            }
            j = j + 1;
        }
        let ghost before = rels_v(r@);
        if !found {
            let c = clone_rel(&a[k]);
            r.push(c);
            assert(rels_v(r@) =~= before.push(rel_v(a@[k as int])));
        }
        proof {
            if found {
                let q = choose|q: int| 0 <= q < j && bv[q] == rel_v(a@[k as int]);
                assert(bv.contains(rel_v(a@[k as int])));
            }
        }
        k = k + 1;
    }
    assert(av.take(a@.len() as int) =~= av);
    r
}

fn diff_class(l: &ClassDiagram, r: &ClassDiagram) -> (d: ClassDiff)
    ensures
        is_class_diff(d, *l, *r),
{
    let li = class_id_list(l);
    let ri = class_id_list(r);
    let mut changed: Vec<String> = Vec::new();
    let mut k: usize = 0;
    while k < r.classes.len()
        invariant
            k <= r.classes@.len(),
            views(changed@) == changed_stereo(l.classes@, r.classes@, k as int),
        decreases r.classes@.len() - k,
    {
        let c = &r.classes[k];
        let mut j = l.classes.len();
        assert(l.classes@.take(j as int) =~= l.classes@);
        while j > 0 && !str_eq(l.classes[j - 1].id.as_str(), c.id.as_str())
            invariant
                j <= l.classes@.len(),
                last_class(l.classes@, c.id@) == last_class(l.classes@.take(j as int), c.id@),
            decreases j,
        {
            assert(l.classes@.take(j as int).drop_last() =~= l.classes@.take(j - 1));
            j = j - 1;
        }
        let ghost before = views(changed@);
        if j > 0 {
            assert(l.classes@.take(j as int).last() == l.classes@[j - 1]);
            assert(last_class(l.classes@, c.id@) == Some(j - 1));
            if !opt_eq(&l.classes[j - 1].stereotype, &c.stereotype) {
                changed.push(c.id.clone());
                assert(views(changed@) =~= before.push(c.id@));
            }
        } else {
            assert(l.classes@.take(0) =~= Seq::<crate::class::Class>::empty());
        }
        assert(views(changed@) =~= changed_stereo(l.classes@, r.classes@, k + 1));
        k = k + 1;
    }
    ClassDiff {
        added_classes: missing_strings(&ri, &li),
        removed_classes: missing_strings(&li, &ri),
        added_relations: missing_rels(&r.relations, &l.relations),
        removed_relations: missing_rels(&l.relations, &r.relations),
        added_notes: sub0(r.notes.len(), l.notes.len()),
        removed_notes: sub0(l.notes.len(), r.notes.len()),
        changed_stereotypes: changed,
    }
}

// ---------------------------------------------------------------- gantt

/// What changed between two gantt charts; tasks are matched by section,
/// id (or name where there is none) and whether they are milestones.
#[derive(Clone, Debug)]
pub struct GanttDiff {
    pub title_changed: bool,
    pub added_tasks: Vec<String>,
    pub removed_tasks: Vec<String>,
}

/// A task's id, or its name where it has none.
pub open spec fn task_label(t: GanttTask) -> Seq<char> {
    match t.id {
        Some(i) => i@,
        None => t.name@,
    }
}

pub open spec fn task_key(t: GanttTask) -> (Seq<char>, Seq<char>, bool) {
    (t.section@, task_label(t), t.milestone)
}

pub open spec fn task_keys(ts: Seq<GanttTask>) -> Seq<(Seq<char>, Seq<char>, bool)> {
    Seq::new(ts.len(), |k: int| task_key(ts[k]))
}

/// Labels of the tasks of `a` whose key no task of `b` has, in order.
pub open spec fn missing_tasks(a: Seq<GanttTask>, b: Seq<GanttTask>) -> Seq<Seq<char>>
    decreases a.len(),
{
    if a.len() == 0 {
        Seq::empty()
    } else {
        let prev = missing_tasks(a.drop_last(), b);
        if task_keys(b).contains(task_key(a.last())) {
            prev
        } else {
            prev.push(task_label(a.last()))
        }
    }
}

pub open spec fn is_gantt_diff(d: GanttDiff, l: GanttDiagram, r: GanttDiagram) -> bool {
    &&& d.title_changed == (l.title@ != r.title@)
    &&& views(d.added_tasks@) == missing_tasks(r.tasks@, l.tasks@)
    &&& views(d.removed_tasks@) == missing_tasks(l.tasks@, r.tasks@)
}

fn task_label_exec(t: &GanttTask) -> (r: String)
    ensures
        r@ == task_label(*t),
{
    match &t.id {
        Some(i) => i.clone(),
        None => t.name.clone(),
    }
}

fn task_key_eq(a: &GanttTask, b: &GanttTask) -> (r: bool)
    ensures
        r == (task_key(*a) == task_key(*b)),
{
    let x = task_label_exec(a);
    let y = task_label_exec(b);
    str_eq(a.section.as_str(), b.section.as_str()) && str_eq(x.as_str(), y.as_str())
        && a.milestone == b.milestone
}

fn missing_tasks_exec(a: &Vec<GanttTask>, b: &Vec<GanttTask>) -> (r: Vec<String>)
    ensures
        views(r@) == missing_tasks(a@, b@),
{
    let ghost bk = task_keys(b@);
    let mut r: Vec<String> = Vec::new();
    let mut k: usize = 0;
    assert(a@.take(0) =~= Seq::<GanttTask>::empty());
    while k < a.len()
        invariant
            k <= a@.len(),
            bk == task_keys(b@),
            views(r@) == missing_tasks(a@.take(k as int), b@),
        decreases a@.len() - k,
    {
        assert(a@.take(k + 1).drop_last() =~= a@.take(k as int));
        assert(a@.take(k + 1).last() == a@[k as int]);
        let mut found = false;
        let mut j: usize = 0;
        while j < b.len()
            invariant
                j <= b@.len(),
                k < a@.len(),
                bk == task_keys(b@),
                found == exists|q: int| 0 <= q < j && (#[trigger] bk[q]) == task_key(a@[k as int]),
            decreases b@.len() - j,
        {
            assert(bk[j as int] == task_key(b@[j as int]));
            if task_key_eq(&b[j], &a[k]) {
                found = true;
            }
            j = j + 1;
        }
        let ghost before = views(r@);
        if !found {
            let c = task_label_exec(&a[k]);
            r.push(c);
            assert(views(r@) =~= before.push(task_label(a@[k as int])));
        }
        proof {
            if found {
                let q = choose|q: int| 0 <= q < j && bk[q] == task_key(a@[k as int]);
                assert(bk.contains(task_key(a@[k as int])));
            }
        }
        k = k + 1;
    }
    assert(a@.take(a@.len() as int) =~= a@);
    r
}

fn diff_gantt(l: &GanttDiagram, r: &GanttDiagram) -> (d: GanttDiff)
    ensures
        is_gantt_diff(d, *l, *r),
{
    GanttDiff {
        title_changed: !str_eq(l.title.as_str(), r.title.as_str()),
        added_tasks: missing_tasks_exec(&r.tasks, &l.tasks),
        removed_tasks: missing_tasks_exec(&l.tasks, &r.tasks),
    }
}

// ---------------------------------------------------------------- state

/// What changed between two state diagrams; transitions are compared whole.
#[derive(Clone, Debug)]
pub struct StateDiff {
    pub added_states: Vec<String>,
    pub removed_states: Vec<String>,
    pub added_transitions: Vec<Transition>,
    pub removed_transitions: Vec<Transition>,
}

pub open spec fn state_ids(d: StateDiagram) -> Seq<Seq<char>> {
    Seq::new(d.states@.len(), |k: int| d.states@[k].id@)
}

pub open spec fn trans_v(t: Transition) -> TransV {
    (t.from@, t.to@, t.label@)
}

pub open spec fn transs_v(ts: Seq<Transition>) -> Seq<TransV> {
    Seq::new(ts.len(), |k: int| trans_v(ts[k]))
}

pub open spec fn is_state_diff(d: StateDiff, l: StateDiagram, r: StateDiagram) -> bool {
    &&& views(d.added_states@) == missing(state_ids(r), state_ids(l))
    &&& views(d.removed_states@) == missing(state_ids(l), state_ids(r))
    &&& transs_v(d.added_transitions@) == missing(transs_v(r.transitions@), transs_v(l.transitions@))
    &&& transs_v(d.removed_transitions@) == missing(transs_v(l.transitions@), transs_v(r.transitions@))
}

fn state_id_list(d: &StateDiagram) -> (r: Vec<String>)
    ensures
        views(r@) == state_ids(*d),
{
    let mut r: Vec<String> = Vec::new();
    let mut k: usize = 0;
    while k < d.states.len()
        invariant
            k <= d.states@.len(),
            views(r@) == state_ids(*d).take(k as int),
        decreases d.states@.len() - k,
    {
        let ghost before = views(r@);
        let x = d.states[k].id.clone();
        r.push(x);
        assert(views(r@) =~= before.push(d.states@[k as int].id@));
        assert(views(r@) =~= state_ids(*d).take(k + 1));
        k = k + 1;
    }
    assert(state_ids(*d).take(d.states@.len() as int) =~= state_ids(*d));
    r
}

fn trans_eq(a: &Transition, b: &Transition) -> (r: bool)
    ensures
        r == (trans_v(*a) == trans_v(*b)),
{
    str_eq(a.from.as_str(), b.from.as_str()) && str_eq(a.to.as_str(), b.to.as_str())
        && str_eq(a.label.as_str(), b.label.as_str())
}

fn missing_transitions(a: &Vec<Transition>, b: &Vec<Transition>) -> (r: Vec<Transition>)
    ensures
        transs_v(r@) == missing(transs_v(a@), transs_v(b@)),
{
    let ghost av = transs_v(a@);
    let ghost bv = transs_v(b@);
    let mut r: Vec<Transition> = Vec::new();
    let mut k: usize = 0;
    assert(av.take(0) =~= Seq::<TransV>::empty());
    while k < a.len()
        invariant
            k <= a@.len(),
            av == transs_v(a@),
            bv == transs_v(b@),
            transs_v(r@) == missing(av.take(k as int), bv),
        decreases a@.len() - k,
    {
        assert(av.take(k + 1).drop_last() =~= av.take(k as int));
        let mut found = false;
        let mut j: usize = 0;
        while j < b.len()
            invariant
                j <= b@.len(),
                k < a@.len(),
                bv == transs_v(b@),
                found == exists|q: int| 0 <= q < j && (#[trigger] bv[q]) == trans_v(a@[k as int]),
            decreases b@.len() - j,
        {
            assert(bv[j as int] == trans_v(b@[j as int]));
            if trans_eq(&b[j], &a[k]) {
                found = true;
            }
            j = j + 1;
        }
        let ghost before = transs_v(r@);
        if !found {
            let t = &a[k];
            let c = Transition { from: t.from.clone(), to: t.to.clone(), label: t.label.clone() };
            r.push(c);
            assert(transs_v(r@) =~= before.push(trans_v(a@[k as int])));
        }
        proof {
            if found {
                let q = choose|q: int| 0 <= q < j && bv[q] == trans_v(a@[k as int]);
                assert(bv.contains(trans_v(a@[k as int])));
            }
        }
        k = k + 1;
    }
    assert(av.take(a@.len() as int) =~= av);
    r
}

fn diff_state(l: &StateDiagram, r: &StateDiagram) -> (d: StateDiff)
    ensures
        is_state_diff(d, *l, *r),
{
    let li = state_id_list(l);
    let ri = state_id_list(r);
    StateDiff {
        added_states: missing_strings(&ri, &li),
        removed_states: missing_strings(&li, &ri),
        added_transitions: missing_transitions(&r.transitions, &l.transitions),
        removed_transitions: missing_transitions(&l.transitions, &r.transitions),
    }
}

// ---------------------------------------------------------------- er

/// What changed between two ER diagrams; relationships are compared whole.
#[derive(Clone, Debug)]
pub struct ErDiff {
    pub added_entities: Vec<String>,
    pub removed_entities: Vec<String>,
    pub added_relationships: Vec<Relationship>,
    pub removed_relationships: Vec<Relationship>,
}

pub open spec fn entity_ids(d: ErDiagram) -> Seq<Seq<char>> {
    Seq::new(d.entities@.len(), |k: int| d.entities@[k].id@)
}

pub open spec fn er_rels_v(rs: Seq<Relationship>) -> Seq<ErRelV> {
    Seq::new(rs.len(), |k: int| er_rel_v(rs[k]))
}

pub open spec fn is_er_diff(d: ErDiff, l: ErDiagram, r: ErDiagram) -> bool {
    &&& views(d.added_entities@) == missing(entity_ids(r), entity_ids(l))
    &&& views(d.removed_entities@) == missing(entity_ids(l), entity_ids(r))
    &&& er_rels_v(d.added_relationships@) == missing(er_rels_v(r.relationships@), er_rels_v(l.relationships@))
    &&& er_rels_v(d.removed_relationships@) == missing(er_rels_v(l.relationships@), er_rels_v(r.relationships@))
}

fn entity_id_list(d: &ErDiagram) -> (r: Vec<String>)
    ensures
        views(r@) == entity_ids(*d),
{
    let mut r: Vec<String> = Vec::new();
    let mut k: usize = 0;
    while k < d.entities.len()
        invariant
            k <= d.entities@.len(),
            views(r@) == entity_ids(*d).take(k as int),
        decreases d.entities@.len() - k,
    {
        let ghost before = views(r@);
        let x = d.entities[k].id.clone();
        r.push(x);
        assert(views(r@) =~= before.push(d.entities@[k as int].id@));
        assert(views(r@) =~= entity_ids(*d).take(k + 1));
        k = k + 1;
    }
    assert(entity_ids(*d).take(d.entities@.len() as int) =~= entity_ids(*d));
    r
}

fn er_rel_eq(a: &Relationship, b: &Relationship) -> (r: bool)
    ensures
        r == (er_rel_v(*a) == er_rel_v(*b)),
{
    str_eq(a.from.as_str(), b.from.as_str()) && str_eq(a.to.as_str(), b.to.as_str())
        && a.from_card == b.from_card && a.to_card == b.to_card && a.identifying == b.identifying
        && str_eq(a.label.as_str(), b.label.as_str())
}

fn missing_relationships(a: &Vec<Relationship>, b: &Vec<Relationship>) -> (r: Vec<Relationship>)
    ensures
        er_rels_v(r@) == missing(er_rels_v(a@), er_rels_v(b@)),
{
    let ghost av = er_rels_v(a@);
    let ghost bv = er_rels_v(b@);
    let mut r: Vec<Relationship> = Vec::new();
    let mut k: usize = 0;
    assert(av.take(0) =~= Seq::<ErRelV>::empty());
    while k < a.len()
        invariant
            k <= a@.len(),
            av == er_rels_v(a@),
            bv == er_rels_v(b@),
            er_rels_v(r@) == missing(av.take(k as int), bv),
        decreases a@.len() - k,
    {
        assert(av.take(k + 1).drop_last() =~= av.take(k as int));
        let mut found = false;
        let mut j: usize = 0;
        while j < b.len()
            invariant
                j <= b@.len(),
                k < a@.len(),
                bv == er_rels_v(b@),
                found == exists|q: int| 0 <= q < j && (#[trigger] bv[q]) == er_rel_v(a@[k as int]),
            decreases b@.len() - j,
        {
            assert(bv[j as int] == er_rel_v(b@[j as int]));
            if er_rel_eq(&b[j], &a[k]) {
                found = true;
            }
            j = j + 1;
        }
        let ghost before = er_rels_v(r@);
        if !found {
            let t = &a[k];
            let c = Relationship {
                from: t.from.clone(),
                to: t.to.clone(),
                from_card: t.from_card,
                to_card: t.to_card,
                identifying: t.identifying,
                label: t.label.clone(),
            };
            r.push(c);
            assert(er_rels_v(r@) =~= before.push(er_rel_v(a@[k as int])));
        }
        proof {
            if found {
                let q = choose|q: int| 0 <= q < j && bv[q] == er_rel_v(a@[k as int]);
                assert(bv.contains(er_rel_v(a@[k as int])));
            }
        }
        k = k + 1;
    }
    assert(av.take(a@.len() as int) =~= av);
    r
}

fn diff_er(l: &ErDiagram, r: &ErDiagram) -> (d: ErDiff)
    ensures
        is_er_diff(d, *l, *r),
{
    let li = entity_id_list(l);
    let ri = entity_id_list(r);
    ErDiff {
        added_entities: missing_strings(&ri, &li),
        removed_entities: missing_strings(&li, &ri),
        added_relationships: missing_relationships(&r.relationships, &l.relationships),
        removed_relationships: missing_relationships(&l.relationships, &r.relationships),
    }
}

// ---------------------------------------------------------------- documents

/// The diff of two diagrams of the same kind.
#[derive(Clone, Debug)]
pub enum DiffDetail {
    Flowchart(DiagramDiff),
    Sequence(SequenceDiff),
    Class(ClassDiff),
    Gantt(GanttDiff),
    State(StateDiff),
    Er(ErDiff),
}

/// How the diagrams at one index compare.
#[derive(Clone, Debug)]
pub struct DiagramDiffEntry {
    pub index: usize,
    /// One of `added`, `removed`, `kind_changed`, `changed`, `unchanged`.
    pub status: String,
    pub left_kind: Option<String>,
    pub right_kind: Option<String>,
    pub detail: Option<DiffDetail>,
}

/// Structural diff of two documents, diagram by diagram.
#[derive(Clone, Debug)]
pub struct DocumentDiff {
    pub left_diagrams: usize,
    pub right_diagrams: usize,
    pub diagram_count_changed: bool,
    pub unchanged: bool,
    pub summary: Vec<String>,
    pub entries: Vec<DiagramDiffEntry>,
}

/// `dd` is the diff of `a` against `b`.
pub open spec fn detail_of(dd: DiffDetail, a: Diagram, b: Diagram) -> bool {
    match (dd, a, b) {
        (DiffDetail::Flowchart(d), Diagram::Flowchart(x), Diagram::Flowchart(y)) => is_diff(d, x, y),
        (DiffDetail::Sequence(d), Diagram::Sequence(x), Diagram::Sequence(y)) => is_sequence_diff(d, x, y),
        (DiffDetail::Class(d), Diagram::Class(x), Diagram::Class(y)) => is_class_diff(d, x, y),
        (DiffDetail::Gantt(d), Diagram::Gantt(x), Diagram::Gantt(y)) => is_gantt_diff(d, x, y),
        (DiffDetail::State(d), Diagram::State(x), Diagram::State(y)) => is_state_diff(d, x, y),
        (DiffDetail::Er(d), Diagram::Er(x), Diagram::Er(y)) => is_er_diff(d, x, y),
        _ => false,
    }
}

/// The diff records no change.
pub open spec fn detail_same(dd: DiffDetail) -> bool {
    match dd {
        DiffDetail::Flowchart(d) => d.added_nodes@.len() == 0 && d.removed_nodes@.len() == 0
            && d.modified_nodes@.len() == 0 && d.added_edges@.len() == 0 && d.removed_edges@.len() == 0
            && d.modified_edges@.len() == 0 && !d.rankdir_changed,
        DiffDetail::Sequence(d) => d.added_participants@.len() == 0 && d.removed_participants@.len() == 0
            && d.added_messages@.len() == 0 && d.removed_messages@.len() == 0
            && d.modified_messages@.len() == 0 && d.added_notes == 0 && d.removed_notes == 0
            && d.added_fragments == 0 && d.removed_fragments == 0,
        DiffDetail::Class(d) => d.added_classes@.len() == 0 && d.removed_classes@.len() == 0
            && d.added_relations@.len() == 0 && d.removed_relations@.len() == 0 && d.added_notes == 0
            && d.removed_notes == 0 && d.changed_stereotypes@.len() == 0,
        DiffDetail::Gantt(d) => !d.title_changed && d.added_tasks@.len() == 0 && d.removed_tasks@.len() == 0,
        DiffDetail::State(d) => d.added_states@.len() == 0 && d.removed_states@.len() == 0
            && d.added_transitions@.len() == 0 && d.removed_transitions@.len() == 0,
        DiffDetail::Er(d) => d.added_entities@.len() == 0 && d.removed_entities@.len() == 0
            && d.added_relationships@.len() == 0 && d.removed_relationships@.len() == 0,
    }
}

pub open spec fn entry_same(e: DiagramDiffEntry) -> bool {
    match e.detail {
        Some(dd) => detail_same(dd),
        None => false,
    }
}

pub open spec fn kn(d: Diagram) -> Seq<char> {
    kind_name(kind_of(d))
}

/// The entry for index `i` of documents holding `l` and `r`.
pub open spec fn entry_ok(e: DiagramDiffEntry, i: int, l: Seq<Diagram>, r: Seq<Diagram>) -> bool {
    &&& e.index == i
    &&& if i >= l.len() {
        &&& e.status@ == "added"@
        &&& e.left_kind is None
        &&& ostr(e.right_kind) == Some(kn(r[i]))
        &&& e.detail is None
    } else if i >= r.len() {
        &&& e.status@ == "removed"@
        &&& ostr(e.left_kind) == Some(kn(l[i]))
        &&& e.right_kind is None
        &&& e.detail is None
    } else {
        &&& ostr(e.left_kind) == Some(kn(l[i]))
        &&& ostr(e.right_kind) == Some(kn(r[i]))
        &&& if kind_of(l[i]) != kind_of(r[i]) {
            e.status@ == "kind_changed"@ && e.detail is None
        } else {
            &&& e.detail matches Some(dd) && detail_of(dd, l[i], r[i])
            &&& e.status@ == if entry_same(e) { "unchanged"@ } else { "changed"@ }
        }
    }
}

pub open spec fn count_line(a: nat, b: nat) -> Seq<char> {
    "diagram count changed: "@ + decimal(a) + " → "@ + decimal(b)
}

/// The summary line for index `i`; `same` says whether the two diagrams there
/// compare equal.
pub open spec fn entry_line(i: int, l: Seq<Diagram>, r: Seq<Diagram>, same: bool) -> Seq<Seq<char>> {
    let head = "diagram "@ + decimal(i as nat);
    if i >= l.len() {
        seq![head + ": added ("@ + kn(r[i]) + ")"@]
    } else if i >= r.len() {
        seq![head + ": removed ("@ + kn(l[i]) + ")"@]
    } else if kind_of(l[i]) != kind_of(r[i]) {
        seq![head + ": kind changed "@ + kn(l[i]) + " → "@ + kn(r[i])]
    } else if same {
        Seq::empty()
    } else {
        seq![head + ": changed ("@ + kn(l[i]) + ")"@]
    }
}

/// The summary after the first `n` entries.
pub open spec fn summary_lines(l: Seq<Diagram>, r: Seq<Diagram>, es: Seq<DiagramDiffEntry>, n: int) -> Seq<Seq<char>>
    decreases n,
{
    if n <= 0 {
        if l.len() != r.len() {
            seq![count_line(l.len(), r.len())]
        } else {
            Seq::empty()
        }
    } else {
        summary_lines(l, r, es, n - 1) + entry_line(n - 1, l, r, entry_same(es[n - 1]))
    }
}

pub open spec fn is_document_diff(d: DocumentDiff, l: Seq<Diagram>, r: Seq<Diagram>) -> bool {
    let n = if l.len() >= r.len() { l.len() } else { r.len() };
    &&& d.left_diagrams == l.len()
    &&& d.right_diagrams == r.len()
    &&& d.diagram_count_changed == (l.len() != r.len())
    &&& d.entries@.len() == n
    &&& forall|k: int| 0 <= k < n ==> entry_ok(#[trigger] d.entries@[k], k, l, r)
    &&& views(d.summary@) == summary_lines(l, r, d.entries@, n as int)
    &&& d.unchanged == (l.len() == r.len() && forall|k: int| 0 <= k < n ==> entry_same(#[trigger] d.entries@[k]))
}

proof fn lemma_summary_prefix(l: Seq<Diagram>, r: Seq<Diagram>, a: Seq<DiagramDiffEntry>, b: Seq<DiagramDiffEntry>, n: int)
    requires
        0 <= n <= a.len(),
        n <= b.len(),
        forall|k: int| 0 <= k < n ==> a[k] == b[k],
    ensures
        summary_lines(l, r, a, n) == summary_lines(l, r, b, n),
    decreases n,
{
    if n > 0 {
        lemma_summary_prefix(l, r, a, b, n - 1);
    }
}

fn diff_pair(a: &Diagram, b: &Diagram) -> (dd: DiffDetail)
    requires
        kind_of(*a) == kind_of(*b),
    ensures
        detail_of(dd, *a, *b),
{
    match (a, b) {
        (Diagram::Flowchart(x), Diagram::Flowchart(y)) => DiffDetail::Flowchart(x.diff(y)),
        (Diagram::Sequence(x), Diagram::Sequence(y)) => DiffDetail::Sequence(diff_sequence(x, y)),
        (Diagram::Class(x), Diagram::Class(y)) => DiffDetail::Class(diff_class(x, y)),
        (Diagram::Gantt(x), Diagram::Gantt(y)) => DiffDetail::Gantt(diff_gantt(x, y)),
        (Diagram::State(x), Diagram::State(y)) => DiffDetail::State(diff_state(x, y)),
        (Diagram::Er(x), Diagram::Er(y)) => DiffDetail::Er(diff_er(x, y)),
        _ => {
            assert(false);
            DiffDetail::Gantt(GanttDiff { title_changed: false, added_tasks: Vec::new(), removed_tasks: Vec::new() })
        },
    }
}

fn detail_same_exec(dd: &DiffDetail) -> (r: bool)
    ensures
        r == detail_same(*dd),
{
    match dd {
        DiffDetail::Flowchart(d) => d.added_nodes.len() == 0 && d.removed_nodes.len() == 0
            && d.modified_nodes.len() == 0 && d.added_edges.len() == 0 && d.removed_edges.len() == 0
            && d.modified_edges.len() == 0 && !d.rankdir_changed,
        DiffDetail::Sequence(d) => d.added_participants.len() == 0 && d.removed_participants.len() == 0
            && d.added_messages.len() == 0 && d.removed_messages.len() == 0
            && d.modified_messages.len() == 0 && d.added_notes == 0 && d.removed_notes == 0
            && d.added_fragments == 0 && d.removed_fragments == 0,
        DiffDetail::Class(d) => d.added_classes.len() == 0 && d.removed_classes.len() == 0
            && d.added_relations.len() == 0 && d.removed_relations.len() == 0 && d.added_notes == 0
            && d.removed_notes == 0 && d.changed_stereotypes.len() == 0,
        DiffDetail::Gantt(d) => !d.title_changed && d.added_tasks.len() == 0 && d.removed_tasks.len() == 0,
        DiffDetail::State(d) => d.added_states.len() == 0 && d.removed_states.len() == 0
            && d.added_transitions.len() == 0 && d.removed_transitions.len() == 0,
        DiffDetail::Er(d) => d.added_entities.len() == 0 && d.removed_entities.len() == 0
            && d.added_relationships.len() == 0 && d.removed_relationships.len() == 0,
    }
}

fn kind_string(d: &Diagram) -> (s: String)
    ensures
        s@ == kn(*d),
{
    string_from(d.kind().as_str())
}

fn head_line(i: usize) -> (s: String)
    ensures
        s@ == "diagram "@ + decimal(i as nat),
{
    let mut s = string_from("diagram ");
    push_decimal(&mut s, i);
    s
}

/// The entry for index `i` and the summary lines it adds.
fn diff_entry(i: usize, l: &Vec<Diagram>, r: &Vec<Diagram>) -> (res: (DiagramDiffEntry, Vec<String>))
    requires
        i < l@.len() || i < r@.len(),
    ensures
        entry_ok(res.0, i as int, l@, r@),
        views(res.1@) == entry_line(i as int, l@, r@, entry_same(res.0)),
{
    let head = head_line(i);
    let mut lines: Vec<String> = Vec::new();
    if i >= l.len() {
        let rk = kind_string(&r[i]);
        let mut line = head;
        push_str(&mut line, ": added (");
        push_str(&mut line, rk.as_str());
        push_str(&mut line, ")");
        lines.push(line);
        assert(views(lines@) =~= entry_line(i as int, l@, r@, false));
        let e = DiagramDiffEntry { index: i, status: string_from("added"), left_kind: None, right_kind: Some(rk), detail: None };
        (e, lines)
    } else if i >= r.len() {
        let lk = kind_string(&l[i]);
        let mut line = head;
        push_str(&mut line, ": removed (");
        push_str(&mut line, lk.as_str());
        push_str(&mut line, ")");
        lines.push(line);
        assert(views(lines@) =~= entry_line(i as int, l@, r@, false));
        let e = DiagramDiffEntry { index: i, status: string_from("removed"), left_kind: Some(lk), right_kind: None, detail: None };
        (e, lines)
    } else {
        let lk = kind_string(&l[i]);
        let rk = kind_string(&r[i]);
        if l[i].kind() != r[i].kind() {
            let mut line = head;
            push_str(&mut line, ": kind changed ");
            push_str(&mut line, lk.as_str());
            push_str(&mut line, " → ");
            push_str(&mut line, rk.as_str());
            lines.push(line);
            assert(views(lines@) =~= entry_line(i as int, l@, r@, false));
            let e = DiagramDiffEntry {
                index: i,
                status: string_from("kind_changed"),
                left_kind: Some(lk),
                right_kind: Some(rk),
                detail: None,
            };
            (e, lines)
        } else {
            let dd = diff_pair(&l[i], &r[i]);
            let same = detail_same_exec(&dd);
            let status = if same { string_from("unchanged") } else { string_from("changed") };
            if !same {
                let mut line = head;
                push_str(&mut line, ": changed (");
                push_str(&mut line, lk.as_str());
                push_str(&mut line, ")");
                lines.push(line);
            }
            assert(views(lines@) =~= entry_line(i as int, l@, r@, same));
            let e = DiagramDiffEntry { index: i, status, left_kind: Some(lk), right_kind: Some(rk), detail: Some(dd) };
            (e, lines)
        }
    }
}

/// Structural diff of two documents, diagram by diagram: entries for every
/// index of either, a summary line for each difference.
pub fn diff_documents(left: &Document, right: &Document) -> (d: DocumentDiff)
    ensures
        is_document_diff(d, left.diagrams@, right.diagrams@),
{
    let l = &left.diagrams;
    let r = &right.diagrams;
    let ln = l.len();
    let rn = r.len();
    let n = if ln >= rn { ln } else { rn };
    let mut summary: Vec<String> = Vec::new();
    if ln != rn {
        let mut line = string_from("diagram count changed: ");
        push_decimal(&mut line, ln);
        push_str(&mut line, " → ");
        push_decimal(&mut line, rn);
        summary.push(line);
    }
    let mut entries: Vec<DiagramDiffEntry> = Vec::new();
    let mut all_same = true;
    let mut i: usize = 0;
    assert(views(summary@) =~= summary_lines(l@, r@, entries@, 0));
    while i < n
        invariant
            i <= n,
            n == (if l@.len() >= r@.len() { l@.len() } else { r@.len() }),
            entries@.len() == i,
            forall|k: int| 0 <= k < i ==> entry_ok(#[trigger] entries@[k], k, l@, r@),
            views(summary@) == summary_lines(l@, r@, entries@, i as int),
            all_same == forall|k: int| 0 <= k < i ==> entry_same(#[trigger] entries@[k]),
        decreases n - i,
    {
        let (e, lines) = diff_entry(i, l, r);
        let ghost old_entries = entries@;
        let ghost old_summary = views(summary@);
        let same = match &e.detail {
            Some(dd) => detail_same_exec(dd),
            None => false,
        };
        let ghost old_all = all_same;
        all_same = all_same && same;
        entries.push(e);
        proof {
            lemma_summary_prefix(l@, r@, old_entries, entries@, i as int);
            assert(entries@[i as int] == e);
            assert(same == entry_same(entries@[i as int]));
            assert(forall|k: int| 0 <= k < i ==> entries@[k] == old_entries[k]);
            if all_same {
                assert forall|k: int| 0 <= k < i + 1 implies entry_same(#[trigger] entries@[k]) by {
                    if k < i {
                        assert(entries@[k] == old_entries[k]);
                        assert(entry_same(old_entries[k]));
                    }
                }
            } else if same {
                assert(!old_all);
                let k = choose|k: int| 0 <= k < i && !entry_same(#[trigger] old_entries[k]);
                assert(entries@[k] == old_entries[k]);
                assert(!entry_same(entries@[k]));
            } else {
                assert(!entry_same(entries@[i as int]));
            }
        }
        let mut j: usize = 0;
        while j < lines.len()
            invariant
                j <= lines@.len(),
                views(summary@) == old_summary + views(lines@).take(j as int),
            decreases lines@.len() - j,
        {
            let ghost before = views(summary@);
            summary.push(lines[j].clone());
            assert(views(summary@) =~= before.push(lines@[j as int]@));
            assert(views(lines@).take(j + 1) =~= views(lines@).take(j as int).push(lines@[j as int]@));
            j = j + 1;
        }
        assert(views(lines@).take(lines@.len() as int) =~= views(lines@));
        assert(views(summary@) =~= summary_lines(l@, r@, entries@, i + 1));
        i = i + 1;
    }
    let d = DocumentDiff {
        left_diagrams: ln,
        right_diagrams: rn,
        diagram_count_changed: ln != rn,
        unchanged: ln == rn && all_same,
        summary,
        entries,
    };
    assert(d.entries@.len() == n);
    assert(forall|k: int| 0 <= k < n ==> entry_ok(#[trigger] d.entries@[k], k, l@, r@));
    assert(views(d.summary@) == summary_lines(l@, r@, d.entries@, n as int));
    assert(d.unchanged == (l@.len() == r@.len() && forall|k: int| 0 <= k < n ==> entry_same(#[trigger] d.entries@[k])));
    d
}

// ---------------------------------------------------------------- metrics

/// How many nodes of each shape a flowchart has.
#[derive(Clone, Copy, Debug)]
pub struct ShapeCounts {
    pub rect: usize,
    pub diamond: usize,
    pub stadium: usize,
    pub hexagon: usize,
    pub cylinder: usize,
    pub circle: usize,
}

#[derive(Clone, Copy, Debug)]
pub struct SequenceMetrics {
    pub participants: usize,
    pub messages: usize,
    pub solid_messages: usize,
    pub dashed_messages: usize,
    pub notes: usize,
    pub self_messages: usize,
    pub fragments: usize,
}

#[derive(Clone, Copy, Debug)]
pub struct ClassMetrics {
    pub classes: usize,
    pub relations: usize,
    pub members: usize,
    pub notes: usize,
}

#[derive(Clone, Debug)]
pub struct GanttMetrics {
    pub title: String,
    pub tasks: usize,
    pub sections: usize,
    pub span_days: i64,
    pub critical_tasks: usize,
    pub done_tasks: usize,
    pub active_tasks: usize,
}

#[derive(Clone, Copy, Debug)]
pub struct StateMetrics {
    pub states: usize,
    pub transitions: usize,
    pub start_end_nodes: usize,
    pub choice_nodes: usize,
}

#[derive(Clone, Copy, Debug)]
pub struct ErMetrics {
    pub entities: usize,
    pub relationships: usize,
    pub attributes: usize,
}

/// Number of nodes of shape `k`.
pub open spec fn count_shape(ns: Seq<crate::diagram::Node>, k: NodeShape) -> nat
    decreases ns.len(),
{
    if ns.len() == 0 {
        0
    } else {
        count_shape(ns.drop_last(), k) + if ns.last().shape == k { 1nat } else { 0nat }
    }
}

pub open spec fn is_shape_counts(c: ShapeCounts, ns: Seq<crate::diagram::Node>) -> bool {
    &&& c.rect == count_shape(ns, NodeShape::Rect)
    &&& c.diamond == count_shape(ns, NodeShape::Diamond)
    &&& c.stadium == count_shape(ns, NodeShape::Stadium)
    &&& c.hexagon == count_shape(ns, NodeShape::Hexagon)
    &&& c.cylinder == count_shape(ns, NodeShape::Cylinder)
    &&& c.circle == count_shape(ns, NodeShape::Circle)
}

/// Counts the nodes of a flowchart by shape.
pub fn shape_counts(d: &Flowchart) -> (c: ShapeCounts)
    ensures
        is_shape_counts(c, d.nodes@),
{
    let mut c = ShapeCounts { rect: 0, diamond: 0, stadium: 0, hexagon: 0, cylinder: 0, circle: 0 };
    let mut i: usize = 0;
    while i < d.nodes.len()
        invariant
            i <= d.nodes@.len(),
            is_shape_counts(c, d.nodes@.take(i as int)),
        decreases d.nodes@.len() - i,
    {
        assert(d.nodes@.take(i + 1).drop_last() =~= d.nodes@.take(i as int));
        proof {
            assert(count_shape(d.nodes@.take(i as int), NodeShape::Rect) <= i) by {
                lemma_count_shape_le(d.nodes@.take(i as int), NodeShape::Rect);
            }
            lemma_count_shape_le(d.nodes@.take(i as int), NodeShape::Diamond);
            lemma_count_shape_le(d.nodes@.take(i as int), NodeShape::Stadium);
            lemma_count_shape_le(d.nodes@.take(i as int), NodeShape::Hexagon);
            lemma_count_shape_le(d.nodes@.take(i as int), NodeShape::Cylinder);
            lemma_count_shape_le(d.nodes@.take(i as int), NodeShape::Circle);
        }
        match d.nodes[i].shape {
            NodeShape::Rect => c.rect = c.rect + 1,
            NodeShape::Diamond => c.diamond = c.diamond + 1,
            NodeShape::Stadium => c.stadium = c.stadium + 1,
            NodeShape::Hexagon => c.hexagon = c.hexagon + 1,
            NodeShape::Cylinder => c.cylinder = c.cylinder + 1,
            NodeShape::Circle => c.circle = c.circle + 1,
        }
        i = i + 1;
    }
    assert(d.nodes@.take(d.nodes@.len() as int) =~= d.nodes@);
    c
}

proof fn lemma_count_shape_le(ns: Seq<crate::diagram::Node>, k: NodeShape)
    ensures
        count_shape(ns, k) <= ns.len(),
    decreases ns.len(),
{
    if ns.len() > 0 {
        lemma_count_shape_le(ns.drop_last(), k);
    }
}

pub open spec fn count_solid(ms: Seq<Message>) -> nat
    decreases ms.len(),
{
    if ms.len() == 0 {
        0
    } else {
        count_solid(ms.drop_last()) + if ms.last().arrow == MessageArrow::Solid { 1nat } else { 0nat }
    }
}

pub open spec fn count_self(ms: Seq<Message>) -> nat
    decreases ms.len(),
{
    if ms.len() == 0 {
        0
    } else {
        count_self(ms.drop_last()) + if ms.last().from@ == ms.last().to@ { 1nat } else { 0nat }
    }
}

proof fn lemma_count_msgs_le(ms: Seq<Message>)
    ensures
        count_solid(ms) <= ms.len(),
        count_self(ms) <= ms.len(),
    decreases ms.len(),
{
    if ms.len() > 0 {
        lemma_count_msgs_le(ms.drop_last());
    }
}

pub open spec fn is_sequence_metrics(m: SequenceMetrics, s: SequenceDiagram) -> bool {
    &&& m.participants == s.participants@.len()
    &&& m.messages == s.messages@.len()
    &&& m.solid_messages == count_solid(s.messages@)
    &&& m.dashed_messages == s.messages@.len() - count_solid(s.messages@)
    &&& m.notes == s.notes@.len()
    &&& m.self_messages == count_self(s.messages@)
    &&& m.fragments == s.fragments@.len()
}

/// Counts of a sequence diagram.
pub fn sequence_metrics(s: &SequenceDiagram) -> (m: SequenceMetrics)
    ensures
        is_sequence_metrics(m, *s),
{
    let ms = &s.messages;
    let mut solid: usize = 0;
    let mut selfs: usize = 0;
    let mut i: usize = 0;
    while i < ms.len()
        invariant
            i <= ms@.len(),
            solid == count_solid(ms@.take(i as int)),
            selfs == count_self(ms@.take(i as int)),
        decreases ms@.len() - i,
    {
        assert(ms@.take(i + 1).drop_last() =~= ms@.take(i as int));
        proof {
            lemma_count_msgs_le(ms@.take(i as int));
        }
        if ms[i].arrow == MessageArrow::Solid {
            solid = solid + 1;
        }
        if str_eq(ms[i].from.as_str(), ms[i].to.as_str()) {
            selfs = selfs + 1;
        }
        i = i + 1;
    }
    assert(ms@.take(ms@.len() as int) =~= ms@);
    proof {
        lemma_count_msgs_le(ms@);
    }
    SequenceMetrics {
        participants: s.participants.len(),
        messages: ms.len(),
        solid_messages: solid,
        dashed_messages: ms.len() - solid,
        notes: s.notes.len(),
        self_messages: selfs,
        fragments: s.fragments.len(),
    }
}

/// Members of all classes together.
pub open spec fn member_total(cs: Seq<crate::class::Class>) -> nat
    decreases cs.len(),
{
    if cs.len() == 0 {
        0
    } else {
        member_total(cs.drop_last()) + cs.last().members@.len()
    }
}

pub open spec fn is_class_metrics(m: ClassMetrics, c: ClassDiagram) -> bool {
    &&& m.classes == c.classes@.len()
    &&& m.relations == c.relations@.len()
    &&& m.members == member_total(c.classes@)
    &&& m.notes == c.notes@.len()
}

/// Counts of a class diagram; `None` where the member total does not fit a `usize`.
pub fn class_metrics(c: &ClassDiagram) -> (m: Option<ClassMetrics>)
    ensures
        m matches Some(x) ==> is_class_metrics(x, *c),
        m is None <==> member_total(c.classes@) > usize::MAX,
{
    let mut total: usize = 0;
    let mut i: usize = 0;
    while i < c.classes.len()
        invariant
            i <= c.classes@.len(),
            total == member_total(c.classes@.take(i as int)),
        decreases c.classes@.len() - i,
    {
        assert(c.classes@.take(i + 1).drop_last() =~= c.classes@.take(i as int));
        let n = c.classes[i].members.len();
        if total > usize::MAX - n {
            proof {
                lemma_member_total_mono(c.classes@, i + 1);
            }
            return None;
        }
        total = total + n;
        i = i + 1;
    }
    assert(c.classes@.take(c.classes@.len() as int) =~= c.classes@);
    Some(ClassMetrics { classes: c.classes.len(), relations: c.relations.len(), members: total, notes: c.notes.len() })
}

proof fn lemma_member_total_mono(cs: Seq<crate::class::Class>, k: int)
    requires
        0 <= k <= cs.len(),
    ensures
        member_total(cs.take(k)) <= member_total(cs),
    decreases cs.len(),
{
    if k < cs.len() {
        assert(cs.drop_last().take(k) =~= cs.take(k));
        lemma_member_total_mono(cs.drop_last(), k);
    } else {
        assert(cs.take(k) =~= cs);
    }
}

/// Each item once, in order of first occurrence.
pub open spec fn nub<A>(s: Seq<A>) -> Seq<A>
    decreases s.len(),
{
    if s.len() == 0 {
        Seq::empty()
    } else {
        let p = nub(s.drop_last());
        if p.contains(s.last()) {
            p
        } else {
            p.push(s.last())
        }
    }
}

pub open spec fn sections_of(ts: Seq<GanttTask>) -> Seq<Seq<char>> {
    Seq::new(ts.len(), |k: int| ts[k].section@)
}

pub open spec fn min_start(ts: Seq<GanttTask>) -> int
    decreases ts.len(),
{
    if ts.len() <= 1 {
        if ts.len() == 1 { ts[0].start as int } else { 0 }
    } else {
        let p = min_start(ts.drop_last());
        if ts.last().start < p { ts.last().start as int } else { p }
    }
}

pub open spec fn max_end(ts: Seq<GanttTask>) -> int
    decreases ts.len(),
{
    if ts.len() <= 1 {
        if ts.len() == 1 { ts[0].end as int } else { 0 }
    } else {
        let p = max_end(ts.drop_last());
        if ts.last().end > p { ts.last().end as int } else { p }
    }
}

/// From the earliest start to the latest end, in days, and never negative.
pub open spec fn span_days(ts: Seq<GanttTask>) -> int {
    if ts.len() == 0 || max_end(ts) < min_start(ts) { 0 } else { max_end(ts) - min_start(ts) }
}

pub open spec fn count_crit(ts: Seq<GanttTask>) -> nat
    decreases ts.len(),
{
    if ts.len() == 0 { 0 } else { count_crit(ts.drop_last()) + if ts.last().crit { 1nat } else { 0nat } }
}

pub open spec fn count_done(ts: Seq<GanttTask>) -> nat
    decreases ts.len(),
{
    if ts.len() == 0 { 0 } else { count_done(ts.drop_last()) + if ts.last().done { 1nat } else { 0nat } }
}

pub open spec fn count_active(ts: Seq<GanttTask>) -> nat
    decreases ts.len(),
{
    if ts.len() == 0 { 0 } else { count_active(ts.drop_last()) + if ts.last().active { 1nat } else { 0nat } }
}

proof fn lemma_count_tasks_le(ts: Seq<GanttTask>)
    ensures
        count_crit(ts) <= ts.len(),
        count_done(ts) <= ts.len(),
        count_active(ts) <= ts.len(),
    decreases ts.len(),
{
    if ts.len() > 0 {
        lemma_count_tasks_le(ts.drop_last());
    }
}

proof fn lemma_nub_le<A>(s: Seq<A>)
    ensures
        nub(s).len() <= s.len(),
    decreases s.len(),
{
    if s.len() > 0 {
        lemma_nub_le(s.drop_last());
    }
}

pub open spec fn is_gantt_metrics(m: GanttMetrics, g: GanttDiagram) -> bool {
    &&& m.title@ == g.title@
    &&& m.tasks == g.tasks@.len()
    &&& m.sections == nub(sections_of(g.tasks@)).len()
    &&& m.span_days == span_days(g.tasks@)
    &&& m.critical_tasks == count_crit(g.tasks@)
    &&& m.done_tasks == count_done(g.tasks@)
    &&& m.active_tasks == count_active(g.tasks@)
}

/// Counts and span of a gantt chart.
/// `None` where the span does not fit an `i64`.
pub fn gantt_metrics(g: &GanttDiagram) -> (m: Option<GanttMetrics>)
    ensures
        m matches Some(x) ==> is_gantt_metrics(x, *g),
        m is None <==> span_days(g.tasks@) > i64::MAX,
{
    let ts = &g.tasks;
    let mut secs: Vec<String> = Vec::new();
    let mut crit: usize = 0;
    let mut done: usize = 0;
    let mut active: usize = 0;
    let mut lo: i64 = 0;
    let mut hi: i64 = 0;
    let mut i: usize = 0;
    while i < ts.len()
        invariant
            i <= ts@.len(),
            views(secs@) == nub(sections_of(ts@).take(i as int)),
            crit == count_crit(ts@.take(i as int)),
            done == count_done(ts@.take(i as int)),
            active == count_active(ts@.take(i as int)),
            i > 0 ==> lo == min_start(ts@.take(i as int)),
            i > 0 ==> hi == max_end(ts@.take(i as int)),
        decreases ts@.len() - i,
    {
        let ghost pre = ts@.take(i as int);
        assert(ts@.take(i + 1).drop_last() =~= pre);
        assert(sections_of(ts@).take(i + 1).drop_last() =~= sections_of(ts@).take(i as int));
        assert(sections_of(ts@).take(i + 1).last() == ts@[i as int].section@);
        proof {
            lemma_count_tasks_le(pre);
        }
        let t = &ts[i];
        if i == 0 {
            lo = t.start;
            hi = t.end;
            assert(ts@.take(1) =~= seq![ts@[0]]);
        } else {
            if t.start < lo {
                lo = t.start;
            }
            if t.end > hi {
                hi = t.end;
            }
        }
        if t.crit {
            crit = crit + 1;
        }
        if t.done {
            done = done + 1;
        }
        if t.active {
            active = active + 1;
        }
        let mut found = false;
        let mut j: usize = 0;
        while j < secs.len()
            invariant
                j <= secs@.len(),
                found == exists|q: int| 0 <= q < j && (#[trigger] secs@[q])@ == t.section@,
            decreases secs@.len() - j,
        {
            if str_eq(secs[j].as_str(), t.section.as_str()) {
                found = true;
            }
            j = j + 1;
        }
        let ghost before = views(secs@);
        proof {
            if found {
                let q = choose|q: int| 0 <= q < j && (#[trigger] secs@[q])@ == t.section@;
                assert(before[q] == t.section@);
                assert(before.contains(t.section@));
            } else {
                assert forall|q: int| 0 <= q < before.len() implies before[q] != t.section@ by {
                    assert(before[q] == secs@[q]@);
                }
                assert(!before.contains(t.section@));
            }
        }
        if !found {
            secs.push(t.section.clone());
            assert(views(secs@) =~= before.push(t.section@));
        }
        i = i + 1;
    }
    assert(ts@.take(ts@.len() as int) =~= ts@);
    assert(sections_of(ts@).take(ts@.len() as int) =~= sections_of(ts@));
    let span: i64 = if ts.len() == 0 || hi < lo {
        0
    } else {
        let w: i128 = hi as i128 - lo as i128;
        if w > i64::MAX as i128 {
            return None;
        }
        w as i64
    };
    proof {
        lemma_nub_le(sections_of(ts@));
    }
    Some(GanttMetrics {
        title: g.title.clone(),
        tasks: ts.len(),
        sections: secs.len(),
        span_days: span,
        critical_tasks: crit,
        done_tasks: done,
        active_tasks: active,
    })
}

pub open spec fn count_kind(ss: Seq<crate::state::StateNode>, k: StateNodeKind) -> nat
    decreases ss.len(),
{
    if ss.len() == 0 { 0 } else { count_kind(ss.drop_last(), k) + if ss.last().kind == k { 1nat } else { 0nat } }
}

proof fn lemma_count_kind_le(ss: Seq<crate::state::StateNode>, k: StateNodeKind)
    ensures
        count_kind(ss, k) <= ss.len(),
    decreases ss.len(),
{
    if ss.len() > 0 {
        lemma_count_kind_le(ss.drop_last(), k);
    }
}

pub open spec fn is_state_metrics(m: StateMetrics, s: StateDiagram) -> bool {
    &&& m.states == s.states@.len()
    &&& m.transitions == s.transitions@.len()
    &&& m.start_end_nodes == count_kind(s.states@, StateNodeKind::StartEnd)
    &&& m.choice_nodes == count_kind(s.states@, StateNodeKind::Choice)
}

/// Counts of a state diagram.
pub fn state_metrics(s: &StateDiagram) -> (m: StateMetrics)
    ensures
        is_state_metrics(m, *s),
{
    let ss = &s.states;
    let mut se: usize = 0;
    let mut ch: usize = 0;
    let mut i: usize = 0;
    while i < ss.len()
        invariant
            i <= ss@.len(),
            se == count_kind(ss@.take(i as int), StateNodeKind::StartEnd),
            ch == count_kind(ss@.take(i as int), StateNodeKind::Choice),
        decreases ss@.len() - i,
    {
        assert(ss@.take(i + 1).drop_last() =~= ss@.take(i as int));
        proof {
            lemma_count_kind_le(ss@.take(i as int), StateNodeKind::StartEnd);
            lemma_count_kind_le(ss@.take(i as int), StateNodeKind::Choice);
        }
        if ss[i].kind == StateNodeKind::StartEnd {
            se = se + 1;
        }
        if ss[i].kind == StateNodeKind::Choice {
            ch = ch + 1;
        }
        i = i + 1;
    }
    assert(ss@.take(ss@.len() as int) =~= ss@);
    StateMetrics { states: ss.len(), transitions: s.transitions.len(), start_end_nodes: se, choice_nodes: ch }
}

/// Attributes of all entities together.
pub open spec fn attr_total(es: Seq<crate::er::Entity>) -> nat
    decreases es.len(),
{
    if es.len() == 0 { 0 } else { attr_total(es.drop_last()) + es.last().attributes@.len() }
}

pub open spec fn is_er_metrics(m: ErMetrics, e: ErDiagram) -> bool {
    &&& m.entities == e.entities@.len()
    &&& m.relationships == e.relationships@.len()
    &&& m.attributes == attr_total(e.entities@)
}

proof fn lemma_attr_total_mono(es: Seq<crate::er::Entity>, k: int)
    requires
        0 <= k <= es.len(),
    ensures
        attr_total(es.take(k)) <= attr_total(es),
    decreases es.len(),
{
    if k < es.len() {
        assert(es.drop_last().take(k) =~= es.take(k));
        lemma_attr_total_mono(es.drop_last(), k);
    } else {
        assert(es.take(k) =~= es);
    }
}

/// Counts of an ER diagram; `None` where the attribute total does not fit a `usize`.
pub fn er_metrics(e: &ErDiagram) -> (m: Option<ErMetrics>)
    ensures
        m matches Some(x) ==> is_er_metrics(x, *e),
        m is None <==> attr_total(e.entities@) > usize::MAX,
{
    let mut total: usize = 0;
    let mut i: usize = 0;
    while i < e.entities.len()
        invariant
            i <= e.entities@.len(),
            total == attr_total(e.entities@.take(i as int)),
        decreases e.entities@.len() - i,
    {
        assert(e.entities@.take(i + 1).drop_last() =~= e.entities@.take(i as int));
        let n = e.entities[i].attributes.len();
        if total > usize::MAX - n {
            proof {
                lemma_attr_total_mono(e.entities@, i + 1);
            }
            return None;
        }
        total = total + n;
        i = i + 1;
    }
    assert(e.entities@.take(e.entities@.len() as int) =~= e.entities@);
    Some(ErMetrics { entities: e.entities.len(), relationships: e.relationships.len(), attributes: total })
}

// ---------------------------------------------------------------- laws

/// No two classes of a class diagram share an id but differ in stereotype.
pub open spec fn stereotypes_consistent(d: Diagram) -> bool {
    match d {
        Diagram::Class(c) => forall|j: int, k: int|
            0 <= j < c.classes@.len() && 0 <= k < c.classes@.len() && c.classes@[j].id@ == c.classes@[k].id@
                ==> ostr(#[trigger] c.classes@[j].stereotype) == ostr(#[trigger] c.classes@[k].stereotype),
        _ => true,
    }
}

proof fn lemma_missing_contained<A>(a: Seq<A>, b: Seq<A>)
    requires
        forall|k: int| 0 <= k < a.len() ==> b.contains(#[trigger] a[k]),
    ensures
        missing(a, b).len() == 0,
    decreases a.len(),
{
    if a.len() > 0 {
        assert(b.contains(a[a.len() - 1]));
        lemma_missing_contained(a.drop_last(), b);
    }
}

proof fn lemma_missing_self<A>(a: Seq<A>)
    ensures
        missing(a, a).len() == 0,
{
    assert forall|k: int| 0 <= k < a.len() implies a.contains(#[trigger] a[k]) by {}
    lemma_missing_contained(a, a);
}

proof fn lemma_msgs_self(l: Seq<Message>, n: int)
    ensures
        tail_msgs(l, l, n).len() == 0,
        changed_msgs(l, l, n).len() == 0,
    decreases n,
{
    if n > 0 {
        lemma_msgs_self(l, n - 1);
    }
}

proof fn lemma_last_node_some(ns: Seq<crate::diagram::Node>, k: int)
    requires
        0 <= k < ns.len(),
    ensures
        last_node(ns, ns[k].id@) is Some,
    decreases ns.len(),
{
    if ns.last().id@ != ns[k].id@ {
        assert(ns.drop_last()[k] == ns[k]);
        lemma_last_node_some(ns.drop_last(), k);
    }
}

proof fn lemma_last_edge_some(es: Seq<crate::diagram::Edge>, k: int)
    requires
        0 <= k < es.len(),
    ensures
        last_edge(es, edge_key(es[k])) is Some,
    decreases es.len(),
{
    if edge_key(es.last()) != edge_key(es[k]) {
        assert(es.drop_last()[k] == es[k]);
        lemma_last_edge_some(es.drop_last(), k);
    }
}

proof fn lemma_flowchart_self(a: Flowchart, n: int)
    requires
        n <= a.nodes@.len(),
    ensures
        added_nodes(a.nodes@, a.nodes@, n).len() == 0,
        modified_nodes(a.nodes@, a.nodes@, n).len() == 0,
    decreases n,
{
    if n > 0 {
        lemma_flowchart_self(a, n - 1);
        lemma_last_node_some(a.nodes@, n - 1);
    }
}

proof fn lemma_edges_self(es: Seq<crate::diagram::Edge>, n: int)
    requires
        n <= es.len(),
    ensures
        added_edges(es, es, n).len() == 0,
        modified_edges(es, es, n).len() == 0,
    decreases n,
{
    if n > 0 {
        lemma_edges_self(es, n - 1);
        lemma_last_edge_some(es, n - 1);
    }
}

proof fn lemma_last_class(cs: Seq<crate::class::Class>, id: Seq<char>)
    ensures
        last_class(cs, id) matches Some(j) ==> 0 <= j < cs.len() && cs[j].id@ == id,
    decreases cs.len(),
{
    if cs.len() > 0 && cs.last().id@ != id {
        lemma_last_class(cs.drop_last(), id);
    }
}

proof fn lemma_stereo_self(c: ClassDiagram, n: int)
    requires
        n <= c.classes@.len(),
        stereotypes_consistent(Diagram::Class(c)),
    ensures
        changed_stereo(c.classes@, c.classes@, n).len() == 0,
    decreases n,
{
    if n > 0 {
        lemma_stereo_self(c, n - 1);
        let x = c.classes@[n - 1];
        lemma_last_class(c.classes@, x.id@);
        if let Some(j) = last_class(c.classes@, x.id@) {
            assert(ostr(c.classes@[j].stereotype) == ostr(c.classes@[n - 1].stereotype));
        }
    }
}

proof fn lemma_tasks_contained(a: Seq<GanttTask>, b: Seq<GanttTask>)
    requires
        forall|k: int| 0 <= k < a.len() ==> task_keys(b).contains(task_key(#[trigger] a[k])),
    ensures
        missing_tasks(a, b).len() == 0,
    decreases a.len(),
{
    if a.len() > 0 {
        assert(task_keys(b).contains(task_key(a[a.len() - 1])));
        lemma_tasks_contained(a.drop_last(), b);
    }
}

proof fn lemma_detail_self(dd: DiffDetail, x: Diagram)
    requires
        detail_of(dd, x, x),
        stereotypes_consistent(x),
    ensures
        detail_same(dd),
{
    match (dd, x) {
        (DiffDetail::Flowchart(d), Diagram::Flowchart(a)) => {
            lemma_flowchart_self(a, a.nodes@.len() as int);
            lemma_edges_self(a.edges@, a.edges@.len() as int);
        },
        (DiffDetail::Sequence(d), Diagram::Sequence(a)) => {
            lemma_missing_self(part_ids(a));
            let n = a.messages@.len() as int;
            lemma_msgs_self(a.messages@, n);
            assert(msgs_v(d.added_messages@).len() == 0);
            assert(msgs_v(d.removed_messages@).len() == 0);
        },
        (DiffDetail::Class(d), Diagram::Class(a)) => {
            lemma_missing_self(class_ids(a));
            lemma_missing_self(rels_v(a.relations@));
            lemma_stereo_self(a, a.classes@.len() as int);
            assert(rels_v(d.added_relations@).len() == 0);
            assert(rels_v(d.removed_relations@).len() == 0);
        },
        (DiffDetail::Gantt(d), Diagram::Gantt(a)) => {
            assert forall|k: int| 0 <= k < a.tasks@.len() implies task_keys(a.tasks@).contains(
                task_key(#[trigger] a.tasks@[k]),
            ) by {
                assert(task_keys(a.tasks@)[k] == task_key(a.tasks@[k]));
            }
            lemma_tasks_contained(a.tasks@, a.tasks@);
        },
        (DiffDetail::State(d), Diagram::State(a)) => {
            lemma_missing_self(state_ids(a));
            lemma_missing_self(transs_v(a.transitions@));
            assert(transs_v(d.added_transitions@).len() == 0);
            assert(transs_v(d.removed_transitions@).len() == 0);
        },
        (DiffDetail::Er(d), Diagram::Er(a)) => {
            lemma_missing_self(entity_ids(a));
            lemma_missing_self(er_rels_v(a.relationships@));
            assert(er_rels_v(d.added_relationships@).len() == 0);
            assert(er_rels_v(d.removed_relationships@).len() == 0);
        },
        _ => {},
    }
}

proof fn lemma_summary_self(l: Seq<Diagram>, es: Seq<DiagramDiffEntry>, n: int)
    requires
        0 <= n <= l.len(),
        n <= es.len(),
        forall|k: int| 0 <= k < n ==> entry_same(#[trigger] es[k]),
    ensures
        summary_lines(l, l, es, n).len() == 0,
    decreases n,
{
    if n > 0 {
        assert(entry_same(es[n - 1]));
        lemma_summary_self(l, es, n - 1);
    }
}

/// Diffing a document against itself reports it unchanged, with an empty
/// summary, provided no class diagram in it holds two classes of one id with
/// different stereotypes.
pub proof fn law_diff_self_unchanged(doc: Document, d: DocumentDiff)
    requires
        is_document_diff(d, doc.diagrams@, doc.diagrams@),
        forall|i: int| 0 <= i < doc.diagrams@.len() ==> stereotypes_consistent(#[trigger] doc.diagrams@[i]),
    ensures
        d.unchanged,
        d.summary@.len() == 0,
        !d.diagram_count_changed,
{
    let l = doc.diagrams@;
    let n = l.len() as int;
    assert forall|k: int| 0 <= k < n implies entry_same(#[trigger] d.entries@[k]) by {
        assert(entry_ok(d.entries@[k], k, l, l));
        let e = d.entries@[k];
        if let Some(dd) = e.detail {
            lemma_detail_self(dd, l[k]);
        }
    }
    lemma_summary_self(l, d.entries@, n);
    assert(views(d.summary@).len() == d.summary@.len());
}

// ---------------------------------------------------------------- flowchart metrics

/// Counts and shape of a flowchart (the share of orphans is left to callers,
/// as `orphans` over `nodes`).
#[derive(Clone, Debug)]
pub struct FlowchartMetrics {
    pub nodes: usize,
    pub edges: usize,
    pub direction: String,
    pub sources: usize,
    pub sinks: usize,
    pub orphans: usize,
    pub max_depth: usize,
    pub cycles: Vec<String>,
    pub validation_issues: Vec<String>,
    pub shapes: ShapeCounts,
}

/// Number of edges leaving `v`.
pub open spec fn out_count(es: Seq<Edge>, v: Seq<char>) -> nat
    decreases es.len(),
{
    if es.len() == 0 {
        0
    } else {
        out_count(es.drop_last(), v) + if es.last().from@ == v { 1nat } else { 0nat }
    }
}

/// The ids among `ids` that no edge leaves.
pub open spec fn sinks_of(ids: Seq<Seq<char>>, es: Seq<Edge>) -> Seq<Seq<char>>
    decreases ids.len(),
{
    if ids.len() == 0 {
        Seq::empty()
    } else {
        let p = sinks_of(ids.drop_last(), es);
        if out_count(es, ids.last()) == 0 { p.push(ids.last()) } else { p }
    }
}

/// Some edge starts or ends at `id`.
pub open spec fn touched(es: Seq<Edge>, id: Seq<char>) -> bool {
    exists|j: int| 0 <= j < es.len() && ((#[trigger] es[j]).from@ == id || es[j].to@ == id)
}

/// Nodes (each occurrence) that no edge touches.
pub open spec fn orphan_count(ns: Seq<crate::diagram::Node>, es: Seq<Edge>) -> nat
    decreases ns.len(),
{
    if ns.len() == 0 {
        0
    } else {
        orphan_count(ns.drop_last(), es) + if touched(es, ns.last().id@) { 0nat } else { 1nat }
    }
}

/// The longest walk from a start to any of `c`, of fewer than `b` edges.
pub open spec fn depth_over(ns: Seq<crate::diagram::Node>, es: Seq<Edge>, c: Seq<Seq<char>>, b: nat) -> nat
    decreases c.len(),
{
    if c.len() == 0 {
        0
    } else {
        let p = depth_over(ns, es, c.drop_last(), b);
        match best(ns, es, c.last(), b) {
            Some(x) => if x > p { x } else { p },
            None => p,
        }
    }
}

/// The longest walk from a start, of fewer edges than the flowchart has ids
/// (on a graph whose starts reach no cycle, the longest path).
pub open spec fn max_depth(ns: Seq<crate::diagram::Node>, es: Seq<Edge>) -> nat {
    let c = cands(ns, es);
    depth_over(ns, es, c, c.len())
}

/// The issues that report a cycle.
pub open spec fn cycle_issues(v: Seq<Seq<char>>) -> Seq<Seq<char>>
    decreases v.len(),
{
    if v.len() == 0 {
        Seq::empty()
    } else {
        let p = cycle_issues(v.drop_last());
        if "cycle detected:"@.is_prefix_of(v.last()) { p.push(v.last()) } else { p }
    }
}

pub open spec fn is_flowchart_metrics(m: FlowchartMetrics, d: Flowchart) -> bool {
    let ns = d.nodes@;
    let es = d.edges@;
    &&& m.nodes == ns.len()
    &&& m.edges == es.len()
    &&& m.direction@ == d.rankdir@
    &&& m.sources == sources(uniq_ids(ns), es).len()
    &&& m.sinks == sinks_of(uniq_ids(ns), es).len()
    &&& m.orphans == orphan_count(ns, es)
    &&& m.max_depth == max_depth(ns, es)
    &&& views(m.validation_issues@) == validation(d)
    &&& views(m.cycles@) == cycle_issues(validation(d))
    &&& is_shape_counts(m.shapes, ns)
}

proof fn lemma_out_count_le(es: Seq<Edge>, v: Seq<char>)
    ensures
        out_count(es, v) <= es.len(),
    decreases es.len(),
{
    if es.len() > 0 {
        lemma_out_count_le(es.drop_last(), v);
    }
}

fn out_count_exec(es: &Vec<Edge>, v: &str) -> (r: usize)
    ensures
        r == out_count(es@, v@),
{
    let mut c: usize = 0;
    let mut k: usize = 0;
    while k < es.len()
        invariant
            k <= es@.len(),
            c == out_count(es@.take(k as int), v@),
        decreases es@.len() - k,
    {
        assert(es@.take(k + 1).drop_last() =~= es@.take(k as int));
        proof {
            lemma_out_count_le(es@.take(k as int), v@);
        }
        if str_eq(es[k].from.as_str(), v) {
            c = c + 1;
        }
        k = k + 1;
    }
    assert(es@.take(es@.len() as int) =~= es@);
    c
}

fn touched_exec(es: &Vec<Edge>, id: &str) -> (r: bool)
    ensures
        r == touched(es@, id@),
{
    let mut j: usize = 0;
    while j < es.len()
        invariant
            j <= es@.len(),
            forall|q: int| 0 <= q < j ==> !((#[trigger] es@[q]).from@ == id@ || es@[q].to@ == id@),
        decreases es@.len() - j,
    {
        if str_eq(es[j].from.as_str(), id) || str_eq(es[j].to.as_str(), id) {
            return true;
        }
        j = j + 1;
    }
    false
}

proof fn lemma_seq_counts_le(ids: Seq<Seq<char>>, es: Seq<Edge>)
    ensures
        sources(ids, es).len() <= ids.len(),
        sinks_of(ids, es).len() <= ids.len(),
    decreases ids.len(),
{
    if ids.len() > 0 {
        lemma_seq_counts_le(ids.drop_last(), es);
    }
}

proof fn lemma_orphans_le(ns: Seq<crate::diagram::Node>, es: Seq<Edge>)
    ensures
        orphan_count(ns, es) <= ns.len(),
    decreases ns.len(),
{
    if ns.len() > 0 {
        lemma_orphans_le(ns.drop_last(), es);
    }
}

/// Counts, depth, cycles and shapes of a flowchart.
pub fn flowchart_metrics(d: &Flowchart) -> (m: FlowchartMetrics)
    ensures
        is_flowchart_metrics(m, *d),
{
    let ns = &d.nodes;
    let es = &d.edges;
    let issues = d.validate();
    let mut cycles: Vec<String> = Vec::new();
    let mut k: usize = 0;
    let ghost iv = views(issues@);
    assert(iv.take(0) =~= Seq::<Seq<char>>::empty());
    while k < issues.len()
        invariant
            k <= issues@.len(),
            iv == views(issues@),
            views(cycles@) == cycle_issues(iv.take(k as int)),
        decreases issues@.len() - k,
    {
        assert(iv.take(k + 1).drop_last() =~= iv.take(k as int));
        assert(iv.take(k + 1).last() == issues@[k as int]@);
        let t = chars_of(issues[k].as_str());
        let p = chars_of("cycle detected:");
        if crate::text::starts_with(t.as_slice(), p.as_slice()) {
            let ghost before = views(cycles@);
            cycles.push(issues[k].clone());
            assert(views(cycles@) =~= before.push(issues@[k as int]@));
        }
        k = k + 1;
    }
    assert(iv.take(issues@.len() as int) =~= iv);
    // sources and sinks, over the distinct node ids
    let uniq = uniq_ids_exec(ns);
    let ghost u = views(uniq@);
    let mut src: usize = 0;
    let mut snk: usize = 0;
    k = 0;
    assert(u.take(0) =~= Seq::<Seq<char>>::empty());
    while k < uniq.len()
        invariant
            k <= uniq@.len(),
            u == views(uniq@),
            src == sources(u.take(k as int), es@).len(),
            snk == sinks_of(u.take(k as int), es@).len(),
        decreases uniq@.len() - k,
    {
        assert(u.take(k + 1).drop_last() =~= u.take(k as int));
        assert(u.take(k + 1).last() == uniq@[k as int]@);
        proof {
            lemma_seq_counts_le(u.take(k as int), es@);
        }
        if in_count_exec(es, uniq[k].as_str()) == 0 {
            src = src + 1;
        }
        if out_count_exec(es, uniq[k].as_str()) == 0 {
            snk = snk + 1;
        }
        k = k + 1;
    }
    assert(u.take(uniq@.len() as int) =~= u);
    // orphans
    let mut orph: usize = 0;
    k = 0;
    assert(ns@.take(0) =~= Seq::<crate::diagram::Node>::empty());
    while k < ns.len()
        invariant
            k <= ns@.len(),
            orph == orphan_count(ns@.take(k as int), es@),
        decreases ns@.len() - k,
    {
        assert(ns@.take(k + 1).drop_last() =~= ns@.take(k as int));
        proof {
            lemma_orphans_le(ns@.take(k as int), es@);
        }
        if !touched_exec(es, ns[k].id.as_str()) {
            orph = orph + 1;
        }
        k = k + 1;
    }
    assert(ns@.take(ns@.len() as int) =~= ns@);
    // depth
    let st = starts_exec(ns, es, &uniq);
    let univ = universe_exec(ns, es);
    let c = nub_exec(&univ);
    let ghost cv = views(c@);
    let lay = longest_walks(d, &c, &st, c.len());
    let mut depth: usize = 0;
    k = 0;
    assert(cv.take(0) =~= Seq::<Seq<char>>::empty());
    while k < c.len()
        invariant
            k <= c@.len(),
            cv == views(c@),
            lay@.len() == c@.len(),
            forall|q: int| 0 <= q < c@.len() ==> opt_nat(#[trigger] lay@[q]) == best(ns@, es@, cv[q], c@.len() as nat),
            depth == depth_over(ns@, es@, cv.take(k as int), c@.len() as nat),
        decreases c@.len() - k,
    {
        assert(cv.take(k + 1).drop_last() =~= cv.take(k as int));
        assert(cv.take(k + 1).last() == cv[k as int]);
        assert(opt_nat(lay@[k as int]) == best(ns@, es@, cv[k as int], c@.len() as nat));
        match lay[k] {
            Some(x) => if x > depth {
                depth = x;
            },
            None => {},
        }
        k = k + 1;
    }
    assert(cv.take(c@.len() as int) =~= cv);
    FlowchartMetrics {
        nodes: ns.len(),
        edges: es.len(),
        direction: d.rankdir.clone(),
        sources: src,
        sinks: snk,
        orphans: orph,
        max_depth: depth,
        cycles,
        validation_issues: issues,
        shapes: shape_counts(d),
    }
}

// ---------------------------------------------------------------- document metrics

/// Metrics of one diagram, by kind.
#[derive(Clone, Debug)]
pub enum MetricsDetail {
    Flowchart(FlowchartMetrics),
    Sequence(SequenceMetrics),
    Class(ClassMetrics),
    Gantt(GanttMetrics),
    State(StateMetrics),
    Er(ErMetrics),
    Empty {},
}

#[derive(Clone, Debug)]
pub struct DiagramMetricsEntry {
    pub index: usize,
    pub kind: String,
    pub detail: MetricsDetail,
}

/// Metrics of a document: of its one diagram, or one entry per diagram.
#[derive(Clone, Debug)]
pub struct DocumentMetrics {
    pub ir_version: u32,
    pub diagrams: usize,
    pub kind: String,
    pub detail: MetricsDetail,
    pub entries: Option<Vec<DiagramMetricsEntry>>,
}

/// Every count of the diagram fits its integer type.
pub open spec fn metrics_fit(d: Diagram) -> bool {
    match d {
        Diagram::Class(c) => member_total(c.classes@) <= usize::MAX,
        Diagram::Gantt(g) => span_days(g.tasks@) <= i64::MAX,
        Diagram::Er(e) => attr_total(e.entities@) <= usize::MAX,
        _ => true,
    }
}

pub open spec fn is_metrics_of(m: MetricsDetail, d: Diagram) -> bool {
    match (m, d) {
        (MetricsDetail::Flowchart(x), Diagram::Flowchart(y)) => is_flowchart_metrics(x, y),
        (MetricsDetail::Sequence(x), Diagram::Sequence(y)) => is_sequence_metrics(x, y),
        (MetricsDetail::Class(x), Diagram::Class(y)) => is_class_metrics(x, y),
        (MetricsDetail::Gantt(x), Diagram::Gantt(y)) => is_gantt_metrics(x, y),
        (MetricsDetail::State(x), Diagram::State(y)) => is_state_metrics(x, y),
        (MetricsDetail::Er(x), Diagram::Er(y)) => is_er_metrics(x, y),
        _ => false,
    }
}

pub open spec fn is_document_metrics(m: DocumentMetrics, doc: Document) -> bool {
    let ds = doc.diagrams@;
    &&& m.ir_version == doc.version
    &&& m.diagrams == ds.len()
    &&& if ds.len() == 0 {
        m.kind@ == "none"@ && m.detail is Empty && m.entries is None
    } else if ds.len() == 1 {
        m.kind@ == kn(ds[0]) && is_metrics_of(m.detail, ds[0]) && m.entries is None
    } else {
        &&& m.kind@ == "multi"@
        &&& m.detail is Empty
        &&& m.entries matches Some(es) && es@.len() == ds.len() && forall|i: int|
            0 <= i < ds.len() ==> (#[trigger] es@[i]).index == i && es@[i].kind@ == kn(ds[i]) && is_metrics_of(
                es@[i].detail,
                ds[i],
            )
    }
}

fn metrics_for_diagram(d: &Diagram) -> (m: Option<MetricsDetail>)
    ensures
        m matches Some(x) ==> is_metrics_of(x, *d),
        m is None <==> !metrics_fit(*d),
{
    match d {
        Diagram::Flowchart(fc) => Some(MetricsDetail::Flowchart(flowchart_metrics(fc))),
        Diagram::Sequence(s) => Some(MetricsDetail::Sequence(sequence_metrics(s))),
        Diagram::Class(c) => match class_metrics(c) {
            Some(x) => Some(MetricsDetail::Class(x)),
            None => None,
        },
        Diagram::Gantt(g) => match gantt_metrics(g) {
            Some(x) => Some(MetricsDetail::Gantt(x)),
            None => None,
        },
        Diagram::State(s) => Some(MetricsDetail::State(state_metrics(s))),
        Diagram::Er(e) => match er_metrics(e) {
            Some(x) => Some(MetricsDetail::Er(x)),
            None => None,
        },
    }
}

/// Metrics of a document; `None` where some count does not fit its integer
/// type.
pub fn metrics(doc: &Document) -> (m: Option<DocumentMetrics>)
    ensures
        m matches Some(x) ==> is_document_metrics(x, *doc),
        m is None <==> exists|i: int| 0 <= i < doc.diagrams@.len() && !metrics_fit(#[trigger] doc.diagrams@[i]),
{
    let ds = &doc.diagrams;
    if ds.len() == 0 {
        return Some(DocumentMetrics {
            ir_version: doc.version,
            diagrams: 0,
            kind: string_from("none"),
            detail: MetricsDetail::Empty {},
            entries: None,
        });
    }
    if ds.len() == 1 {
        return match metrics_for_diagram(&ds[0]) {
            Some(detail) => Some(DocumentMetrics {
                ir_version: doc.version,
                diagrams: 1,
                kind: kind_string(&ds[0]),
                detail,
                entries: None,
            }),
            None => {
                assert(!metrics_fit(ds@[0]));
                None
            },
        };
    }
    let mut entries: Vec<DiagramMetricsEntry> = Vec::new();
    let mut i: usize = 0;
    while i < ds.len()
        invariant
            i <= ds@.len(),
            ds@ == doc.diagrams@,
            entries@.len() == i,
            forall|q: int| 0 <= q < i ==> metrics_fit(#[trigger] ds@[q]),
            forall|q: int| 0 <= q < i ==> (#[trigger] entries@[q]).index == q && entries@[q].kind@ == kn(ds@[q]) && is_metrics_of(
                entries@[q].detail,
                ds@[q],
            ),
        decreases ds@.len() - i,
    {
        match metrics_for_diagram(&ds[i]) {
            Some(detail) => {
                entries.push(DiagramMetricsEntry { index: i, kind: kind_string(&ds[i]), detail });
            },
            None => {
                assert(!metrics_fit(ds@[i as int]));
                return None;
            },
        }
        i = i + 1;
    }
    Some(DocumentMetrics {
        ir_version: doc.version,
        diagrams: ds.len(),
        kind: string_from("multi"),
        detail: MetricsDetail::Empty {},
        entries: Some(entries),
    })
}

proof fn lemma_changed_pairs_differ(l: Seq<Message>, r: Seq<Message>, n: int)
    ensures
        forall|k: int| 0 <= k < changed_msgs(l, r, n).len() ==> (#[trigger] changed_msgs(l, r, n)[k]).0
            != changed_msgs(l, r, n)[k].1,
    decreases n,
{
    if n > 0 {
        lemma_changed_pairs_differ(l, r, n - 1);
        let p = changed_msgs(l, r, n - 1);
        let c = changed_msgs(l, r, n);
        assert forall|k: int| 0 <= k < c.len() implies (#[trigger] c[k]).0 != c[k].1 by {
            if k < p.len() {
                assert(c[k] == p[k]);
            }
        }
    }
}

proof fn lemma_changed_has(l: Seq<Message>, r: Seq<Message>, n: int, i: int)
    requires
        0 <= i < n,
        i < l.len(),
        i < r.len(),
        msg_v(l[i]) != msg_v(r[i]),
    ensures
        changed_msgs(l, r, n).contains((msg_v(l[i]), msg_v(r[i]))),
    decreases n,
{
    let c = changed_msgs(l, r, n);
    let p = changed_msgs(l, r, n - 1);
    if i == n - 1 {
        assert(c[p.len() as int] == (msg_v(l[i]), msg_v(r[i])));
    } else {
        lemma_changed_has(l, r, n - 1, i);
        let k = choose|k: int| 0 <= k < p.len() && p[k] == (msg_v(l[i]), msg_v(r[i]));
        assert(c[k] == p[k]);
    }
}

/// A message position is reported modified exactly when the two messages at
/// that position differ in sender, receiver, text or arrow; every reported
/// pair is a pair of different messages.
pub proof fn law_modified_messages(l: Seq<Message>, r: Seq<Message>, n: int, i: int)
    requires
        0 <= i < n,
        i < l.len(),
        i < r.len(),
    ensures
        changed_msgs(l, r, n).contains((msg_v(l[i]), msg_v(r[i]))) <==> (l[i].from@ != r[i].from@ || l[i].to@
            != r[i].to@ || l[i].text@ != r[i].text@ || l[i].arrow != r[i].arrow),
        forall|k: int| 0 <= k < changed_msgs(l, r, n).len() ==> (#[trigger] changed_msgs(l, r, n)[k]).0
            != changed_msgs(l, r, n)[k].1,
{
    lemma_changed_pairs_differ(l, r, n);
    let c = changed_msgs(l, r, n);
    if msg_v(l[i]) != msg_v(r[i]) {
        lemma_changed_has(l, r, n, i);
    }
    if c.contains((msg_v(l[i]), msg_v(r[i]))) {
        let k = choose|k: int| 0 <= k < c.len() && c[k] == (msg_v(l[i]), msg_v(r[i]));
        assert(c[k].0 != c[k].1);
    }
}

/// Diffing two documents whose sequence diagrams at one index differ in one
/// message (sender, receiver, text or arrow) reports that diagram changed and
/// the documents not unchanged.
pub proof fn law_diff_sees_changed_message(l: Seq<Diagram>, r: Seq<Diagram>, d: DocumentDiff, k: int, i: int)
    requires
        is_document_diff(d, l, r),
        0 <= k < l.len(),
        k < r.len(),
        l[k] is Sequence,
        r[k] is Sequence,
        0 <= i < l[k]->Sequence_0.messages@.len(),
        i < r[k]->Sequence_0.messages@.len(),
        ({
            let a = l[k]->Sequence_0.messages@[i];
            let b = r[k]->Sequence_0.messages@[i];
            a.from@ != b.from@ || a.to@ != b.to@ || a.text@ != b.text@ || a.arrow != b.arrow
        }),
    ensures
        !d.unchanged,
        d.entries@[k].status@ == "changed"@,
{
    let x = l[k]->Sequence_0;
    let y = r[k]->Sequence_0;
    let n = if l.len() >= r.len() { l.len() } else { r.len() };
    assert(entry_ok(d.entries@[k], k, l, r));
    let e = d.entries@[k];
    assert(kind_of(l[k]) == kind_of(r[k]));
    let dd = e.detail->Some_0;
    assert(detail_of(dd, l[k], r[k]));
    let sd = dd->Sequence_0;
    assert(is_sequence_diff(sd, x, y));
    let m = if x.messages@.len() >= y.messages@.len() { x.messages@.len() } else { y.messages@.len() };
    law_modified_messages(x.messages@, y.messages@, m as int, i);
    let c = changed_msgs(x.messages@, y.messages@, m as int);
    assert(c.len() > 0);
    assert(Seq::new(sd.modified_messages@.len(), |q: int| (msg_v(sd.modified_messages@[q].0), msg_v(sd.modified_messages@[q].1))).len() == c.len());
    assert(sd.modified_messages@.len() > 0);
    assert(!detail_same(dd));
    assert(!entry_same(e));
    assert(k < n);
}

/// Sends from a participant to itself.
pub open spec fn to_itself(m: Message) -> bool {
    m.from@ == m.to@
}

proof fn lemma_count_self_filter(ms: Seq<Message>)
    ensures
        count_self(ms) == ms.filter(|x: Message| to_itself(x)).len(),
    decreases ms.len(),
{
    reveal(Seq::filter);
    if ms.len() > 0 {
        lemma_count_self_filter(ms.drop_last());
    }
}

/// The metrics count as self messages exactly the messages whose sender is
/// their receiver: none when every message goes between two participants,
/// all of them when every message goes to its sender.
pub proof fn law_self_messages(m: SequenceMetrics, s: SequenceDiagram)
    requires
        is_sequence_metrics(m, s),
    ensures
        m.self_messages == s.messages@.filter(|x: Message| to_itself(x)).len(),
        (forall|k: int| 0 <= k < s.messages@.len() ==> (#[trigger] s.messages@[k]).from@ != s.messages@[k].to@)
            ==> m.self_messages == 0,
        (forall|k: int| 0 <= k < s.messages@.len() ==> (#[trigger] s.messages@[k]).from@ == s.messages@[k].to@)
            ==> m.self_messages == s.messages@.len(),
{
    let ms = s.messages@;
    let f = |x: Message| to_itself(x);
    lemma_count_self_filter(ms);
    ms.filter_lemma(f);
    if forall|k: int| 0 <= k < ms.len() ==> (#[trigger] ms[k]).from@ != ms[k].to@ {
        if ms.filter(f).len() > 0 {
            let z = ms.filter(f)[0];
            assert(f(z));
            lemma_filter_from(ms, f, z);
        }
    }
    if forall|k: int| 0 <= k < ms.len() ==> (#[trigger] ms[k]).from@ == ms[k].to@ {
        lemma_filter_all(ms, f);
    }
}

proof fn lemma_filter_from(ms: Seq<Message>, f: spec_fn(Message) -> bool, z: Message)
    requires
        ms.filter(f).contains(z),
    ensures
        ms.contains(z),
    decreases ms.len(),
{
    reveal(Seq::filter);
    if ms.len() > 0 {
        let p = ms.drop_last();
        if p.filter(f).contains(z) {
            lemma_filter_from(p, f, z);
            let j = choose|j: int| 0 <= j < p.len() && p[j] == z;
            assert(ms[j] == z);
        } else {
            assert(ms.last() == z);
            assert(ms[ms.len() - 1] == z);
        }
    }
}

proof fn lemma_filter_all(ms: Seq<Message>, f: spec_fn(Message) -> bool)
    requires
        forall|k: int| 0 <= k < ms.len() ==> f(#[trigger] ms[k]),
    ensures
        ms.filter(f).len() == ms.len(),
    decreases ms.len(),
{
    reveal(Seq::filter);
    if ms.len() > 0 {
        let p = ms.drop_last();
        assert forall|k: int| 0 <= k < p.len() implies f(#[trigger] p[k]) by {
            assert(p[k] == ms[k]);
        }
        lemma_filter_all(p, f);
        assert(f(ms[ms.len() - 1]));
    }
}

proof fn lemma_tail_has(l: Seq<Message>, r: Seq<Message>, n: int, i: int)
    requires
        l.len() <= i < n,
        i < r.len(),
    ensures
        tail_msgs(l, r, n).len() > 0,
    decreases n,
{
    if i < n - 1 {
        lemma_tail_has(l, r, n - 1, i);
    }
}

/// Diffing two documents whose sequence diagrams at one index hold different
/// numbers of messages reports that diagram changed and the documents not
/// unchanged.
pub proof fn law_diff_sees_message_count(l: Seq<Diagram>, r: Seq<Diagram>, d: DocumentDiff, k: int)
    requires
        is_document_diff(d, l, r),
        0 <= k < l.len(),
        k < r.len(),
        l[k] is Sequence,
        r[k] is Sequence,
        l[k]->Sequence_0.messages@.len() != r[k]->Sequence_0.messages@.len(),
    ensures
        !d.unchanged,
        d.entries@[k].status@ == "changed"@,
{
    let x = l[k]->Sequence_0;
    let y = r[k]->Sequence_0;
    let n = if l.len() >= r.len() { l.len() } else { r.len() };
    assert(entry_ok(d.entries@[k], k, l, r));
    let e = d.entries@[k];
    assert(kind_of(l[k]) == kind_of(r[k]));
    let dd = e.detail->Some_0;
    assert(detail_of(dd, l[k], r[k]));
    let sd = dd->Sequence_0;
    assert(is_sequence_diff(sd, x, y));
    let a = x.messages@;
    let b = y.messages@;
    let m = if a.len() >= b.len() { a.len() } else { b.len() };
    if a.len() < b.len() {
        lemma_tail_has(a, b, m as int, a.len() as int);
        assert(msgs_v(sd.added_messages@).len() > 0);
        assert(sd.added_messages@.len() > 0);
    } else {
        lemma_tail_has(b, a, m as int, b.len() as int);
        assert(msgs_v(sd.removed_messages@).len() > 0);
        assert(sd.removed_messages@.len() > 0);
    }
    assert(!detail_same(dd));
    assert(!entry_same(e));
    assert(k < n);
}

pub open spec fn solid(m: Message) -> bool {
    m.arrow == MessageArrow::Solid
}

pub open spec fn dashed(m: Message) -> bool {
    m.arrow == MessageArrow::Dashed
}

proof fn lemma_count_solid_filter(ms: Seq<Message>)
    ensures
        count_solid(ms) == ms.filter(|x: Message| solid(x)).len(),
        count_solid(ms) + ms.filter(|x: Message| dashed(x)).len() == ms.len(),
    decreases ms.len(),
{
    reveal(Seq::filter);
    if ms.len() > 0 {
        lemma_count_solid_filter(ms.drop_last());
    }
}

/// The metrics count solid and dashed messages by their arrows: the solid
/// messages are those drawn with a solid arrow, the dashed ones those drawn
/// with a dashed arrow.
pub proof fn law_arrow_counts(m: SequenceMetrics, s: SequenceDiagram)
    requires
        is_sequence_metrics(m, s),
    ensures
        m.solid_messages == s.messages@.filter(|x: Message| solid(x)).len(),
        m.dashed_messages == s.messages@.filter(|x: Message| dashed(x)).len(),
{
    lemma_count_solid_filter(s.messages@);
}

} // verus!
