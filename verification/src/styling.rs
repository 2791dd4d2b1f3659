//! Node styling: the properties that class definitions and inline `style`
//! statements give a flowchart node.

use vstd::prelude::*;
use crate::diagram::{ClassApply, ClassDef, Diagram, NodeStyle};
use crate::text::{
    chars_of, find_char, find_char_slice, first, first_from, lemma_find_char_from, lemma_first_from,
    seqs, split_char, split_char_slice, str_eq, string_of, trim, trim_slice, views,
};

verus! {

/// A property: key and value.
pub type Prop = (Seq<char>, Seq<char>);

/// A `key:value` part: trimmed, split at its first colon, both sides
/// trimmed; a part without a colon gives nothing.
pub open spec fn part_prop(part: Seq<char>) -> Option<Prop> {
    let p = trim(part);
    match find_char(p, ':') {
        Some(i) => Some((trim(p.subrange(0, i)), trim(p.subrange(i + 1, p.len() as int)))),
        None => None,
    }
}

pub open spec fn parts_props(parts: Seq<Seq<char>>) -> Seq<Prop>
    decreases parts.len(),
{
    if parts.len() == 0 {
        Seq::empty()
    } else {
        let prev = parts_props(parts.drop_last());
        match part_prop(parts.last()) {
            Some(kv) => prev.push(kv),
            None => prev,
        }
    }
}

/// The properties of a comma-separated property list, in order.
pub open spec fn properties(s: Seq<char>) -> Seq<Prop> {
    parts_props(split_char(s, ','))
}

/// `acc` with `kv` set: its key's value replaced where the key is there,
/// else the pair added at the end.
pub open spec fn key_is(k: Seq<char>) -> spec_fn(Prop) -> bool {
    |q: Prop| q.0 == k
}

pub open spec fn assign(acc: Seq<Prop>, kv: Prop) -> Seq<Prop> {
    match first(acc, key_is(kv.0)) {
        Some(i) => acc.update(i, kv),
        None => acc.push(kv),
    }
}

/// `acc` with each of `kvs` set in turn (a later value wins).
pub open spec fn assign_all(acc: Seq<Prop>, kvs: Seq<Prop>) -> Seq<Prop>
    decreases kvs.len(),
{
    if kvs.len() == 0 {
        acc
    } else {
        assign(assign_all(acc, kvs.drop_last()), kvs.last())
    }
}

/// The properties of the first class definition named `name`.
pub open spec fn def_props(defs: Seq<ClassDef>, name: Seq<char>) -> Seq<Prop> {
    match first(defs, |cd: ClassDef| cd.name@ == name) {
        Some(i) => properties(defs[i].properties@),
        None => Seq::empty(),
    }
}

/// The class properties of node `id`: for each class statement naming it, in
/// order, the properties of that class's definition.
pub open spec fn class_props(cas: Seq<ClassApply>, defs: Seq<ClassDef>, id: Seq<char>) -> Seq<Prop>
    decreases cas.len(),
{
    if cas.len() == 0 {
        Seq::empty()
    } else {
        let prev = class_props(cas.drop_last(), defs, id);
        if views(cas.last().node_ids@).contains(id) {
            prev + def_props(defs, cas.last().class_name@)
        } else {
            prev
        }
    }
}

/// The properties of the first inline style of node `id`.
pub open spec fn inline_props(styles: Seq<NodeStyle>, id: Seq<char>) -> Seq<Prop> {
    match first(styles, |s: NodeStyle| s.node_id@ == id) {
        Some(i) => properties(styles[i].properties@),
        None => Seq::empty(),
    }
}

/// The style of a node: class properties first, then its inline style, a
/// later value of a key replacing an earlier one; keys in order of first
/// appearance.
pub open spec fn style_of(d: Diagram, id: Seq<char>) -> Seq<Prop> {
    assign_all(Seq::empty(), class_props(d.class_applies@, d.class_defs@, id) + inline_props(d.styles@, id))
}

pub open spec fn props_view(v: Seq<(String, String)>) -> Seq<Prop> {
    Seq::new(v.len(), |i: int| (v[i].0@, v[i].1@))
}

fn part_prop_exec(part: &[char]) -> (r: Option<(String, String)>)
    ensures
        match part_prop(part@) {
            Some(kv) => r matches Some(x) && (x.0@, x.1@) == kv,
            None => r is None,
        },
{
    let p = trim_slice(part);
    match find_char_slice(p, ':') {
        Some(i) => {
            proof {
                lemma_find_char_from(p@, ':', 0);
                assert(i < p@.len());
            }
            let n = p.len();
            let j: usize = i + 1;
            let k = string_of(trim_slice(&p[0..i]));
            let v = string_of(trim_slice(&p[j..n]));
            Some((k, v))
        },
        None => None,
    }
}

/// The properties of a property list (`key:value` parts separated by
/// commas), in order.
#[verifier::rlimit(40)]
pub fn parse_properties(s: &str) -> (r: Vec<(String, String)>)
    ensures
        props_view(r@) == properties(s@),
{
    let cs = chars_of(s);
    let parts = split_char_slice(cs.as_slice(), ',');
    let ghost ps = seqs(parts@);
    let mut r: Vec<(String, String)> = Vec::new();
    let mut i: usize = 0;
    while i < parts.len()
        invariant
            i <= parts@.len(),
            ps == seqs(parts@),
            ps == split_char(s@, ','),
            props_view(r@) == parts_props(ps.take(i as int)),
        decreases parts@.len() - i,
    {
        assert(ps.take(i + 1).drop_last() =~= ps.take(i as int));
        assert(ps.take(i + 1).last() == parts@[i as int]@);
        let ghost before = props_view(r@);
        match part_prop_exec(parts[i].as_slice()) {
            Some(kv) => {
                let ghost x = (kv.0@, kv.1@);
                r.push(kv);
                assert(props_view(r@) =~= before.push(x));
            },
            None => {},
        }
        i = i + 1;
    }
    assert(ps.take(parts@.len() as int) =~= ps);
    r
}

/// Set `k` to `v` in `acc`.
fn assign_exec(acc: &mut Vec<(String, String)>, k: String, v: String)
    ensures
        props_view(final(acc)@) == assign(props_view(old(acc)@), (k@, v@)),
{
    let ghost pv = props_view(acc@);
    let ghost kv = (k@, v@);
    let ghost p = key_is(k@);
    proof {
        lemma_first_from(pv, p, 0);
    }
    let mut i: usize = 0;
    let mut found: bool = false;
    while i < acc.len()
        invariant_except_break
            !found,
        invariant
            i <= acc@.len(),
            pv == props_view(acc@),
            kv == (k@, v@),
            p == key_is(k@),
            !found ==> first(pv, p) == first_from(pv, p, i as int),
        ensures
            found ==> i < acc@.len() && first(pv, p) == Some(i as int),
            !found ==> first(pv, p) is None,
        decreases acc@.len() - i,
    {
        if str_eq(acc[i].0.as_str(), k.as_str()) {
            assert(p(pv[i as int]));
            found = true;
            break;
        }
        assert(!p(pv[i as int]));
        i = i + 1;
    }
    if found {
        acc.set(i, (k, v));
        assert(props_view(acc@) =~= pv.update(i as int, kv));
    } else {
        acc.push((k, v));
        assert(props_view(acc@) =~= pv.push(kv));
    }
}

/// Append `more` to `all`.
fn append_props(all: &mut Vec<(String, String)>, more: Vec<(String, String)>)
    ensures
        props_view(final(all)@) == props_view(old(all)@) + props_view(more@),
{
    let ghost a0 = props_view(all@);
    let mut i: usize = 0;
    while i < more.len()
        invariant
            i <= more@.len(),
            props_view(all@) == a0 + props_view(more@).take(i as int),
        decreases more@.len() - i,
    {
        let ghost before = props_view(all@);
        let k = more[i].0.clone();
        let v = more[i].1.clone();
        all.push((k, v));
        assert(props_view(all@) =~= before.push(props_view(more@)[i as int]));
        assert(props_view(more@).take(i + 1) =~= props_view(more@).take(i as int).push(props_view(more@)[i as int]));
        i = i + 1;
    }
    assert(props_view(more@).take(more@.len() as int) =~= props_view(more@));
}

fn ids_contain(ids: &Vec<String>, id: &str) -> (b: bool)
    ensures
        b == views(ids@).contains(id@),
{
    let mut i: usize = 0;
    while i < ids.len()
        invariant
            i <= ids@.len(),
            forall|j: int| 0 <= j < i ==> ids@[j]@ != id@,
        decreases ids@.len() - i,
    {
        if str_eq(ids[i].as_str(), id) {
            assert(views(ids@)[i as int] == id@);
            return true;
        }
        i = i + 1;
    }
    assert(!views(ids@).contains(id@)) by {
        if views(ids@).contains(id@) {
            let j = choose|j: int| 0 <= j < views(ids@).len() && views(ids@)[j] == id@;
            assert(ids@[j]@ == id@);
        }
    }
    false
}

fn def_parse_properties(defs: &Vec<ClassDef>, name: &str) -> (r: Vec<(String, String)>)
    ensures
        props_view(r@) == def_props(defs@, name@),
{
    let ghost p = |cd: ClassDef| cd.name@ == name@;
    proof {
        lemma_first_from(defs@, p, 0);
    }
    let mut i: usize = 0;
    while i < defs.len()
        invariant
            i <= defs@.len(),
            p == (|cd: ClassDef| cd.name@ == name@),
            first(defs@, p) == first_from(defs@, p, i as int),
        decreases defs@.len() - i,
    {
        if str_eq(defs[i].name.as_str(), name) {
            assert(first(defs@, p) == Some(i as int));
            return parse_properties(defs[i].properties.as_str());
        }
        i = i + 1;
    }
    Vec::new()
}

fn inline_parse_properties(styles: &Vec<NodeStyle>, id: &str) -> (r: Vec<(String, String)>)
    ensures
        props_view(r@) == inline_props(styles@, id@),
{
    let ghost p = |s: NodeStyle| s.node_id@ == id@;
    proof {
        lemma_first_from(styles@, p, 0);
    }
    let mut i: usize = 0;
    while i < styles.len()
        invariant
            i <= styles@.len(),
            p == (|s: NodeStyle| s.node_id@ == id@),
            first(styles@, p) == first_from(styles@, p, i as int),
        decreases styles@.len() - i,
    {
        if str_eq(styles[i].node_id.as_str(), id) {
            assert(first(styles@, p) == Some(i as int));
            return parse_properties(styles[i].properties.as_str());
        }
        i = i + 1;
    }
    Vec::new()
}

impl Diagram {
    /// The style properties of node `id`, as (key, value) pairs: those of the
    /// class definitions its class statements name, in order, then those of
    /// its inline style, which win over them.
    pub fn node_style(&self, id: &str) -> (r: Vec<(String, String)>)
        ensures
            props_view(r@) == style_of(*self, id@),
    {
        let ghost cas = self.class_applies@;
        let mut all: Vec<(String, String)> = Vec::new();
        let mut i: usize = 0;
        while i < self.class_applies.len()
            invariant
                i <= cas.len(),
                cas == self.class_applies@,
                props_view(all@) == class_props(cas.take(i as int), self.class_defs@, id@),
            decreases cas.len() - i,
        {
            assert(cas.take(i + 1).drop_last() =~= cas.take(i as int));
            assert(cas.take(i + 1).last() == cas[i as int]);
            if ids_contain(&self.class_applies[i].node_ids, id) {
                let more = def_parse_properties(&self.class_defs, self.class_applies[i].class_name.as_str());
                append_props(&mut all, more);
            }
            i = i + 1;
        }
        assert(cas.take(cas.len() as int) =~= cas);
        let inl = inline_parse_properties(&self.styles, id);
        append_props(&mut all, inl);
        let ghost kvs = props_view(all@);
        let mut r: Vec<(String, String)> = Vec::new();
        let mut j: usize = 0;
        while j < all.len()
            invariant
                j <= all@.len(),
                kvs == props_view(all@),
                props_view(r@) == assign_all(Seq::empty(), kvs.take(j as int)),
            decreases all@.len() - j,
        {
            assert(kvs.take(j + 1).drop_last() =~= kvs.take(j as int));
            let k = all[j].0.clone();
            let v = all[j].1.clone();
            assign_exec(&mut r, k, v);
            j = j + 1;
        }
        assert(kvs.take(all@.len() as int) =~= kvs);
        r
    }
}

} // verus!
