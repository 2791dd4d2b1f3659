//! Rust sources into diagrams, read off their syntax trees.

use vstd::prelude::*;
use super::{CodeGenError, CodeKind, Language};
use super::syntax::{
    syntax_tree, tree_of_source, bare_graph,
    add_absent, add_item_node, child_by_kind, child_of_kind, field_child, field_child_of, field_text, field_text_of, graph_edges, graph_nodes, or_text,
    or_text_exec, push_item_edge, sort_unique, sort_unique_exec, ItemEdgeV, ItemNodeV, SyntaxNode,
};
use crate::diagram::{Diagram as Flowchart, EdgeStyle, NodeShape};
use crate::ir::{Diagram, Document, CURRENT_VERSION};
use crate::class::{cd_v, Class, ClassDiagram, ClassMember, ClassV, Relation, RelationKind, RelV};
use crate::text::{
    chars_of, find, find_slice, first, first_from, lemma_find_from, lemma_first_from, push_chars, slice_to_vec, str_eq,
    string_from, string_of, trim, trim_slice, views,
};

verus! {

// ---------------------------------------------------------------- classes

pub open spec fn field_members(cs: Seq<SyntaxNode>) -> Seq<Seq<char>>
    decreases cs.len(),
{
    if cs.len() == 0 {
        Seq::empty()
    } else {
        let p = field_members(cs.drop_last());
        let f = cs.last();
        if f.kind@ == "field_declaration"@ {
            p.push("+"@ + or_text(field_text(f, "name"@), "_"@) + ": "@ + or_text(field_text(f, "type"@), "?"@))
        } else {
            p
        }
    }
}

pub open spec fn variant_members(cs: Seq<SyntaxNode>) -> Seq<Seq<char>>
    decreases cs.len(),
{
    if cs.len() == 0 {
        Seq::empty()
    } else {
        let p = variant_members(cs.drop_last());
        let v = cs.last();
        if v.kind@ == "enum_variant"@ { p.push("+"@ + or_text(field_text(v, "name"@), "_"@)) } else { p }
    }
}

pub open spec fn method_text(f: SyntaxNode) -> Seq<char> {
    let name = or_text(field_text(f, "name"@), "_"@);
    let ret = or_text(field_text(f, "return_type"@), Seq::empty());
    if ret.len() == 0 { "+"@ + name + "()"@ } else { "+"@ + name + "() "@ + ret }
}

pub open spec fn method_members(cs: Seq<SyntaxNode>) -> Seq<Seq<char>>
    decreases cs.len(),
{
    if cs.len() == 0 {
        Seq::empty()
    } else {
        let p = method_members(cs.drop_last());
        if cs.last().kind@ == "function_item"@ { p.push(method_text(cs.last())) } else { p }
    }
}

/// The members listed in the child of kind `k`, read by `which`
/// (0: fields, 1: variants, 2: methods).
pub open spec fn body_members(n: SyntaxNode, k: Seq<char>, which: int) -> Seq<Seq<char>> {
    match child_of_kind(n, k) {
        Some(b) => if which == 0 {
            field_members(b.children@)
        } else if which == 1 {
            variant_members(b.children@)
        } else {
            method_members(b.children@)
        },
        None => Seq::empty(),
    }
}

/// The class a top-level item stands for, if any.
pub open spec fn item_class(n: SyntaxNode) -> Option<ClassV> {
    if n.kind@ == "struct_item"@ {
        match field_text(n, "name"@) {
            Some(name) => Some((name, body_members(n, "field_declaration_list"@, 0), Some("struct"@))),
            None => None,
        }
    } else if n.kind@ == "enum_item"@ {
        match field_text(n, "name"@) {
            Some(name) => Some((name, body_members(n, "enum_variant_list"@, 1), Some("enumeration"@))),
            None => None,
        }
    } else if n.kind@ == "trait_item"@ {
        match field_text(n, "name"@) {
            Some(name) => Some((name, body_members(n, "declaration_list"@, 2), Some("interface"@))),
            None => None,
        }
    } else if n.kind@ == "impl_item"@ {
        match field_text(n, "type"@) {
            Some(ty) => Some((
                match field_text(n, "trait"@) {
                    Some(t) => t + " for "@ + ty,
                    None => "impl "@ + ty,
                },
                body_members(n, "declaration_list"@, 2),
                Some("service"@),
            )),
            None => None,
        }
    } else {
        None
    }
}

/// The relation a top-level item stands for: an `impl Trait for Type`
/// realizes the trait.
pub open spec fn item_relation(n: SyntaxNode) -> Option<RelV> {
    if n.kind@ == "impl_item"@ {
        match (field_text(n, "type"@), field_text(n, "trait"@)) {
            (Some(ty), Some(t)) => Some((ty, t, RelationKind::Realization, Seq::empty(), None, None)),
            _ => None,
        }
    } else {
        None
    }
}

pub open spec fn rust_classes(items: Seq<SyntaxNode>) -> Seq<ClassV>
    decreases items.len(),
{
    if items.len() == 0 {
        Seq::empty()
    } else {
        let p = rust_classes(items.drop_last());
        match item_class(items.last()) {
            Some(c) => p.push(c),
            None => p,
        }
    }
}

pub open spec fn rust_relations(items: Seq<SyntaxNode>) -> Seq<RelV>
    decreases items.len(),
{
    if items.len() == 0 {
        Seq::empty()
    } else {
        let p = rust_relations(items.drop_last());
        match item_relation(items.last()) {
            Some(r) => p.push(r),
            None => p,
        }
    }
}

fn push_member(out: &mut Vec<ClassMember>, text: String)
    ensures
        crate::class::members_v(final(out)@) == crate::class::members_v(old(out)@).push(text@),
{
    out.push(ClassMember { text });
    assert(crate::class::members_v(out@) =~= crate::class::members_v(old(out)@).push(text@));
}

fn members_exec(n: &SyntaxNode, k: &str, which: u8) -> (r: Vec<ClassMember>)
    requires
        which <= 2,
    ensures
        crate::class::members_v(r@) == body_members(*n, k@, which as int),
{
    let mut out: Vec<ClassMember> = Vec::new();
    match child_by_kind(n, k) {
        None => {
            assert(crate::class::members_v(out@) =~= Seq::<Seq<char>>::empty());
        },
        Some(b) => {
            let cs = &b.children;
            let mut i: usize = 0;
            assert(cs@.take(0) =~= Seq::<SyntaxNode>::empty());
            assert(crate::class::members_v(out@) =~= Seq::<Seq<char>>::empty());
            while i < cs.len()
                invariant
                    i <= cs@.len(),
                    which <= 2,
                    which == 0 ==> crate::class::members_v(out@) == field_members(cs@.take(i as int)),
                    which == 1 ==> crate::class::members_v(out@) == variant_members(cs@.take(i as int)),
                    which == 2 ==> crate::class::members_v(out@) == method_members(cs@.take(i as int)),
                decreases cs@.len() - i,
            {
                assert(cs@.take(i + 1).drop_last() =~= cs@.take(i as int));
                assert(cs@.take(i + 1).last() == cs@[i as int]);
                let c = &cs[i];
                if which == 0 {
                    if str_eq(c.kind.as_str(), "field_declaration") {
                        let mut t = string_from("+");
                        t.append(or_text_exec(field_text_of(c, "name"), "_").as_str());
                        t.append(": ");
                        t.append(or_text_exec(field_text_of(c, "type"), "?").as_str());
                        push_member(&mut out, t);
                    }
                } else if which == 1 {
                    if str_eq(c.kind.as_str(), "enum_variant") {
                        let mut t = string_from("+");
                        t.append(or_text_exec(field_text_of(c, "name"), "_").as_str());
                        push_member(&mut out, t);
                    }
                } else {
                    if str_eq(c.kind.as_str(), "function_item") {
                        let t = method_text_exec(c);
                        push_member(&mut out, t);
                    }
                }
                i = i + 1;
            }
            assert(cs@.take(cs@.len() as int) =~= cs@);
        },
    }
    out
}

fn method_text_exec(f: &SyntaxNode) -> (r: String)
    ensures
        r@ == method_text(*f),
{
    let name = or_text_exec(field_text_of(f, "name"), "_");
    let ret = or_text_exec(field_text_of(f, "return_type"), "");
    proof {
        reveal_strlit("");
        assert(""@ =~= Seq::<char>::empty());
    }
    let mut t = string_from("+");
    t.append(name.as_str());
    if crate::text::chars_of(ret.as_str()).len() == 0 {
        t.append("()");
    } else {
        t.append("() ");
        t.append(ret.as_str());
    }
    t
}

fn named_class(n: &SyntaxNode, body: &str, which: u8, stereo: &str) -> (r: Option<Class>)
    requires
        which <= 2,
    ensures
        match field_text(*n, "name"@) {
            Some(name) => r matches Some(x) && crate::class::class_v(x) == (name, body_members(*n, body@, which as int), Some(stereo@)),
            None => r is None,
        },
{
    match field_text_of(n, "name") {
        None => None,
        Some(id) => {
            let members = members_exec(n, body, which);
            Some(Class { id, members, stereotype: Some(string_from(stereo)) })
        },
    }
}

fn impl_class(n: &SyntaxNode) -> (r: Option<Class>)
    ensures
        match field_text(*n, "type"@) {
            Some(ty) => r matches Some(x) && crate::class::class_v(x) == (
                match field_text(*n, "trait"@) {
                    Some(t) => t + " for "@ + ty,
                    None => "impl "@ + ty,
                },
                body_members(*n, "declaration_list"@, 2),
                Some("service"@),
            ),
            None => r is None,
        },
{
    match field_text_of(n, "type") {
        None => None,
        Some(ty) => {
            let id = match field_text_of(n, "trait") {
                Some(t) => {
                    let mut s = t;
                    s.append(" for ");
                    s.append(ty.as_str());
                    s
                },
                None => {
                    let mut s = string_from("impl ");
                    s.append(ty.as_str());
                    s
                },
            };
            let members = members_exec(n, "declaration_list", 2);
            Some(Class { id, members, stereotype: Some(string_from("service")) })
        },
    }
}

fn item_class_exec(n: &SyntaxNode) -> (r: Option<Class>)
    ensures
        match item_class(*n) {
            Some(c) => r matches Some(x) && crate::class::class_v(x) == c,
            None => r is None,
        },
{
    if str_eq(n.kind.as_str(), "struct_item") {
        named_class(n, "field_declaration_list", 0, "struct")
    } else if str_eq(n.kind.as_str(), "enum_item") {
        named_class(n, "enum_variant_list", 1, "enumeration")
    } else if str_eq(n.kind.as_str(), "trait_item") {
        named_class(n, "declaration_list", 2, "interface")
    } else if str_eq(n.kind.as_str(), "impl_item") {
        impl_class(n)
    } else {
        None
    }
}

fn item_relation_exec(n: &SyntaxNode) -> (r: Option<Relation>)
    ensures
        match item_relation(*n) {
            Some(v) => r matches Some(x) && crate::class::rel_v(x) == v,
            None => r is None,
        },
{
    if !str_eq(n.kind.as_str(), "impl_item") {
        return None;
    }
    match (field_text_of(n, "type"), field_text_of(n, "trait")) {
        (Some(ty), Some(t)) => {
            proof {
                reveal_strlit("");
                assert(""@ =~= Seq::<char>::empty());
            }
            Some(Relation { from: ty, to: t, kind: RelationKind::Realization, label: string_from(""), from_card: None, to_card: None })
        },
        _ => None,
    }
}

/// The class diagram of a Rust file: a class for each struct (its fields),
/// enum (its variants), trait (its methods) and impl block (its methods),
/// and a realization for each `impl Trait for Type`.
pub fn class_diagram(root: &SyntaxNode) -> (d: ClassDiagram)
    ensures
        cd_v(d).classes == rust_classes(root.children@),
        cd_v(d).relations == rust_relations(root.children@),
        d.notes@.len() == 0,
{
    let items = &root.children;
    let mut classes: Vec<Class> = Vec::new();
    let mut relations: Vec<Relation> = Vec::new();
    let mut i: usize = 0;
    assert(items@.take(0) =~= Seq::<SyntaxNode>::empty());
    assert(crate::class::classes_v(classes@) =~= Seq::<ClassV>::empty());
    while i < items.len()
        invariant
            i <= items@.len(),
            crate::class::classes_v(classes@) == rust_classes(items@.take(i as int)),
            Seq::new(relations@.len(), |k: int| crate::class::rel_v(relations@[k])) == rust_relations(items@.take(i as int)),
        decreases items@.len() - i,
    {
        assert(items@.take(i + 1).drop_last() =~= items@.take(i as int));
        assert(items@.take(i + 1).last() == items@[i as int]);
        let ghost c0 = crate::class::classes_v(classes@);
        let ghost r0 = Seq::new(relations@.len(), |k: int| crate::class::rel_v(relations@[k]));
        match item_class_exec(&items[i]) {
            Some(c) => {
                classes.push(c);
                assert(crate::class::classes_v(classes@) =~= c0.push(crate::class::class_v(c)));
            },
            None => {},
        }
        match item_relation_exec(&items[i]) {
            Some(r) => {
                relations.push(r);
                assert(Seq::new(relations@.len(), |k: int| crate::class::rel_v(relations@[k])) =~= r0.push(crate::class::rel_v(r)));
            },
            None => {},
        }
        i = i + 1;
    }
    assert(items@.take(items@.len() as int) =~= items@);
    let d = ClassDiagram { classes, relations, notes: Vec::new() };
    assert(cd_v(d).classes =~= crate::class::classes_v(d.classes@));
    d
}

// ---------------------------------------------------------------- item tree

/// A top-level item as a tree node: id, label, shape and the label of the
/// edge from the file node.
pub open spec fn tree_item(n: SyntaxNode) -> Option<(Seq<char>, Seq<char>, NodeShape, Seq<char>)> {
    if n.kind@ == "struct_item"@ {
        match field_text(n, "name"@) {
            Some(x) => Some((x, "struct "@ + x, NodeShape::Rect, "struct"@)),
            None => None,
        }
    } else if n.kind@ == "enum_item"@ {
        match field_text(n, "name"@) {
            Some(x) => Some((x, "enum "@ + x, NodeShape::Hexagon, "enum"@)),
            None => None,
        }
    } else if n.kind@ == "trait_item"@ {
        match field_text(n, "name"@) {
            Some(x) => Some((x, "trait "@ + x, NodeShape::Stadium, "trait"@)),
            None => None,
        }
    } else if n.kind@ == "impl_item"@ {
        match field_text(n, "type"@) {
            Some(x) => Some(("impl_"@ + x, "impl "@ + x, NodeShape::Rect, "impl"@)),
            None => None,
        }
    } else if n.kind@ == "function_item"@ {
        match field_text(n, "name"@) {
            Some(x) => Some(("fn_"@ + x, "fn "@ + x, NodeShape::Rect, "fn"@)),
            None => None,
        }
    } else {
        None
    }
}

/// Newlines turned into spaces.
pub open spec fn one_line(s: Seq<char>) -> Seq<char> {
    Seq::new(s.len(), |i: int| if s[i] == '\n' { ' ' } else { s[i] })
}

/// What follows the last `::`.
pub open spec fn last_segment(s: Seq<char>) -> Seq<char>
    decreases s.len(),
{
    match find(s, "::"@) {
        Some(i) => if 0 <= i && i + 2 <= s.len() { last_segment(s.skip(i + 2)) } else { s },
        None => s,
    }
}

/// What precedes the first ` as `.
pub open spec fn before_as(s: Seq<char>) -> Seq<char> {
    match find(s, " as "@) {
        Some(i) => s.take(i),
        None => s,
    }
}

pub open spec fn use_path_kind(k: Seq<char>) -> bool {
    k == "use_list"@ || k == "use_as_clause"@ || k == "use_wildcard"@ || k == "scoped_use_identifier"@
        || k == "scoped_identifier"@ || k == "identifier"@ || k == "alias"@
}

/// The imported path a `use` declaration names: node id and label.
pub open spec fn use_of(n: SyntaxNode) -> Option<(Seq<char>, Seq<char>)> {
    match first(n.children@, |c: SyntaxNode| use_path_kind(c.kind@)) {
        Some(i) => {
            let label = trim(one_line(n.children@[i].text@));
            if label.len() == 0 {
                None
            } else {
                Some(("use::"@ + trim(before_as(last_segment(label))), label))
            }
        },
        None => None,
    }
}

pub open spec fn tree_items(items: Seq<SyntaxNode>) -> Seq<(Seq<char>, Seq<char>, NodeShape, Seq<char>)>
    decreases items.len(),
{
    if items.len() == 0 {
        Seq::empty()
    } else {
        let p = tree_items(items.drop_last());
        match tree_item(items.last()) {
            Some(t) => p.push(t),
            None => p,
        }
    }
}

pub open spec fn tree_uses(items: Seq<SyntaxNode>) -> Seq<(Seq<char>, Seq<char>)>
    decreases items.len(),
{
    if items.len() == 0 {
        Seq::empty()
    } else {
        let p = tree_uses(items.drop_last());
        if items.last().kind@ == "use_declaration"@ {
            match use_of(items.last()) {
                Some(u) => p.push(u),
                None => p,
            }
        } else {
            p
        }
    }
}

/// The item tree of a file: the file node, a node per item (first of each
/// id) and per imported path, and an edge from the file to each.
pub open spec fn item_tree_nodes(items: Seq<SyntaxNode>) -> Seq<ItemNodeV> {
    let ts = tree_items(items);
    let us = tree_uses(items);
    add_absent(
        seq![("__root__"@, "file"@, NodeShape::Stadium)],
        Seq::new(ts.len(), |k: int| (ts[k].0, ts[k].1, ts[k].2)) + Seq::new(us.len(), |k: int| (us[k].0, us[k].1, NodeShape::Circle)),
    )
}

pub open spec fn item_tree_edges(items: Seq<SyntaxNode>) -> Seq<ItemEdgeV> {
    let ts = tree_items(items);
    let us = tree_uses(items);
    Seq::new(ts.len(), |k: int| ("__root__"@, ts[k].0, ts[k].3, EdgeStyle::Arrow))
        + Seq::new(us.len(), |k: int| ("__root__"@, us[k].0, "use"@, EdgeStyle::Dashed))
}

fn tree_item_exec(n: &SyntaxNode) -> (r: Option<(String, String, NodeShape, &'static str)>)
    ensures
        match tree_item(*n) {
            Some(t) => r matches Some(x) && x.0@ == t.0 && x.1@ == t.1 && x.2 == t.2 && x.3@ == t.3,
            None => r is None,
        },
{
    let (key, prefix, label, shape, edge): (&str, &str, &str, NodeShape, &'static str) = if str_eq(n.kind.as_str(), "struct_item") {
        ("name", "", "struct ", NodeShape::Rect, "struct")
    } else if str_eq(n.kind.as_str(), "enum_item") {
        ("name", "", "enum ", NodeShape::Hexagon, "enum")
    } else if str_eq(n.kind.as_str(), "trait_item") {
        ("name", "", "trait ", NodeShape::Stadium, "trait")
    } else if str_eq(n.kind.as_str(), "impl_item") {
        ("type", "impl_", "impl ", NodeShape::Rect, "impl")
    } else if str_eq(n.kind.as_str(), "function_item") {
        ("name", "fn_", "fn ", NodeShape::Rect, "fn")
    } else {
        return None;
    };
    proof {
        reveal_strlit("");
        assert(""@ =~= Seq::<char>::empty());
    }
    match field_text_of(n, key) {
        None => None,
        Some(x) => {
            let mut id = string_from(prefix);
            id.append(x.as_str());
            let mut l = string_from(label);
            l.append(x.as_str());
            proof {
                if prefix@ == ""@ {
                    assert(id@ =~= x@);
                }
            }
            Some((id, l, shape, edge))
        },
    }
}

fn one_line_exec(s: &str) -> (r: Vec<char>)
    ensures
        r@ == one_line(s@),
{
    let cs = chars_of(s);
    let mut out: Vec<char> = Vec::new();
    let mut i: usize = 0;
    while i < cs.len()
        invariant
            i <= cs@.len(),
            cs@ == s@,
            out@ == Seq::new(i as nat, |k: int| if cs@[k] == '\n' { ' ' } else { cs@[k] }),
        decreases cs@.len() - i,
    {
        out.push(if cs[i] == '\n' { ' ' } else { cs[i] });
        assert(out@ =~= Seq::new((i + 1) as nat, |k: int| if cs@[k] == '\n' { ' ' } else { cs@[k] }));
        i = i + 1;
    }
    out
}

fn last_segment_exec(s: Vec<char>) -> (r: Vec<char>)
    ensures
        r@ == last_segment(s@),
    decreases s@.len(),
{
    let sep = chars_of("::");
    proof {
        reveal_strlit("::");
    }
    match find_slice(s.as_slice(), sep.as_slice()) {
        Some(i) => {
            proof {
                lemma_find_from(s@, "::"@, 0);
            }
            if s.len() >= 2 && i <= s.len() - 2 {
                let n = s.len();
                let rest = slice_to_vec(&s.as_slice()[i + 2..n]);
                assert(rest@ =~= s@.skip(i + 2));
                last_segment_exec(rest)
            } else {
                s
            }
        },
        None => s,
    }
}

fn use_of_exec(n: &SyntaxNode) -> (r: Option<(String, String)>)
    ensures
        match use_of(*n) {
            Some(u) => r matches Some(x) && x.0@ == u.0 && x.1@ == u.1,
            None => r is None,
        },
{
    let ghost p = |c: SyntaxNode| use_path_kind(c.kind@);
    proof {
        lemma_first_from(n.children@, p, 0);
    }
    let mut i: usize = 0;
    while i < n.children.len()
        invariant
            i <= n.children@.len(),
            p == (|c: SyntaxNode| use_path_kind(c.kind@)),
            first(n.children@, p) == first_from(n.children@, p, i as int),
        decreases n.children@.len() - i,
    {
        let k = n.children[i].kind.as_str();
        if str_eq(k, "use_list") || str_eq(k, "use_as_clause") || str_eq(k, "use_wildcard")
            || str_eq(k, "scoped_use_identifier") || str_eq(k, "scoped_identifier") || str_eq(k, "identifier")
            || str_eq(k, "alias") {
            let flat = one_line_exec(n.children[i].text.as_str());
            let label = trim_slice(flat.as_slice());
            if label.len() == 0 {
                return None;
            }
            let seg = last_segment_exec(slice_to_vec(label));
            let sep = chars_of(" as ");
            proof {
                reveal_strlit(" as ");
                lemma_find_from(seg@, " as "@, 0);
            }
            let head: Vec<char> = match find_slice(seg.as_slice(), sep.as_slice()) {
                Some(j) => slice_to_vec(&seg.as_slice()[0..j]),
                None => seg,
            };
            proof {
                assert(head@ == before_as(last_segment(label@)));
            }
            let mut id = string_from("use::");
            push_chars(&mut id, trim_slice(head.as_slice()));
            return Some((id, string_of(label)));
        }
        i = i + 1;
    }
    None
}

pub(crate) proof fn lemma_add_absent_push(acc: Seq<ItemNodeV>, xs: Seq<ItemNodeV>, y: ItemNodeV)
    ensures
        add_absent(add_absent(acc, xs), seq![y]) == add_absent(acc, xs.push(y)),
{
    reveal_with_fuel(add_absent, 2);
    assert(xs.push(y).drop_last() =~= xs);
    assert(seq![y].drop_last() =~= Seq::<ItemNodeV>::empty());
}

/// The item tree of a Rust file as a flowchart.
pub fn item_tree(root: &SyntaxNode) -> (d: Flowchart)
    ensures
        bare_graph(d),
        graph_nodes(d) == item_tree_nodes(root.children@),
        graph_edges(d) == item_tree_edges(root.children@),
        d.rankdir@ == "TD"@,
{
    let items = &root.children;
    let mut ts: Vec<(String, String, NodeShape, &'static str)> = Vec::new();
    let mut us: Vec<(String, String)> = Vec::new();
    let mut i: usize = 0;
    assert(items@.take(0) =~= Seq::<SyntaxNode>::empty());
    while i < items.len()
        invariant
            i <= items@.len(),
            ts@.len() == tree_items(items@.take(i as int)).len(),
            forall|k: int| 0 <= k < ts@.len() ==> {
                let t = #[trigger] tree_items(items@.take(i as int))[k];
                ts@[k].0@ == t.0 && ts@[k].1@ == t.1 && ts@[k].2 == t.2 && ts@[k].3@ == t.3
            },
            us@.len() == tree_uses(items@.take(i as int)).len(),
            forall|k: int| 0 <= k < us@.len() ==> {
                let u = #[trigger] tree_uses(items@.take(i as int))[k];
                us@[k].0@ == u.0 && us@[k].1@ == u.1
            },
        decreases items@.len() - i,
    {
        assert(items@.take(i + 1).drop_last() =~= items@.take(i as int));
        assert(items@.take(i + 1).last() == items@[i as int]);
        let c = &items[i];
        match tree_item_exec(c) {
            Some(t) => ts.push(t),
            None => {},
        }
        if str_eq(c.kind.as_str(), "use_declaration") {
            match use_of_exec(c) {
                Some(u) => us.push(u),
                None => {},
            }
        }
        i = i + 1;
    }
    assert(items@.take(items@.len() as int) =~= items@);
    let ghost tv = tree_items(items@);
    let ghost uv = tree_uses(items@);
    let ghost more = Seq::new(tv.len(), |k: int| (tv[k].0, tv[k].1, tv[k].2)) + Seq::new(uv.len(), |k: int| (uv[k].0, uv[k].1, NodeShape::Circle));
    let ghost root_v = seq![("__root__"@, "file"@, NodeShape::Stadium)];
    let mut d = Flowchart::new("TD");
    assert(graph_nodes(d) =~= Seq::<ItemNodeV>::empty());
    assert(graph_edges(d) =~= Seq::<ItemEdgeV>::empty());
    add_item_node(&mut d, string_from("__root__"), string_from("file"), NodeShape::Stadium);
    proof {
        reveal_with_fuel(add_absent, 2);
        assert(root_v.drop_last() =~= Seq::<ItemNodeV>::empty());
        assert(add_absent(Seq::<ItemNodeV>::empty(), root_v) =~= root_v);
        assert(more.take(0) =~= Seq::<ItemNodeV>::empty());
    }
    let nt = ts.len();
    let mut k: usize = 0;
    while k < nt
        invariant
            bare_graph(d),
            k <= nt,
            nt == ts@.len(),
            nt == tv.len(),
            more == Seq::new(tv.len(), |q: int| (tv[q].0, tv[q].1, tv[q].2)) + Seq::new(uv.len(), |q: int| (uv[q].0, uv[q].1, NodeShape::Circle)),
            forall|q: int| 0 <= q < ts@.len() ==> {
                let t = #[trigger] tv[q];
                ts@[q].0@ == t.0 && ts@[q].1@ == t.1 && ts@[q].2 == t.2 && ts@[q].3@ == t.3
            },
            graph_nodes(d) == add_absent(root_v, more.take(k as int)),
            graph_edges(d) =~= Seq::<ItemEdgeV>::empty(),
            d.rankdir@ == "TD"@,
        decreases nt - k,
    {
        let ghost v = more[k as int];
        assert(tv[k as int] == tv[k as int]);
        add_item_node(&mut d, ts[k].0.clone(), ts[k].1.clone(), ts[k].2);
        proof {
            lemma_add_absent_push(root_v, more.take(k as int), v);
            assert(more.take(k + 1) =~= more.take(k as int).push(v));
        }
        k = k + 1;
    }
    let nu = us.len();
    k = 0;
    while k < nu
        invariant
            bare_graph(d),
            k <= nu,
            nu == us@.len(),
            nu == uv.len(),
            nt == tv.len(),
            more == Seq::new(tv.len(), |q: int| (tv[q].0, tv[q].1, tv[q].2)) + Seq::new(uv.len(), |q: int| (uv[q].0, uv[q].1, NodeShape::Circle)),
            forall|q: int| 0 <= q < us@.len() ==> {
                let u = #[trigger] uv[q];
                us@[q].0@ == u.0 && us@[q].1@ == u.1
            },
            graph_nodes(d) == add_absent(root_v, more.take(nt + k)),
            graph_edges(d) =~= Seq::<ItemEdgeV>::empty(),
            d.rankdir@ == "TD"@,
        decreases nu - k,
    {
        let ghost v = more[nt + k];
        assert(uv[k as int] == uv[k as int]);
        add_item_node(&mut d, us[k].0.clone(), us[k].1.clone(), NodeShape::Circle);
        proof {
            lemma_add_absent_push(root_v, more.take(nt + k), v);
            assert(more.take(nt + k + 1) =~= more.take(nt + k).push(v));
        }
        k = k + 1;
    }
    assert(more.take(nt + nu) =~= more);
    let ghost ev = Seq::new(tv.len(), |q: int| ("__root__"@, tv[q].0, tv[q].3, EdgeStyle::Arrow))
        + Seq::new(uv.len(), |q: int| ("__root__"@, uv[q].0, "use"@, EdgeStyle::Dashed));
    k = 0;
    while k < nt
        invariant
            bare_graph(d),
            k <= nt,
            nt == ts@.len(),
            nt == tv.len(),
            nu == uv.len(),
            ev == Seq::new(tv.len(), |q: int| ("__root__"@, tv[q].0, tv[q].3, EdgeStyle::Arrow))
                + Seq::new(uv.len(), |q: int| ("__root__"@, uv[q].0, "use"@, EdgeStyle::Dashed)),
            forall|q: int| 0 <= q < ts@.len() ==> {
                let t = #[trigger] tv[q];
                ts@[q].0@ == t.0 && ts@[q].1@ == t.1 && ts@[q].2 == t.2 && ts@[q].3@ == t.3
            },
            graph_nodes(d) == item_tree_nodes(items@),
            graph_edges(d) == ev.take(k as int),
            d.rankdir@ == "TD"@,
        decreases nt - k,
    {
        assert(tv[k as int] == tv[k as int]);
        push_item_edge(&mut d, string_from("__root__"), ts[k].0.clone(), string_from(ts[k].3), EdgeStyle::Arrow);
        assert(ev.take(k + 1) =~= ev.take(k as int).push(ev[k as int]));
        k = k + 1;
    }
    k = 0;
    while k < nu
        invariant
            bare_graph(d),
            k <= nu,
            nu == us@.len(),
            nu == uv.len(),
            nt == tv.len(),
            ev == Seq::new(tv.len(), |q: int| ("__root__"@, tv[q].0, tv[q].3, EdgeStyle::Arrow))
                + Seq::new(uv.len(), |q: int| ("__root__"@, uv[q].0, "use"@, EdgeStyle::Dashed)),
            forall|q: int| 0 <= q < us@.len() ==> {
                let u = #[trigger] uv[q];
                us@[q].0@ == u.0 && us@[q].1@ == u.1
            },
            graph_nodes(d) == item_tree_nodes(items@),
            graph_edges(d) == ev.take(nt + k),
            d.rankdir@ == "TD"@,
        decreases nu - k,
    {
        assert(uv[k as int] == uv[k as int]);
        push_item_edge(&mut d, string_from("__root__"), us[k].0.clone(), string_from("use"), EdgeStyle::Dashed);
        assert(ev.take(nt + k + 1) =~= ev.take(nt + k).push(ev[nt + k]));
        k = k + 1;
    }
    assert(ev.take(nt + nu) =~= ev);
    d
}

// ---------------------------------------------------------------- calls

/// The function a call expression names: a plain name, or the method of a
/// field access.
pub open spec fn callee(n: SyntaxNode) -> Option<Seq<char>> {
    if n.kind@ == "call_expression"@ {
        match field_child(n, "function"@) {
            Some(f) => if f.kind@ == "identifier"@ {
                Some(f.text@)
            } else if f.kind@ == "field_expression"@ {
                field_text(f, "field"@)
            } else {
                None
            },
            None => None,
        }
    } else {
        None
    }
}

/// The callees named in a subtree, node before children.
pub open spec fn calls_in(n: SyntaxNode) -> Seq<Seq<char>>
    decreases n, 1nat,
{
    (match callee(n) {
        Some(c) => seq![c],
        None => Seq::empty(),
    }) + calls_list(n.children@)
}

pub open spec fn calls_list(cs: Seq<SyntaxNode>) -> Seq<Seq<char>>
    decreases cs, 0nat,
{
    if cs.len() == 0 {
        Seq::empty()
    } else {
        calls_list(cs.drop_last()) + calls_in(cs.last())
    }
}

fn callee_exec(n: &SyntaxNode) -> (r: Option<String>)
    ensures
        match callee(*n) {
            Some(c) => r matches Some(x) && x@ == c,
            None => r is None,
        },
{
    if !str_eq(n.kind.as_str(), "call_expression") {
        return None;
    }
    match field_child_of(n, "function") {
        Some(f) => if str_eq(f.kind.as_str(), "identifier") {
            Some(f.text.clone())
        } else if str_eq(f.kind.as_str(), "field_expression") {
            field_text_of(f, "field")
        } else {
            None
        },
        None => None,
    }
}

fn collect_calls(n: &SyntaxNode, out: &mut Vec<String>)
    ensures
        views(final(out)@) == views(old(out)@) + calls_in(*n),
    decreases n,
{
    let ghost o0 = views(out@);
    match callee_exec(n) {
        Some(c) => {
            out.push(c);
        },
        None => {},
    }
    let ghost o1 = views(out@);
    assert(o1 == o0 + match callee(*n) {
        Some(c) => seq![c],
        None => Seq::<Seq<char>>::empty(),
    });
    let cs = &n.children;
    let mut i: usize = 0;
    assert(cs@.take(0) =~= Seq::<SyntaxNode>::empty());
    while i < cs.len()
        invariant
            i <= cs@.len(),
            cs == &n.children,
            views(out@) == o1 + calls_list(cs@.take(i as int)),
        decreases cs@.len() - i,
    {
        assert(cs@.take(i + 1).drop_last() =~= cs@.take(i as int));
        assert(cs@.take(i + 1).last() == cs@[i as int]);
        proof {
            assert(decreases_to!(*n => n.children));
            assert(decreases_to!(n.children => n.children@[i as int]));
        }
        collect_calls(&cs[i], out);
        i = i + 1;
    }
    assert(cs@.take(cs@.len() as int) =~= cs@);
}

/// The name of a top-level function, if it is one.
pub open spec fn fn_name(n: SyntaxNode) -> Option<Seq<char>> {
    if n.kind@ == "function_item"@ { field_text(n, "name"@) } else { None }
}

pub open spec fn fn_names(items: Seq<SyntaxNode>) -> Seq<Seq<char>>
    decreases items.len(),
{
    if items.len() == 0 {
        Seq::empty()
    } else {
        let p = fn_names(items.drop_last());
        match fn_name(items.last()) {
            Some(x) => p.push(x),
            None => p,
        }
    }
}

/// The nodes a function's calls add for callees defined elsewhere.
pub open spec fn foreign_callees(n: SyntaxNode, names: Seq<Seq<char>>) -> Seq<ItemNodeV> {
    let cs = sort_unique(calls_in(n));
    let ext = cs.filter(|c: Seq<char>| !names.contains(c));
    Seq::new(ext.len(), |k: int| ("fn::"@ + ext[k], ext[k], NodeShape::Circle))
}

/// The edges of a function's calls.
pub open spec fn call_edges(n: SyntaxNode, name: Seq<char>) -> Seq<ItemEdgeV> {
    let cs = sort_unique(calls_in(n));
    Seq::new(cs.len(), |k: int| ("fn::"@ + name, "fn::"@ + cs[k], Seq::empty(), EdgeStyle::Arrow))
}

pub open spec fn call_nodes_of(items: Seq<SyntaxNode>, names: Seq<Seq<char>>) -> Seq<ItemNodeV>
    decreases items.len(),
{
    if items.len() == 0 {
        Seq::empty()
    } else {
        call_nodes_of(items.drop_last(), names) + match fn_name(items.last()) {
            Some(x) => foreign_callees(items.last(), names),
            None => Seq::empty(),
        }
    }
}

pub open spec fn call_edges_of(items: Seq<SyntaxNode>) -> Seq<ItemEdgeV>
    decreases items.len(),
{
    if items.len() == 0 {
        Seq::empty()
    } else {
        call_edges_of(items.drop_last()) + match fn_name(items.last()) {
            Some(x) => call_edges(items.last(), x),
            None => Seq::empty(),
        }
    }
}

/// The call graph of a file: a node per function, one per callee defined
/// elsewhere, and an edge per distinct callee of each function.
pub open spec fn call_graph_nodes(items: Seq<SyntaxNode>) -> Seq<ItemNodeV> {
    let names = fn_names(items);
    add_absent(
        Seq::empty(),
        Seq::new(names.len(), |k: int| ("fn::"@ + names[k], names[k], NodeShape::Rect)) + call_nodes_of(items, names),
    )
}

fn fn_name_exec(n: &SyntaxNode) -> (r: Option<String>)
    ensures
        match fn_name(*n) {
            Some(x) => r matches Some(s) && s@ == x,
            None => r is None,
        },
{
    if str_eq(n.kind.as_str(), "function_item") {
        field_text_of(n, "name")
    } else {
        None
    }
}

/// The nodes for callees defined elsewhere among the first `q` callees.
pub open spec fn foreign_prefix(cs: Seq<Seq<char>>, names: Seq<Seq<char>>, q: int) -> Seq<ItemNodeV> {
    let ext = cs.take(q).filter(|c: Seq<char>| !names.contains(c));
    Seq::new(ext.len(), |k: int| ("fn::"@ + ext[k], ext[k], NodeShape::Circle))
}

/// A function's calls as nodes and edges added to `d`.
fn add_calls(
    d: &mut Flowchart,
    item: &SyntaxNode,
    name: &String,
    names: &Vec<String>,
    Ghost(base): Ghost<Seq<ItemNodeV>>,
)
    requires
        graph_nodes(*old(d)) == add_absent(Seq::empty(), base),
        bare_graph(*old(d)),
    ensures
        bare_graph(*final(d)),
        graph_nodes(*final(d)) == add_absent(Seq::empty(), base + foreign_callees(*item, views(names@))),
        graph_edges(*final(d)) == graph_edges(*old(d)) + call_edges(*item, name@),
        final(d).rankdir == old(d).rankdir,
{
    let mut found: Vec<String> = Vec::new();
    collect_calls(item, &mut found);
    assert(views(found@) =~= calls_in(*item));
    let cs = sort_unique_exec(&found);
    let ghost cv = views(cs@);
    let ghost nv = views(names@);
    let ghost pred = |c: Seq<char>| !nv.contains(c);
    let ghost e0 = graph_edges(*d);
    let mut q: usize = 0;
    assert(cv.take(0) =~= Seq::<Seq<char>>::empty());
    assert(cv.take(0).filter(pred) =~= Seq::<Seq<char>>::empty()) by {
        crate::text::lemma_filter_empty(cv.take(0), pred);
    }
    assert(base + foreign_prefix(cv, nv, 0) =~= base);
    while q < cs.len()
        invariant
            bare_graph(*d),
            q <= cs@.len(),
            cv == views(cs@),
            nv == views(names@),
            pred == (|c: Seq<char>| !nv.contains(c)),
            cv == sort_unique(calls_in(*item)),
            graph_nodes(*d) == add_absent(Seq::empty(), base + foreign_prefix(cv, nv, q as int)),
            graph_edges(*d) == e0 + Seq::new(q as nat, |k: int| ("fn::"@ + name@, "fn::"@ + cv[k], Seq::<char>::empty(), EdgeStyle::Arrow)),
            d.rankdir == old(d).rankdir,
        decreases cs@.len() - q,
    {
        let c = &cs[q];
        assert(cv[q as int] == c@);
        proof {
            crate::text::lemma_filter_step(cv, pred, q as int);
        }
        let ghost fp = foreign_prefix(cv, nv, q as int);
        if !crate::graph_ops::contains_str(names, c.as_str()) {
            let mut id = string_from("fn::");
            id.append(c.as_str());
            let ghost v = (id@, c@, NodeShape::Circle);
            add_item_node(d, id, c.clone(), NodeShape::Circle);
            proof {
                lemma_add_absent_push(Seq::empty(), base + fp, v);
                assert(foreign_prefix(cv, nv, q + 1) =~= fp.push(v));
                assert(base + foreign_prefix(cv, nv, q + 1) =~= (base + fp).push(v));
            }
        } else {
            assert(foreign_prefix(cv, nv, q + 1) =~= fp);
        }
        let ghost e1 = graph_edges(*d);
        let mut from = string_from("fn::");
        from.append(name.as_str());
        let mut to = string_from("fn::");
        to.append(c.as_str());
        let lbl = String::new();
        assert(lbl@ =~= Seq::<char>::empty());
        push_item_edge(d, from, to, lbl, EdgeStyle::Arrow);
        assert(graph_edges(*d) =~= e0 + Seq::new((q + 1) as nat, |k: int| ("fn::"@ + name@, "fn::"@ + cv[k], Seq::<char>::empty(), EdgeStyle::Arrow)));
        q = q + 1;
    }
    assert(cv.take(cv.len() as int) =~= cv);
    assert(foreign_prefix(cv, nv, cv.len() as int) =~= foreign_callees(*item, nv));
    assert(Seq::new(cv.len(), |k: int| ("fn::"@ + name@, "fn::"@ + cv[k], Seq::<char>::empty(), EdgeStyle::Arrow)) =~= call_edges(*item, name@));
}

/// The call graph of a Rust file as a flowchart.
pub fn call_graph(root: &SyntaxNode) -> (d: Flowchart)
    ensures
        bare_graph(d),
        graph_nodes(d) == call_graph_nodes(root.children@),
        graph_edges(d) == call_edges_of(root.children@),
        d.rankdir@ == "LR"@,
{
    let items = &root.children;
    let mut names: Vec<String> = Vec::new();
    let mut i: usize = 0;
    assert(items@.take(0) =~= Seq::<SyntaxNode>::empty());
    while i < items.len()
        invariant
            i <= items@.len(),
            views(names@) == fn_names(items@.take(i as int)),
        decreases items@.len() - i,
    {
        assert(items@.take(i + 1).drop_last() =~= items@.take(i as int));
        assert(items@.take(i + 1).last() == items@[i as int]);
        match fn_name_exec(&items[i]) {
            Some(x) => {
                let ghost before = views(names@);
                names.push(x);
                assert(views(names@) =~= before.push(names@[names@.len() - 1]@));
            },
            None => {},
        }
        i = i + 1;
    }
    assert(items@.take(items@.len() as int) =~= items@);
    let ghost nv = views(names@);
    let ghost fnv = Seq::new(nv.len(), |k: int| ("fn::"@ + nv[k], nv[k], NodeShape::Rect));
    let mut d = Flowchart::new("LR");
    assert(graph_nodes(d) =~= Seq::<ItemNodeV>::empty());
    assert(graph_edges(d) =~= Seq::<ItemEdgeV>::empty());
    proof {
        assert(fnv.take(0) =~= Seq::<ItemNodeV>::empty());
    }
    let mut k: usize = 0;
    while k < names.len()
        invariant
            bare_graph(d),
            k <= names@.len(),
            nv == views(names@),
            fnv == Seq::new(nv.len(), |q: int| ("fn::"@ + nv[q], nv[q], NodeShape::Rect)),
            graph_nodes(d) == add_absent(Seq::empty(), fnv.take(k as int)),
            graph_edges(d) =~= Seq::<ItemEdgeV>::empty(),
            d.rankdir@ == "LR"@,
        decreases names@.len() - k,
    {
        let mut id = string_from("fn::");
        id.append(names[k].as_str());
        assert(nv[k as int] == names@[k as int]@);
        let ghost v = fnv[k as int];
        add_item_node(&mut d, id, names[k].clone(), NodeShape::Rect);
        proof {
            lemma_add_absent_push(Seq::empty(), fnv.take(k as int), v);
            assert(fnv.take(k + 1) =~= fnv.take(k as int).push(v));
        }
        k = k + 1;
    }
    assert(fnv.take(names@.len() as int) =~= fnv);
    i = 0;
    assert(fnv + call_nodes_of(items@.take(0), nv) =~= fnv);
    assert(call_edges_of(items@.take(0)) =~= Seq::<ItemEdgeV>::empty());
    while i < items.len()
        invariant
            bare_graph(d),
            i <= items@.len(),
            nv == views(names@),
            nv == fn_names(items@),
            graph_nodes(d) == add_absent(Seq::empty(), fnv + call_nodes_of(items@.take(i as int), nv)),
            graph_edges(d) == call_edges_of(items@.take(i as int)),
            d.rankdir@ == "LR"@,
        decreases items@.len() - i,
    {
        assert(items@.take(i + 1).drop_last() =~= items@.take(i as int));
        assert(items@.take(i + 1).last() == items@[i as int]);
        let ghost base = fnv + call_nodes_of(items@.take(i as int), nv);
        match fn_name_exec(&items[i]) {
            Some(x) => {
                add_calls(&mut d, &items[i], &x, &names, Ghost(base));
                assert(fnv + call_nodes_of(items@.take(i + 1), nv) =~= base + foreign_callees(items@[i as int], nv));
            },
            None => {
                assert(fnv + call_nodes_of(items@.take(i + 1), nv) =~= base);
                assert(call_edges_of(items@.take(i + 1)) =~= call_edges_of(items@.take(i as int)));
            },
        }
        i = i + 1;
    }
    assert(items@.take(items@.len() as int) =~= items@);
    d
}

// ---------------------------------------------------------------- entry

/// The diagram of a Rust syntax tree of the given kind.
pub open spec fn rust_diagram_ok(d: Document, root: SyntaxNode, kind: CodeKind) -> bool {
    &&& d.version == CURRENT_VERSION
    &&& d.diagrams@.len() == 1
    &&& match (kind, d.diagrams@[0]) {
        (CodeKind::Class, Diagram::Class(c)) => cd_v(c).classes == rust_classes(root.children@)
            && cd_v(c).relations == rust_relations(root.children@) && c.notes@.len() == 0,
        (CodeKind::Tree, Diagram::Flowchart(f)) => graph_nodes(f) == item_tree_nodes(root.children@)
            && graph_edges(f) == item_tree_edges(root.children@) && f.rankdir@ == "TD"@ && bare_graph(f),
        (CodeKind::Call, Diagram::Flowchart(f)) => graph_nodes(f) == call_graph_nodes(root.children@)
            && graph_edges(f) == call_edges_of(root.children@) && f.rankdir@ == "LR"@ && bare_graph(f),
        _ => false,
    }
}

/// `d` is the diagram read off the syntax tree that the Rust grammar
/// parses from `source`.
pub open spec fn read_off_source(d: Document, source: Seq<char>, kind: CodeKind) -> bool {
    exists|t: SyntaxNode| #[trigger] rust_diagram_ok(d, t, kind) && tree_of_source(t, Language::Rust, source)
}

/// The diagram of a Rust syntax tree: its classes, its item tree or its call
/// graph.
pub fn extract_from(root: &SyntaxNode, kind: CodeKind) -> (d: Document)
    ensures
        rust_diagram_ok(d, *root, kind),
{
    match kind {
        CodeKind::Class => Document::single(Diagram::Class(class_diagram(root))),
        CodeKind::Tree => Document::single(Diagram::Flowchart(item_tree(root))),
        CodeKind::Call => Document::single(Diagram::Flowchart(call_graph(root))),
    }
}

/// The diagram of Rust source: tree-sitter parses it, and the diagram is
/// read off the tree as `extract_from` says.
pub fn extract(source: &str, kind: CodeKind) -> (r: Result<Document, CodeGenError>)
    ensures
        r matches Ok(d) && read_off_source(d, source@, kind),
{
    match syntax_tree(source, Language::Rust) {
        Ok(t) => {
            let d = extract_from(&t, kind);
            assert(rust_diagram_ok(d, t, kind));
            assert(read_off_source(d, source@, kind));
            Ok(d)
        },
        Err(e) => Err(e),
    }
}

} // verus!
