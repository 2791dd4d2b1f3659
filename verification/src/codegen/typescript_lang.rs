//! TypeScript sources into diagrams, read off their syntax trees.

use vstd::prelude::*;
use super::{CodeGenError, CodeKind, Language};
use super::rust_lang::lemma_add_absent_push;
use super::syntax::{
    sort_unique_exec,
    add_absent, add_item_node, child_by_kind, child_of_kind, field_child, field_child_of, field_text, field_text_of,
    graph_edges, graph_nodes, or_text, or_text_exec, push_item_edge, sort_unique, syntax_tree, tree_of_source, bare_graph, ItemEdgeV, ItemNodeV,
    SyntaxNode,
};
use crate::class::{cd_v, class_v, classes_v, members_v, rel_v, Class, ClassDiagram, ClassMember, ClassV, Relation, RelationKind, RelV};
use crate::diagram::{Diagram as Flowchart, EdgeStyle, NodeShape};
use crate::ir::{Diagram, Document, CURRENT_VERSION};
use crate::text::{chars_of, first, first_from, lemma_first_from, str_eq, string_from, trim, trim_slice, views};

verus! {

// ---------------------------------------------------------------- top level

pub open spec fn exportable(k: Seq<char>) -> bool {
    k == "class_declaration"@ || k == "interface_declaration"@ || k == "enum_declaration"@
        || k == "function_declaration"@ || k == "lexical_declaration"@ || k == "variable_statement"@
        || k == "type_alias_declaration"@
}

/// The declarations an `export` statement holds.
pub open spec fn exported(cs: Seq<SyntaxNode>) -> Seq<SyntaxNode>
    decreases cs.len(),
{
    if cs.len() == 0 {
        Seq::empty()
    } else {
        let p = exported(cs.drop_last());
        if exportable(cs.last().kind@) { p.push(cs.last()) } else { p }
    }
}

/// The top-level declarations of a file, `export` statements unwrapped.
pub open spec fn top_level(cs: Seq<SyntaxNode>) -> Seq<SyntaxNode>
    decreases cs.len(),
{
    if cs.len() == 0 {
        Seq::empty()
    } else {
        let p = top_level(cs.drop_last());
        if cs.last().kind@ == "export_statement"@ { p + exported(cs.last().children@) } else { p.push(cs.last()) }
    }
}

pub open spec fn derefs(v: Seq<&SyntaxNode>) -> Seq<SyntaxNode> {
    Seq::new(v.len(), |k: int| *v[k])
}

pub fn top_level_exec(root: &SyntaxNode) -> (r: Vec<&SyntaxNode>)
    ensures
        derefs(r@) == top_level(root.children@),
{
    let cs = &root.children;
    let mut r: Vec<&SyntaxNode> = Vec::new();
    let mut i: usize = 0;
    assert(cs@.take(0) =~= Seq::<SyntaxNode>::empty());
    assert(derefs(r@) =~= Seq::<SyntaxNode>::empty());
    while i < cs.len()
        invariant
            i <= cs@.len(),
            cs == &root.children,
            derefs(r@) == top_level(cs@.take(i as int)),
        decreases cs@.len() - i,
    {
        assert(cs@.take(i + 1).drop_last() =~= cs@.take(i as int));
        assert(cs@.take(i + 1).last() == cs@[i as int]);
        let c = &cs[i];
        let ghost r0 = derefs(r@);
        if str_eq(c.kind.as_str(), "export_statement") {
            let ks = &c.children;
            let mut j: usize = 0;
            assert(ks@.take(0) =~= Seq::<SyntaxNode>::empty());
            assert(r0 + exported(ks@.take(0)) =~= r0);
            while j < ks.len()
                invariant
                    j <= ks@.len(),
                    ks == &c.children,
                    derefs(r@) == r0 + exported(ks@.take(j as int)),
                decreases ks@.len() - j,
            {
                assert(ks@.take(j + 1).drop_last() =~= ks@.take(j as int));
                assert(ks@.take(j + 1).last() == ks@[j as int]);
                let k = ks[j].kind.as_str();
                if str_eq(k, "class_declaration") || str_eq(k, "interface_declaration") || str_eq(k, "enum_declaration")
                    || str_eq(k, "function_declaration") || str_eq(k, "lexical_declaration")
                    || str_eq(k, "variable_statement") || str_eq(k, "type_alias_declaration") {
                    let ghost before = derefs(r@);
                    r.push(&ks[j]);
                    assert(derefs(r@) =~= before.push(ks@[j as int]));
                }
                j = j + 1;
            }
            assert(ks@.take(ks@.len() as int) =~= ks@);
        } else {
            r.push(c);
            assert(derefs(r@) =~= r0.push(*c));
        }
        i = i + 1;
    }
    assert(cs@.take(cs@.len() as int) =~= cs@);
    r
}

// ---------------------------------------------------------------- classes

/// What follows any leading `:`, trimmed.
pub open spec fn clean_type(s: Seq<char>) -> Seq<char>
    decreases s.len(),
{
    if s.len() > 0 && s[0] == ':' { clean_type(s.drop_first()) } else { trim(s) }
}

pub open spec fn member_text(m: SyntaxNode) -> Option<Seq<char>> {
    let name = or_text(field_text(m, "name"@), "_"@);
    if m.kind@ == "method_definition"@ || m.kind@ == "method_signature"@ {
        let params = or_text(field_text(m, "parameters"@), "()"@);
        let ret = clean_type(or_text(field_text(m, "return_type"@), Seq::empty()));
        Some(if ret.len() == 0 { "+"@ + name + params } else { "+"@ + name + params + " "@ + ret })
    } else if m.kind@ == "public_field_definition"@ || m.kind@ == "property_signature"@ {
        let ty = clean_type(or_text(field_text(m, "type"@), Seq::empty()));
        Some("+"@ + name + ": "@ + (if ty.len() == 0 { "?"@ } else { ty }))
    } else {
        None
    }
}

pub open spec fn body_members(cs: Seq<SyntaxNode>) -> Seq<Seq<char>>
    decreases cs.len(),
{
    if cs.len() == 0 {
        Seq::empty()
    } else {
        let p = body_members(cs.drop_last());
        match member_text(cs.last()) {
            Some(t) => p.push(t),
            None => p,
        }
    }
}

pub open spec fn enum_members(cs: Seq<SyntaxNode>) -> Seq<Seq<char>>
    decreases cs.len(),
{
    if cs.len() == 0 {
        Seq::empty()
    } else {
        let p = enum_members(cs.drop_last());
        let v = cs.last();
        if v.kind@ == "enum_assignment"@ {
            p.push("+"@ + or_text(field_text(v, "name"@), "_"@))
        } else if v.kind@ == "property_identifier"@ {
            p.push("+"@ + v.text@)
        } else {
            p
        }
    }
}

pub open spec fn members_in(n: SyntaxNode, body: Seq<char>) -> Seq<Seq<char>> {
    match child_of_kind(n, body) {
        Some(b) => if body == "enum_body"@ { enum_members(b.children@) } else { body_members(b.children@) },
        None => Seq::empty(),
    }
}

pub open spec fn decl_class(n: SyntaxNode) -> Option<ClassV> {
    match field_text(n, "name"@) {
        Some(name) => if n.kind@ == "class_declaration"@ {
            Some((name, members_in(n, "class_body"@), Some("class"@)))
        } else if n.kind@ == "interface_declaration"@ {
            Some((name, members_in(n, "interface_body"@), Some("interface"@)))
        } else if n.kind@ == "enum_declaration"@ {
            Some((name, members_in(n, "enum_body"@), Some("enumeration"@)))
        } else {
            None
        },
        None => None,
    }
}

/// The type names a heritage clause lists, as relations from `from`.
pub open spec fn type_list(cs: Seq<SyntaxNode>, from: Seq<char>, kind: RelationKind) -> Seq<RelV>
    decreases cs.len(),
{
    if cs.len() == 0 {
        Seq::empty()
    } else {
        let p = type_list(cs.drop_last(), from, kind);
        if cs.last().kind@ == "type_identifier"@ {
            p.push((from, cs.last().text@, kind, Seq::empty(), None, None))
        } else {
            p
        }
    }
}

pub open spec fn heritage(cs: Seq<SyntaxNode>, from: Seq<char>) -> Seq<RelV>
    decreases cs.len(),
{
    if cs.len() == 0 {
        Seq::empty()
    } else {
        let p = heritage(cs.drop_last(), from);
        let c = cs.last();
        if c.kind@ == "extends_clause"@ {
            p + type_list(c.children@, from, RelationKind::Inheritance)
        } else if c.kind@ == "implements_clause"@ {
            p + type_list(c.children@, from, RelationKind::Realization)
        } else {
            p
        }
    }
}

/// The relations a class declaration states: it extends and implements.
pub open spec fn decl_relations(n: SyntaxNode) -> Seq<RelV> {
    if n.kind@ == "class_declaration"@ {
        match (field_text(n, "name"@), child_of_kind(n, "class_heritage"@)) {
            (Some(name), Some(h)) => heritage(h.children@, name),
            _ => Seq::empty(),
        }
    } else {
        Seq::empty()
    }
}

pub open spec fn ts_classes(items: Seq<SyntaxNode>) -> Seq<ClassV>
    decreases items.len(),
{
    if items.len() == 0 {
        Seq::empty()
    } else {
        let p = ts_classes(items.drop_last());
        match decl_class(items.last()) {
            Some(c) => p.push(c),
            None => p,
        }
    }
}

pub open spec fn ts_relations(items: Seq<SyntaxNode>) -> Seq<RelV>
    decreases items.len(),
{
    if items.len() == 0 {
        Seq::empty()
    } else {
        ts_relations(items.drop_last()) + decl_relations(items.last())
    }
}

fn clean_type_exec(s: &str) -> (r: String)
    ensures
        r@ == clean_type(s@),
{
    let cs = chars_of(s);
    let mut i: usize = 0;
    assert(cs@.skip(0) =~= cs@);
    while i < cs.len() && cs[i] == ':'
        invariant
            i <= cs@.len(),
            cs@ == s@,
            clean_type(s@) == clean_type(cs@.skip(i as int)),
        decreases cs@.len() - i,
    {
        assert(cs@.skip(i as int).drop_first() =~= cs@.skip(i + 1));
        i = i + 1;
    }
    let n = cs.len();
    let rest = &cs.as_slice()[i..n];
    assert(rest@ =~= cs@.skip(i as int));
    crate::text::string_of(trim_slice(rest))
}

fn member_text_exec(m: &SyntaxNode) -> (r: Option<String>)
    ensures
        match member_text(*m) {
            Some(t) => r matches Some(x) && x@ == t,
            None => r is None,
        },
{
    proof {
        reveal_strlit("");
        assert(""@ =~= Seq::<char>::empty());
    }
    let k = m.kind.as_str();
    if str_eq(k, "method_definition") || str_eq(k, "method_signature") {
        let name = or_text_exec(field_text_of(m, "name"), "_");
        let params = or_text_exec(field_text_of(m, "parameters"), "()");
        let ret = clean_type_exec(or_text_exec(field_text_of(m, "return_type"), "").as_str());
        let mut t = string_from("+");
        t.append(name.as_str());
        t.append(params.as_str());
        if chars_of(ret.as_str()).len() > 0 {
            t.append(" ");
            t.append(ret.as_str());
        }
        Some(t)
    } else if str_eq(k, "public_field_definition") || str_eq(k, "property_signature") {
        let name = or_text_exec(field_text_of(m, "name"), "_");
        let ty = clean_type_exec(or_text_exec(field_text_of(m, "type"), "").as_str());
        let mut t = string_from("+");
        t.append(name.as_str());
        t.append(": ");
        if chars_of(ty.as_str()).len() == 0 {
            t.append("?");
        } else {
            t.append(ty.as_str());
        }
        Some(t)
    } else {
        None
    }
}

fn members_in_exec(n: &SyntaxNode, body: &str) -> (r: Vec<ClassMember>)
    ensures
        members_v(r@) == members_in(*n, body@),
{
    let mut out: Vec<ClassMember> = Vec::new();
    assert(members_v(out@) =~= Seq::<Seq<char>>::empty());
    match child_by_kind(n, body) {
        None => {},
        Some(b) => {
            let is_enum = str_eq(body, "enum_body");
            let cs = &b.children;
            let mut i: usize = 0;
            assert(cs@.take(0) =~= Seq::<SyntaxNode>::empty());
            while i < cs.len()
                invariant
                    i <= cs@.len(),
                    is_enum == (body@ == "enum_body"@),
                    is_enum ==> members_v(out@) == enum_members(cs@.take(i as int)),
                    !is_enum ==> members_v(out@) == body_members(cs@.take(i as int)),
                decreases cs@.len() - i,
            {
                assert(cs@.take(i + 1).drop_last() =~= cs@.take(i as int));
                assert(cs@.take(i + 1).last() == cs@[i as int]);
                let c = &cs[i];
                let ghost m0 = members_v(out@);
                let t: Option<String> = if is_enum {
                    if str_eq(c.kind.as_str(), "enum_assignment") {
                        let mut s = string_from("+");
                        s.append(or_text_exec(field_text_of(c, "name"), "_").as_str());
                        Some(s)
                    } else if str_eq(c.kind.as_str(), "property_identifier") {
                        let mut s = string_from("+");
                        s.append(c.text.as_str());
                        Some(s)
                    } else {
                        None
                    }
                } else {
                    member_text_exec(c)
                };
                match t {
                    Some(s) => {
                        let ghost sv = s@;
                        out.push(ClassMember { text: s });
                        assert(members_v(out@) =~= m0.push(sv));
                    },
                    None => {},
                }
                i = i + 1;
            }
            assert(cs@.take(cs@.len() as int) =~= cs@);
        },
    }
    out
}

fn decl_class_exec(n: &SyntaxNode) -> (r: Option<Class>)
    ensures
        match decl_class(*n) {
            Some(c) => r matches Some(x) && class_v(x) == c,
            None => r is None,
        },
{
    match field_text_of(n, "name") {
        None => None,
        Some(id) => {
            let (body, stereo): (&str, &str) = if str_eq(n.kind.as_str(), "class_declaration") {
                ("class_body", "class")
            } else if str_eq(n.kind.as_str(), "interface_declaration") {
                ("interface_body", "interface")
            } else if str_eq(n.kind.as_str(), "enum_declaration") {
                ("enum_body", "enumeration")
            } else {
                return None;
            };
            let members = members_in_exec(n, body);
            Some(Class { id, members, stereotype: Some(string_from(stereo)) })
        },
    }
}

fn push_type_list(out: &mut Vec<Relation>, cs: &Vec<SyntaxNode>, from: &str, kind: RelationKind)
    ensures
        Seq::new(final(out)@.len(), |k: int| rel_v(final(out)@[k])) == Seq::new(old(out)@.len(), |k: int| rel_v(old(out)@[k]))
            + type_list(cs@, from@, kind),
{
    let ghost o0 = Seq::new(out@.len(), |k: int| rel_v(out@[k]));
    let mut i: usize = 0;
    assert(cs@.take(0) =~= Seq::<SyntaxNode>::empty());
    assert(o0 + type_list(cs@.take(0), from@, kind) =~= o0);
    while i < cs.len()
        invariant
            i <= cs@.len(),
            Seq::new(out@.len(), |k: int| rel_v(out@[k])) == o0 + type_list(cs@.take(i as int), from@, kind),
        decreases cs@.len() - i,
    {
        assert(cs@.take(i + 1).drop_last() =~= cs@.take(i as int));
        assert(cs@.take(i + 1).last() == cs@[i as int]);
        if str_eq(cs[i].kind.as_str(), "type_identifier") {
            let ghost before = Seq::new(out@.len(), |k: int| rel_v(out@[k]));
            let r = Relation {
                from: string_from(from),
                to: cs[i].text.clone(),
                kind,
                label: String::new(),
                from_card: None,
                to_card: None,
            };
            assert(r.label@ =~= Seq::<char>::empty());
            out.push(r);
            assert(Seq::new(out@.len(), |k: int| rel_v(out@[k])) =~= before.push(rel_v(r)));
        }
        i = i + 1;
    }
    assert(cs@.take(cs@.len() as int) =~= cs@);
}

fn push_decl_relations(out: &mut Vec<Relation>, n: &SyntaxNode)
    ensures
        Seq::new(final(out)@.len(), |k: int| rel_v(final(out)@[k])) == Seq::new(old(out)@.len(), |k: int| rel_v(old(out)@[k]))
            + decl_relations(*n),
{
    let ghost o0 = Seq::new(out@.len(), |k: int| rel_v(out@[k]));
    assert(o0 + Seq::<RelV>::empty() =~= o0);
    if !str_eq(n.kind.as_str(), "class_declaration") {
        return;
    }
    match (field_text_of(n, "name"), child_by_kind(n, "class_heritage")) {
        (Some(name), Some(h)) => {
            let cs = &h.children;
            let mut i: usize = 0;
            assert(cs@.take(0) =~= Seq::<SyntaxNode>::empty());
            while i < cs.len()
                invariant
                    i <= cs@.len(),
                    Seq::new(out@.len(), |k: int| rel_v(out@[k])) == o0 + heritage(cs@.take(i as int), name@),
                decreases cs@.len() - i,
            {
                assert(cs@.take(i + 1).drop_last() =~= cs@.take(i as int));
                assert(cs@.take(i + 1).last() == cs@[i as int]);
                let ghost h0 = heritage(cs@.take(i as int), name@);
                let c = &cs[i];
                if str_eq(c.kind.as_str(), "extends_clause") {
                    push_type_list(out, &c.children, name.as_str(), RelationKind::Inheritance);
                    assert(o0 + h0 + type_list(c.children@, name@, RelationKind::Inheritance) =~= o0 + heritage(cs@.take(i + 1), name@));
                } else if str_eq(c.kind.as_str(), "implements_clause") {
                    push_type_list(out, &c.children, name.as_str(), RelationKind::Realization);
                    assert(o0 + h0 + type_list(c.children@, name@, RelationKind::Realization) =~= o0 + heritage(cs@.take(i + 1), name@));
                }
                i = i + 1;
            }
            assert(cs@.take(cs@.len() as int) =~= cs@);
        },
        _ => {},
    }
}

/// The class diagram of a TypeScript file: a class for each class (its
/// methods and fields, and what it extends and implements), interface and
/// enum declared at the top level.
pub fn class_diagram(root: &SyntaxNode) -> (d: ClassDiagram)
    ensures
        cd_v(d).classes == ts_classes(top_level(root.children@)),
        cd_v(d).relations == ts_relations(top_level(root.children@)),
        d.notes@.len() == 0,
{
    let top = top_level_exec(root);
    let ghost tv = derefs(top@);
    let mut classes: Vec<Class> = Vec::new();
    let mut relations: Vec<Relation> = Vec::new();
    let mut i: usize = 0;
    assert(tv.take(0) =~= Seq::<SyntaxNode>::empty());
    assert(classes_v(classes@) =~= Seq::<ClassV>::empty());
    assert(Seq::new(relations@.len(), |k: int| rel_v(relations@[k])) =~= Seq::<RelV>::empty());
    while i < top.len()
        invariant
            i <= top@.len(),
            tv == derefs(top@),
            classes_v(classes@) == ts_classes(tv.take(i as int)),
            Seq::new(relations@.len(), |k: int| rel_v(relations@[k])) == ts_relations(tv.take(i as int)),
        decreases top@.len() - i,
    {
        assert(tv.take(i + 1).drop_last() =~= tv.take(i as int));
        assert(tv.take(i + 1).last() == tv[i as int]);
        assert(tv[i as int] == *top@[i as int]);
        let ghost c0 = classes_v(classes@);
        match decl_class_exec(top[i]) {
            Some(c) => {
                classes.push(c);
                assert(classes_v(classes@) =~= c0.push(class_v(c)));
            },
            None => {},
        }
        push_decl_relations(&mut relations, top[i]);
        i = i + 1;
    }
    assert(tv.take(top@.len() as int) =~= tv);
    let d = ClassDiagram { classes, relations, notes: Vec::new() };
    assert(cd_v(d).classes =~= classes_v(d.classes@));
    d
}

// ---------------------------------------------------------------- calls

/// The function a call expression names: a plain name, or the property of
/// a member access.
pub open spec fn callee(n: SyntaxNode) -> Option<Seq<char>> {
    if n.kind@ == "call_expression"@ {
        match field_child(n, "function"@) {
            Some(f) => if f.kind@ == "identifier"@ {
                Some(f.text@)
            } else if f.kind@ == "member_expression"@ {
                field_text(f, "property"@)
            } else {
                None
            },
            None => None,
        }
    } else {
        None
    }
}

/// The callees named in a subtree, node before children.
pub open spec fn calls_in(n: SyntaxNode) -> Seq<Seq<char>>
    decreases n, 1nat,
{
    (match callee(n) {
        Some(c) => seq![c],
        None => Seq::empty(),
    }) + calls_list(n.children@)
}

pub open spec fn calls_list(cs: Seq<SyntaxNode>) -> Seq<Seq<char>>
    decreases cs, 0nat,
{
    if cs.len() == 0 {
        Seq::empty()
    } else {
        calls_list(cs.drop_last()) + calls_in(cs.last())
    }
}

fn callee_exec(n: &SyntaxNode) -> (r: Option<String>)
    ensures
        match callee(*n) {
            Some(c) => r matches Some(x) && x@ == c,
            None => r is None,
        },
{
    if !str_eq(n.kind.as_str(), "call_expression") {
        return None;
    }
    match field_child_of(n, "function") {
        Some(f) => if str_eq(f.kind.as_str(), "identifier") {
            Some(f.text.clone())
        } else if str_eq(f.kind.as_str(), "member_expression") {
            field_text_of(f, "property")
        } else {
            None
        },
        None => None,
    }
}

fn collect_calls(n: &SyntaxNode, out: &mut Vec<String>)
    ensures
        views(final(out)@) == views(old(out)@) + calls_in(*n),
    decreases n,
{
    let ghost o0 = views(out@);
    match callee_exec(n) {
        Some(c) => {
            out.push(c);
        },
        None => {},
    }
    let ghost o1 = views(out@);
    assert(o1 == o0 + match callee(*n) {
        Some(c) => seq![c],
        None => Seq::<Seq<char>>::empty(),
    });
    let cs = &n.children;
    let mut i: usize = 0;
    assert(cs@.take(0) =~= Seq::<SyntaxNode>::empty());
    while i < cs.len()
        invariant
            i <= cs@.len(),
            cs == &n.children,
            views(out@) == o1 + calls_list(cs@.take(i as int)),
        decreases cs@.len() - i,
    {
        assert(cs@.take(i + 1).drop_last() =~= cs@.take(i as int));
        assert(cs@.take(i + 1).last() == cs@[i as int]);
        proof {
            assert(decreases_to!(*n => n.children));
            assert(decreases_to!(n.children => n.children@[i as int]));
        }
        collect_calls(&cs[i], out);
        i = i + 1;
    }
    assert(cs@.take(cs@.len() as int) =~= cs@);
}

/// The name of a top-level function, if it is one.
pub open spec fn fn_name(n: SyntaxNode) -> Option<Seq<char>> {
    if n.kind@ == "function_declaration"@ { field_text(n, "name"@) } else { None }
}

pub open spec fn fn_names(items: Seq<SyntaxNode>) -> Seq<Seq<char>>
    decreases items.len(),
{
    if items.len() == 0 {
        Seq::empty()
    } else {
        let p = fn_names(items.drop_last());
        match fn_name(items.last()) {
            Some(x) => p.push(x),
            None => p,
        }
    }
}

/// The nodes a function's calls add for callees defined elsewhere.
pub open spec fn foreign_callees(n: SyntaxNode, names: Seq<Seq<char>>) -> Seq<ItemNodeV> {
    let cs = sort_unique(calls_in(n));
    let ext = cs.filter(|c: Seq<char>| !names.contains(c));
    Seq::new(ext.len(), |k: int| ("fn::"@ + ext[k], ext[k], NodeShape::Circle))
}

/// The edges of a function's calls.
pub open spec fn call_edges(n: SyntaxNode, name: Seq<char>) -> Seq<ItemEdgeV> {
    let cs = sort_unique(calls_in(n));
    Seq::new(cs.len(), |k: int| ("fn::"@ + name, "fn::"@ + cs[k], Seq::empty(), EdgeStyle::Arrow))
}

pub open spec fn call_nodes_of(items: Seq<SyntaxNode>, names: Seq<Seq<char>>) -> Seq<ItemNodeV>
    decreases items.len(),
{
    if items.len() == 0 {
        Seq::empty()
    } else {
        call_nodes_of(items.drop_last(), names) + match fn_name(items.last()) {
            Some(x) => foreign_callees(items.last(), names),
            None => Seq::empty(),
        }
    }
}

pub open spec fn call_edges_of(items: Seq<SyntaxNode>) -> Seq<ItemEdgeV>
    decreases items.len(),
{
    if items.len() == 0 {
        Seq::empty()
    } else {
        call_edges_of(items.drop_last()) + match fn_name(items.last()) {
            Some(x) => call_edges(items.last(), x),
            None => Seq::empty(),
        }
    }
}

/// The call graph of a file: a node per function, one per callee defined
/// elsewhere, and an edge per distinct callee of each function.
pub open spec fn call_graph_nodes(items: Seq<SyntaxNode>) -> Seq<ItemNodeV> {
    let names = fn_names(items);
    add_absent(
        Seq::empty(),
        Seq::new(names.len(), |k: int| ("fn::"@ + names[k], names[k], NodeShape::Rect)) + call_nodes_of(items, names),
    )
}

fn fn_name_exec(n: &SyntaxNode) -> (r: Option<String>)
    ensures
        match fn_name(*n) {
            Some(x) => r matches Some(s) && s@ == x,
            None => r is None,
        },
{
    if str_eq(n.kind.as_str(), "function_declaration") {
        field_text_of(n, "name")
    } else {
        None
    }
}

/// The nodes for callees defined elsewhere among the first `q` callees.
pub open spec fn foreign_prefix(cs: Seq<Seq<char>>, names: Seq<Seq<char>>, q: int) -> Seq<ItemNodeV> {
    let ext = cs.take(q).filter(|c: Seq<char>| !names.contains(c));
    Seq::new(ext.len(), |k: int| ("fn::"@ + ext[k], ext[k], NodeShape::Circle))
}

/// A function's calls as nodes and edges added to `d`.
fn add_calls(
    d: &mut Flowchart,
    item: &SyntaxNode,
    name: &String,
    names: &Vec<String>,
    Ghost(base): Ghost<Seq<ItemNodeV>>,
)
    requires
        graph_nodes(*old(d)) == add_absent(Seq::empty(), base),
        bare_graph(*old(d)),
    ensures
        bare_graph(*final(d)),
        graph_nodes(*final(d)) == add_absent(Seq::empty(), base + foreign_callees(*item, views(names@))),
        graph_edges(*final(d)) == graph_edges(*old(d)) + call_edges(*item, name@),
        final(d).rankdir == old(d).rankdir,
{
    let mut found: Vec<String> = Vec::new();
    collect_calls(item, &mut found);
    assert(views(found@) =~= calls_in(*item));
    let cs = sort_unique_exec(&found);
    let ghost cv = views(cs@);
    let ghost nv = views(names@);
    let ghost pred = |c: Seq<char>| !nv.contains(c);
    let ghost e0 = graph_edges(*d);
    let mut q: usize = 0;
    assert(cv.take(0) =~= Seq::<Seq<char>>::empty());
    assert(cv.take(0).filter(pred) =~= Seq::<Seq<char>>::empty()) by {
        crate::text::lemma_filter_empty(cv.take(0), pred);
    }
    assert(base + foreign_prefix(cv, nv, 0) =~= base);
    while q < cs.len()
        invariant
            bare_graph(*d),
            q <= cs@.len(),
            cv == views(cs@),
            nv == views(names@),
            pred == (|c: Seq<char>| !nv.contains(c)),
            cv == sort_unique(calls_in(*item)),
            graph_nodes(*d) == add_absent(Seq::empty(), base + foreign_prefix(cv, nv, q as int)),
            graph_edges(*d) == e0 + Seq::new(q as nat, |k: int| ("fn::"@ + name@, "fn::"@ + cv[k], Seq::<char>::empty(), EdgeStyle::Arrow)),
            d.rankdir == old(d).rankdir,
        decreases cs@.len() - q,
    {
        let c = &cs[q];
        assert(cv[q as int] == c@);
        proof {
            crate::text::lemma_filter_step(cv, pred, q as int);
        }
        let ghost fp = foreign_prefix(cv, nv, q as int);
        if !crate::graph_ops::contains_str(names, c.as_str()) {
            let mut id = string_from("fn::");
            id.append(c.as_str());
            let ghost v = (id@, c@, NodeShape::Circle);
            add_item_node(d, id, c.clone(), NodeShape::Circle);
            proof {
                lemma_add_absent_push(Seq::empty(), base + fp, v);
                assert(foreign_prefix(cv, nv, q + 1) =~= fp.push(v));
                assert(base + foreign_prefix(cv, nv, q + 1) =~= (base + fp).push(v));
            }
        } else {
            assert(foreign_prefix(cv, nv, q + 1) =~= fp);
        }
        let ghost e1 = graph_edges(*d);
        let mut from = string_from("fn::");
        from.append(name.as_str());
        let mut to = string_from("fn::");
        to.append(c.as_str());
        let lbl = String::new();
        assert(lbl@ =~= Seq::<char>::empty());
        push_item_edge(d, from, to, lbl, EdgeStyle::Arrow);
        assert(graph_edges(*d) =~= e0 + Seq::new((q + 1) as nat, |k: int| ("fn::"@ + name@, "fn::"@ + cv[k], Seq::<char>::empty(), EdgeStyle::Arrow)));
        q = q + 1;
    }
    assert(cv.take(cv.len() as int) =~= cv);
    assert(foreign_prefix(cv, nv, cv.len() as int) =~= foreign_callees(*item, nv));
    assert(Seq::new(cv.len(), |k: int| ("fn::"@ + name@, "fn::"@ + cv[k], Seq::<char>::empty(), EdgeStyle::Arrow)) =~= call_edges(*item, name@));
}

/// The call graph of a TypeScript file as a flowchart.
pub fn call_graph(root: &SyntaxNode) -> (d: Flowchart)
    ensures
        bare_graph(d),
        graph_nodes(d) == call_graph_nodes(top_level(root.children@)),
        graph_edges(d) == call_edges_of(top_level(root.children@)),
        d.rankdir@ == "LR"@,
{
    let items = top_level_exec(root);
    let ghost tv = derefs(items@);
    let mut names: Vec<String> = Vec::new();
    let mut i: usize = 0;
    assert(tv.take(0) =~= Seq::<SyntaxNode>::empty());
    while i < items.len()
        invariant
            i <= tv.len(),
            tv == derefs(items@),
            views(names@) == fn_names(tv.take(i as int)),
        decreases tv.len() - i,
    {
        assert(tv.take(i + 1).drop_last() =~= tv.take(i as int));
        assert(tv.take(i + 1).last() == tv[i as int]);
        assert(tv[i as int] == *items@[i as int]);
        match fn_name_exec(items[i]) {
            Some(x) => {
                let ghost before = views(names@);
                names.push(x);
                assert(views(names@) =~= before.push(names@[names@.len() - 1]@));
            },
            None => {},
        }
        i = i + 1;
    }
    assert(tv.take(tv.len() as int) =~= tv);
    let ghost nv = views(names@);
    let ghost fnv = Seq::new(nv.len(), |k: int| ("fn::"@ + nv[k], nv[k], NodeShape::Rect));
    let mut d = Flowchart::new("LR");
    assert(graph_nodes(d) =~= Seq::<ItemNodeV>::empty());
    assert(graph_edges(d) =~= Seq::<ItemEdgeV>::empty());
    proof {
        assert(fnv.take(0) =~= Seq::<ItemNodeV>::empty());
    }
    let mut k: usize = 0;
    while k < names.len()
        invariant
            bare_graph(d),
            k <= names@.len(),
            nv == views(names@),
            fnv == Seq::new(nv.len(), |q: int| ("fn::"@ + nv[q], nv[q], NodeShape::Rect)),
            graph_nodes(d) == add_absent(Seq::empty(), fnv.take(k as int)),
            graph_edges(d) =~= Seq::<ItemEdgeV>::empty(),
            d.rankdir@ == "LR"@,
        decreases names@.len() - k,
    {
        let mut id = string_from("fn::");
        id.append(names[k].as_str());
        assert(nv[k as int] == names@[k as int]@);
        let ghost v = fnv[k as int];
        add_item_node(&mut d, id, names[k].clone(), NodeShape::Rect);
        proof {
            lemma_add_absent_push(Seq::empty(), fnv.take(k as int), v);
            assert(fnv.take(k + 1) =~= fnv.take(k as int).push(v));
        }
        k = k + 1;
    }
    assert(fnv.take(names@.len() as int) =~= fnv);
    i = 0;
    assert(fnv + call_nodes_of(tv.take(0), nv) =~= fnv);
    assert(call_edges_of(tv.take(0)) =~= Seq::<ItemEdgeV>::empty());
    while i < items.len()
        invariant
            bare_graph(d),
            i <= tv.len(),
            tv == derefs(items@),
            nv == views(names@),
            nv == fn_names(tv),
            graph_nodes(d) == add_absent(Seq::empty(), fnv + call_nodes_of(tv.take(i as int), nv)),
            graph_edges(d) == call_edges_of(tv.take(i as int)),
            d.rankdir@ == "LR"@,
        decreases tv.len() - i,
    {
        assert(tv.take(i + 1).drop_last() =~= tv.take(i as int));
        assert(tv.take(i + 1).last() == tv[i as int]);
        let ghost base = fnv + call_nodes_of(tv.take(i as int), nv);
        assert(tv[i as int] == *items@[i as int]);
        match fn_name_exec(items[i]) {
            Some(x) => {
                add_calls(&mut d, items[i], &x, &names, Ghost(base));
                assert(fnv + call_nodes_of(tv.take(i + 1), nv) =~= base + foreign_callees(tv[i as int], nv));
            },
            None => {
                assert(fnv + call_nodes_of(tv.take(i + 1), nv) =~= base);
                assert(call_edges_of(tv.take(i + 1)) =~= call_edges_of(tv.take(i as int)));
            },
        }
        i = i + 1;
    }
    assert(tv.take(tv.len() as int) =~= tv);
    d
}


// ---------------------------------------------------------------- item tree

/// A top-level declaration as a tree node: id, label, shape and the label of
/// the edge from the file node.
pub open spec fn ts_item(n: SyntaxNode) -> Option<(Seq<char>, Seq<char>, NodeShape, Seq<char>)> {
    let k = n.kind@;
    if k == "lexical_declaration"@ || k == "variable_statement"@ {
        match const_name(n) {
            Some(x) => Some(("const::"@ + x, "const "@ + x, NodeShape::Rect, "const"@)),
            None => None,
        }
    } else {
        match field_text(n, "name"@) {
            Some(x) => if k == "class_declaration"@ {
                Some(("class::"@ + x, "class "@ + x, NodeShape::Rect, "class"@))
            } else if k == "interface_declaration"@ {
                Some(("interface::"@ + x, "interface "@ + x, NodeShape::Stadium, "interface"@))
            } else if k == "enum_declaration"@ {
                Some(("enum::"@ + x, "enum "@ + x, NodeShape::Hexagon, "enum"@))
            } else if k == "function_declaration"@ {
                Some(("fn::"@ + x, "fn "@ + x, NodeShape::Rect, "fn"@))
            } else {
                None
            },
            None => None,
        }
    }
}

/// The name of the first declarator of a `const` / `let` that has one.
pub open spec fn const_name(n: SyntaxNode) -> Option<Seq<char>> {
    match first(n.children@, |c: SyntaxNode| c.kind@ == "variable_declarator"@ && field_text(c, "name"@) is Some) {
        Some(i) => field_text(n.children@[i], "name"@),
        None => None,
    }
}

pub open spec fn ts_items(items: Seq<SyntaxNode>) -> Seq<(Seq<char>, Seq<char>, NodeShape, Seq<char>)>
    decreases items.len(),
{
    if items.len() == 0 {
        Seq::empty()
    } else {
        let p = ts_items(items.drop_last());
        match ts_item(items.last()) {
            Some(t) => p.push(t),
            None => p,
        }
    }
}

pub open spec fn specifier_imports(cs: Seq<SyntaxNode>, label: Seq<char>) -> Seq<(Seq<char>, Seq<char>)>
    decreases cs.len(),
{
    if cs.len() == 0 {
        Seq::empty()
    } else {
        let p = specifier_imports(cs.drop_last(), label);
        if cs.last().kind@ == "import_specifier"@ {
            let name = or_text(field_text(cs.last(), "name"@), "_"@);
            p.push(("import::"@ + name, name + " ← "@ + label))
        } else {
            p
        }
    }
}

pub open spec fn clause_imports(cs: Seq<SyntaxNode>, label: Seq<char>) -> Seq<(Seq<char>, Seq<char>)>
    decreases cs.len(),
{
    if cs.len() == 0 {
        Seq::empty()
    } else {
        let p = clause_imports(cs.drop_last(), label);
        let c = cs.last();
        if c.kind@ == "identifier"@ {
            p.push(("import::"@ + c.text@, c.text@ + " ← "@ + label))
        } else if c.kind@ == "named_imports"@ {
            p + specifier_imports(c.children@, label)
        } else if c.kind@ == "namespace_import"@ {
            let name = or_text(field_text(c, "name"@), "*"@);
            p.push(("import::"@ + name, "* as "@ + name + " ← "@ + label))
        } else {
            p
        }
    }
}

/// The names an import statement brings in: id and label.
pub open spec fn imports_of(n: SyntaxNode) -> Seq<(Seq<char>, Seq<char>)> {
    let label = or_text(field_text(n, "source"@), "?"@);
    match child_of_kind(n, "import_clause"@) {
        Some(c) => clause_imports(c.children@, label),
        None => seq![("import::"@ + label, label)],
    }
}

pub open spec fn ts_uses(cs: Seq<SyntaxNode>) -> Seq<(Seq<char>, Seq<char>)>
    decreases cs.len(),
{
    if cs.len() == 0 {
        Seq::empty()
    } else {
        let p = ts_uses(cs.drop_last());
        if cs.last().kind@ == "import_statement"@ { p + imports_of(cs.last()) } else { p }
    }
}

pub open spec fn item_tree_nodes(cs: Seq<SyntaxNode>) -> Seq<ItemNodeV> {
    let ts = ts_items(top_level(cs));
    let us = ts_uses(cs);
    add_absent(
        seq![("__root__"@, "file"@, NodeShape::Stadium)],
        Seq::new(ts.len(), |k: int| (ts[k].0, ts[k].1, ts[k].2)) + Seq::new(us.len(), |k: int| (us[k].0, us[k].1, NodeShape::Circle)),
    )
}

pub open spec fn item_tree_edges(cs: Seq<SyntaxNode>) -> Seq<ItemEdgeV> {
    let ts = ts_items(top_level(cs));
    let us = ts_uses(cs);
    Seq::new(ts.len(), |k: int| ("__root__"@, ts[k].0, ts[k].3, EdgeStyle::Arrow))
        + Seq::new(us.len(), |k: int| ("__root__"@, us[k].0, "import"@, EdgeStyle::Dashed))
}

fn const_name_exec(n: &SyntaxNode) -> (r: Option<String>)
    ensures
        match const_name(*n) {
            Some(x) => r matches Some(s) && s@ == x,
            None => r is None,
        },
{
    let ghost p = |c: SyntaxNode| c.kind@ == "variable_declarator"@ && field_text(c, "name"@) is Some;
    proof {
        lemma_first_from(n.children@, p, 0);
    }
    let mut i: usize = 0;
    while i < n.children.len()
        invariant
            i <= n.children@.len(),
            p == (|c: SyntaxNode| c.kind@ == "variable_declarator"@ && field_text(c, "name"@) is Some),
            first(n.children@, p) == first_from(n.children@, p, i as int),
        decreases n.children@.len() - i,
    {
        if str_eq(n.children[i].kind.as_str(), "variable_declarator") {
            match field_text_of(&n.children[i], "name") {
                Some(x) => {
                    return Some(x);
                },
                None => {},
            }
        }
        i = i + 1;
    }
    None
}

fn ts_item_exec(n: &SyntaxNode) -> (r: Option<(String, String, NodeShape, &'static str)>)
    ensures
        match ts_item(*n) {
            Some(t) => r matches Some(x) && x.0@ == t.0 && x.1@ == t.1 && x.2 == t.2 && x.3@ == t.3,
            None => r is None,
        },
{
    let k = n.kind.as_str();
    let (name, prefix, label, shape, edge): (Option<String>, &str, &str, NodeShape, &'static str) =
        if str_eq(k, "lexical_declaration") || str_eq(k, "variable_statement") {
        (const_name_exec(n), "const::", "const ", NodeShape::Rect, "const")
    } else if str_eq(k, "class_declaration") {
        (field_text_of(n, "name"), "class::", "class ", NodeShape::Rect, "class")
    } else if str_eq(k, "interface_declaration") {
        (field_text_of(n, "name"), "interface::", "interface ", NodeShape::Stadium, "interface")
    } else if str_eq(k, "enum_declaration") {
        (field_text_of(n, "name"), "enum::", "enum ", NodeShape::Hexagon, "enum")
    } else if str_eq(k, "function_declaration") {
        (field_text_of(n, "name"), "fn::", "fn ", NodeShape::Rect, "fn")
    } else {
        return None;
    };
    match name {
        None => None,
        Some(x) => {
            let mut id = string_from(prefix);
            id.append(x.as_str());
            let mut l = string_from(label);
            l.append(x.as_str());
            Some((id, l, shape, edge))
        },
    }
}

fn push_use(us: &mut Vec<(String, String)>, id: String, label: String)
    ensures
        final(us)@.len() == old(us)@.len() + 1,
        forall|k: int| 0 <= k < old(us)@.len() ==> #[trigger] final(us)@[k] == old(us)@[k],
        final(us)@[old(us)@.len() as int].0@ == id@,
        final(us)@[old(us)@.len() as int].1@ == label@,
{
    us.push((id, label));
}

pub open spec fn uses_match(us: Seq<(String, String)>, v: Seq<(Seq<char>, Seq<char>)>) -> bool {
    &&& us.len() == v.len()
    &&& forall|k: int| 0 <= k < us.len() ==> (#[trigger] us[k]).0@ == v[k].0 && us[k].1@ == v[k].1
}

fn import_pair(prefix: &str, name: &str, mid: &str, label: &str) -> (r: (String, String))
    ensures
        r.0@ == "import::"@ + name@,
        r.1@ == prefix@ + name@ + mid@ + label@,
{
    let mut id = string_from("import::");
    id.append(name);
    let mut l = string_from(prefix);
    l.append(name);
    l.append(mid);
    l.append(label);
    (id, l)
}

fn collect_imports(n: &SyntaxNode, us: &mut Vec<(String, String)>, Ghost(v0): Ghost<Seq<(Seq<char>, Seq<char>)>>)
    requires
        uses_match(old(us)@, v0),
    ensures
        uses_match(final(us)@, v0 + imports_of(*n)),
{
    proof {
        reveal_strlit("");
        assert(""@ =~= Seq::<char>::empty());
    }
    let label = or_text_exec(field_text_of(n, "source"), "?");
    match child_by_kind(n, "import_clause") {
        None => {
            let (id, l) = import_pair("", label.as_str(), "", "");
            assert(l@ =~= label@);
            push_use(us, id, l);
            assert(v0 + imports_of(*n) =~= v0.push(("import::"@ + label@, label@)));
        },
        Some(c) => {
            let cs = &c.children;
            let mut i: usize = 0;
            assert(cs@.take(0) =~= Seq::<SyntaxNode>::empty());
            assert(v0 + clause_imports(cs@.take(0), label@) =~= v0);
            while i < cs.len()
                invariant
                    i <= cs@.len(),
                    uses_match(us@, v0 + clause_imports(cs@.take(i as int), label@)),
                decreases cs@.len() - i,
            {
                assert(cs@.take(i + 1).drop_last() =~= cs@.take(i as int));
                assert(cs@.take(i + 1).last() == cs@[i as int]);
                let ghost w0 = v0 + clause_imports(cs@.take(i as int), label@);
                let ch = &cs[i];
                if str_eq(ch.kind.as_str(), "identifier") {
                    let (id, l) = import_pair("", ch.text.as_str(), " ← ", label.as_str());
                    proof {
                        reveal_strlit("");
                        assert(""@ =~= Seq::<char>::empty());
                    }
                    assert(l@ =~= ch.text@ + " ← "@ + label@);
                    push_use(us, id, l);
                    assert(v0 + clause_imports(cs@.take(i + 1), label@) =~= w0.push(("import::"@ + ch.text@, ch.text@ + " ← "@ + label@)));
                } else if str_eq(ch.kind.as_str(), "named_imports") {
                    let ss = &ch.children;
                    let mut j: usize = 0;
                    assert(ss@.take(0) =~= Seq::<SyntaxNode>::empty());
                    assert(w0 + specifier_imports(ss@.take(0), label@) =~= w0);
                    while j < ss.len()
                        invariant
                            j <= ss@.len(),
                            uses_match(us@, w0 + specifier_imports(ss@.take(j as int), label@)),
                        decreases ss@.len() - j,
                    {
                        assert(ss@.take(j + 1).drop_last() =~= ss@.take(j as int));
                        assert(ss@.take(j + 1).last() == ss@[j as int]);
                        let ghost x0 = w0 + specifier_imports(ss@.take(j as int), label@);
                        if str_eq(ss[j].kind.as_str(), "import_specifier") {
                            let name = or_text_exec(field_text_of(&ss[j], "name"), "_");
                            let (id, l) = import_pair("", name.as_str(), " ← ", label.as_str());
                            proof {
                                reveal_strlit("");
                                assert(""@ =~= Seq::<char>::empty());
                            }
                            assert(l@ =~= name@ + " ← "@ + label@);
                            push_use(us, id, l);
                            assert(w0 + specifier_imports(ss@.take(j + 1), label@) =~= x0.push(("import::"@ + name@, name@ + " ← "@ + label@)));
                        }
                        j = j + 1;
                    }
                    assert(ss@.take(ss@.len() as int) =~= ss@);
                    assert(v0 + clause_imports(cs@.take(i + 1), label@) =~= w0 + specifier_imports(ss@, label@));
                } else if str_eq(ch.kind.as_str(), "namespace_import") {
                    let name = or_text_exec(field_text_of(ch, "name"), "*");
                    let (id, l) = import_pair("* as ", name.as_str(), " ← ", label.as_str());
                    push_use(us, id, l);
                    assert(v0 + clause_imports(cs@.take(i + 1), label@) =~= w0.push(("import::"@ + name@, "* as "@ + name@ + " ← "@ + label@)));
                }
                i = i + 1;
            }
            assert(cs@.take(cs@.len() as int) =~= cs@);
        },
    }
}

/// The item tree of a TypeScript file as a flowchart: the file node, a
/// node per top-level declaration (first of each id) and per imported name,
/// and an edge from the file to each.
pub fn item_tree(root: &SyntaxNode) -> (d: Flowchart)
    ensures
        bare_graph(d),
        graph_nodes(d) == item_tree_nodes(root.children@),
        graph_edges(d) == item_tree_edges(root.children@),
        d.rankdir@ == "TD"@,
{
    let top = top_level_exec(root);
    let ghost topv = derefs(top@);
    let mut ts: Vec<(String, String, NodeShape, &'static str)> = Vec::new();
    let mut i: usize = 0;
    assert(topv.take(0) =~= Seq::<SyntaxNode>::empty());
    while i < top.len()
        invariant
            i <= top@.len(),
            topv == derefs(top@),
            ts@.len() == ts_items(topv.take(i as int)).len(),
            forall|k: int| 0 <= k < ts@.len() ==> {
                let t = #[trigger] ts_items(topv.take(i as int))[k];
                ts@[k].0@ == t.0 && ts@[k].1@ == t.1 && ts@[k].2 == t.2 && ts@[k].3@ == t.3
            },
        decreases top@.len() - i,
    {
        assert(topv.take(i + 1).drop_last() =~= topv.take(i as int));
        assert(topv.take(i + 1).last() == topv[i as int]);
        assert(topv[i as int] == *top@[i as int]);
        match ts_item_exec(top[i]) {
            Some(t) => ts.push(t),
            None => {},
        }
        i = i + 1;
    }
    assert(topv.take(top@.len() as int) =~= topv);
    let items = &root.children;
    let mut us: Vec<(String, String)> = Vec::new();
    i = 0;
    assert(items@.take(0) =~= Seq::<SyntaxNode>::empty());
    while i < items.len()
        invariant
            i <= items@.len(),
            items == &root.children,
            uses_match(us@, ts_uses(items@.take(i as int))),
        decreases items@.len() - i,
    {
        assert(items@.take(i + 1).drop_last() =~= items@.take(i as int));
        assert(items@.take(i + 1).last() == items@[i as int]);
        if str_eq(items[i].kind.as_str(), "import_statement") {
            collect_imports(&items[i], &mut us, Ghost(ts_uses(items@.take(i as int))));
        }
        i = i + 1;
    }
    assert(items@.take(items@.len() as int) =~= items@);
    let ghost tv = ts_items(top_level(root.children@));
    let ghost uv = ts_uses(root.children@);
    let ghost more = Seq::new(tv.len(), |k: int| (tv[k].0, tv[k].1, tv[k].2)) + Seq::new(uv.len(), |k: int| (uv[k].0, uv[k].1, NodeShape::Circle));
    let ghost root_v = seq![("__root__"@, "file"@, NodeShape::Stadium)];
    let mut d = Flowchart::new("TD");
    assert(graph_nodes(d) =~= Seq::<ItemNodeV>::empty());
    assert(graph_edges(d) =~= Seq::<ItemEdgeV>::empty());
    add_item_node(&mut d, string_from("__root__"), string_from("file"), NodeShape::Stadium);
    proof {
        reveal_with_fuel(add_absent, 2);
        assert(root_v.drop_last() =~= Seq::<ItemNodeV>::empty());
        assert(add_absent(Seq::<ItemNodeV>::empty(), root_v) =~= root_v);
        assert(more.take(0) =~= Seq::<ItemNodeV>::empty());
    }
    let nt = ts.len();
    let mut k: usize = 0;
    while k < nt
        invariant
            bare_graph(d),
            k <= nt,
            nt == ts@.len(),
            nt == tv.len(),
            more == Seq::new(tv.len(), |q: int| (tv[q].0, tv[q].1, tv[q].2)) + Seq::new(uv.len(), |q: int| (uv[q].0, uv[q].1, NodeShape::Circle)),
            forall|q: int| 0 <= q < ts@.len() ==> {
                let t = #[trigger] tv[q];
                ts@[q].0@ == t.0 && ts@[q].1@ == t.1 && ts@[q].2 == t.2 && ts@[q].3@ == t.3
            },
            graph_nodes(d) == add_absent(root_v, more.take(k as int)),
            graph_edges(d) =~= Seq::<ItemEdgeV>::empty(),
            d.rankdir@ == "TD"@,
        decreases nt - k,
    {
        let ghost v = more[k as int];
        assert(tv[k as int] == tv[k as int]);
        add_item_node(&mut d, ts[k].0.clone(), ts[k].1.clone(), ts[k].2);
        proof {
            lemma_add_absent_push(root_v, more.take(k as int), v);
            assert(more.take(k + 1) =~= more.take(k as int).push(v));
        }
        k = k + 1;
    }
    let nu = us.len();
    k = 0;
    while k < nu
        invariant
            bare_graph(d),
            k <= nu,
            nu == us@.len(),
            nu == uv.len(),
            nt == tv.len(),
            more == Seq::new(tv.len(), |q: int| (tv[q].0, tv[q].1, tv[q].2)) + Seq::new(uv.len(), |q: int| (uv[q].0, uv[q].1, NodeShape::Circle)),
            uses_match(us@, uv),
            graph_nodes(d) == add_absent(root_v, more.take(nt + k)),
            graph_edges(d) =~= Seq::<ItemEdgeV>::empty(),
            d.rankdir@ == "TD"@,
        decreases nu - k,
    {
        let ghost v = more[nt + k];
        assert(uv[k as int] == uv[k as int]);
        add_item_node(&mut d, us[k].0.clone(), us[k].1.clone(), NodeShape::Circle);
        proof {
            lemma_add_absent_push(root_v, more.take(nt + k), v);
            assert(more.take(nt + k + 1) =~= more.take(nt + k).push(v));
        }
        k = k + 1;
    }
    assert(more.take(nt + nu) =~= more);
    let ghost ev = Seq::new(tv.len(), |q: int| ("__root__"@, tv[q].0, tv[q].3, EdgeStyle::Arrow))
        + Seq::new(uv.len(), |q: int| ("__root__"@, uv[q].0, "import"@, EdgeStyle::Dashed));
    k = 0;
    while k < nt
        invariant
            bare_graph(d),
            k <= nt,
            nt == ts@.len(),
            nt == tv.len(),
            nu == uv.len(),
            ev == Seq::new(tv.len(), |q: int| ("__root__"@, tv[q].0, tv[q].3, EdgeStyle::Arrow))
                + Seq::new(uv.len(), |q: int| ("__root__"@, uv[q].0, "import"@, EdgeStyle::Dashed)),
            forall|q: int| 0 <= q < ts@.len() ==> {
                let t = #[trigger] tv[q];
                ts@[q].0@ == t.0 && ts@[q].1@ == t.1 && ts@[q].2 == t.2 && ts@[q].3@ == t.3
            },
            graph_nodes(d) == item_tree_nodes(root.children@),
            graph_edges(d) == ev.take(k as int),
            d.rankdir@ == "TD"@,
        decreases nt - k,
    {
        assert(tv[k as int] == tv[k as int]);
        push_item_edge(&mut d, string_from("__root__"), ts[k].0.clone(), string_from(ts[k].3), EdgeStyle::Arrow);
        assert(ev.take(k + 1) =~= ev.take(k as int).push(ev[k as int]));
        k = k + 1;
    }
    k = 0;
    while k < nu
        invariant
            bare_graph(d),
            k <= nu,
            nu == us@.len(),
            nu == uv.len(),
            nt == tv.len(),
            ev == Seq::new(tv.len(), |q: int| ("__root__"@, tv[q].0, tv[q].3, EdgeStyle::Arrow))
                + Seq::new(uv.len(), |q: int| ("__root__"@, uv[q].0, "import"@, EdgeStyle::Dashed)),
            uses_match(us@, uv),
            graph_nodes(d) == item_tree_nodes(root.children@),
            graph_edges(d) == ev.take(nt + k),
            d.rankdir@ == "TD"@,
        decreases nu - k,
    {
        assert(uv[k as int] == uv[k as int]);
        push_item_edge(&mut d, string_from("__root__"), us[k].0.clone(), string_from("import"), EdgeStyle::Dashed);
        assert(ev.take(nt + k + 1) =~= ev.take(nt + k).push(ev[nt + k]));
        k = k + 1;
    }
    assert(ev.take(nt + nu) =~= ev);
    d
}

// ---------------------------------------------------------------- entry

/// The diagram of a TypeScript syntax tree of the given kind.
pub open spec fn ts_diagram_ok(d: Document, root: SyntaxNode, kind: CodeKind) -> bool {
    &&& d.version == CURRENT_VERSION
    &&& d.diagrams@.len() == 1
    &&& match (kind, d.diagrams@[0]) {
        (CodeKind::Class, Diagram::Class(c)) => cd_v(c).classes == ts_classes(top_level(root.children@))
            && cd_v(c).relations == ts_relations(top_level(root.children@)) && c.notes@.len() == 0,
        (CodeKind::Tree, Diagram::Flowchart(f)) => graph_nodes(f) == item_tree_nodes(root.children@)
            && graph_edges(f) == item_tree_edges(root.children@) && f.rankdir@ == "TD"@ && bare_graph(f),
        (CodeKind::Call, Diagram::Flowchart(f)) => graph_nodes(f) == call_graph_nodes(top_level(root.children@))
            && graph_edges(f) == call_edges_of(top_level(root.children@)) && f.rankdir@ == "LR"@ && bare_graph(f),
        _ => false,
    }
}

/// `d` is the diagram read off the syntax tree that the TypeScript grammar
/// parses from `source`.
pub open spec fn read_off_source(d: Document, source: Seq<char>, kind: CodeKind) -> bool {
    exists|t: SyntaxNode| #[trigger] ts_diagram_ok(d, t, kind) && tree_of_source(t, Language::TypeScript, source)
}

/// The diagram of a TypeScript syntax tree: its classes, its item tree or its call
/// graph.
pub fn extract_from(root: &SyntaxNode, kind: CodeKind) -> (d: Document)
    ensures
        ts_diagram_ok(d, *root, kind),
{
    match kind {
        CodeKind::Class => Document::single(Diagram::Class(class_diagram(root))),
        CodeKind::Tree => Document::single(Diagram::Flowchart(item_tree(root))),
        CodeKind::Call => Document::single(Diagram::Flowchart(call_graph(root))),
    }
}

/// The diagram of TypeScript source: tree-sitter parses it, and the diagram is
/// read off the tree as `extract_from` says.
pub fn extract(source: &str, kind: CodeKind) -> (r: Result<Document, CodeGenError>)
    ensures
        r matches Ok(d) && read_off_source(d, source@, kind),
{
    match syntax_tree(source, Language::TypeScript) {
        Ok(t) => {
            let d = extract_from(&t, kind);
            assert(ts_diagram_ok(d, t, kind));
            assert(read_off_source(d, source@, kind));
            Ok(d)
        },
        Err(e) => Err(e),
    }
}

} // verus!
