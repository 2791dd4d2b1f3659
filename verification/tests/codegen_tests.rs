use diagram::codegen::{resolve_language, CodeKind, Language};

#[test]
fn language_parse() {
    assert_eq!(Language::parse("rust"), Some(Language::Rust));
    assert_eq!(Language::parse("RS"), Some(Language::Rust));
    assert_eq!(Language::parse("python"), None);
}

#[test]
fn code_kind_parse() {
    assert_eq!(CodeKind::parse("class"), Some(CodeKind::Class));
    assert_eq!(CodeKind::parse("tree"), Some(CodeKind::Tree));
    assert_eq!(CodeKind::parse("call"), Some(CodeKind::Call));
    assert_eq!(CodeKind::parse("nope"), None);
}

#[test]
fn language_from_extension() {
    assert_eq!(Language::from_extension("rs"), Some(Language::Rust));
    assert_eq!(Language::from_extension("RS"), Some(Language::Rust));
    assert_eq!(Language::from_extension("py"), None);
}

#[test]
fn resolve_language_cases() {
    assert_eq!(resolve_language("src/x.ts", None).unwrap(), Language::TypeScript);
    assert_eq!(resolve_language("a.b/x.RS", None).unwrap(), Language::Rust);
    assert_eq!(resolve_language("x.py", Some("rust")).unwrap(), Language::Rust);
    assert_eq!(
        resolve_language("x", None).unwrap_err().message,
        "'x' has no extension; pass lang (rust|typescript)"
    );
    assert_eq!(
        resolve_language("dir/.hidden", None).unwrap_err().message,
        "'dir/.hidden' has no extension; pass lang (rust|typescript)"
    );
    assert_eq!(
        resolve_language("x.py", None).unwrap_err().message,
        "unsupported source extension '.py'; pass lang (supported: rs, ts)"
    );
    assert_eq!(
        resolve_language("x.rs", Some("go")).unwrap_err().message,
        "unsupported language 'go'; supported: rust, typescript"
    );
}

const RUST_SAMPLE: &str = r#"
struct Point {
    x: f64,
    y: f64,
}

enum Color {
    Red,
    Green,
    Blue,
}

trait Shape {
    fn area(&self) -> f64;
}

impl Shape for Point {
    fn area(&self) -> f64 {
        self.x * self.y
    }
}

fn compute(p: Point) -> f64 {
    let a = p.area();
    helper(a)
}

fn helper(v: f64) -> f64 {
    v + 1.0
}

use std::collections::HashMap;
"#;

#[test]
fn rust_lang_extract_class_kind() {
    let doc = diagram::codegen::rust_lang::extract(RUST_SAMPLE, diagram::codegen::CodeKind::Class).unwrap();
    assert_eq!(doc.primary().unwrap().kind(), diagram::ir::Kind::Class);
    let d = match doc.primary().unwrap() {
        diagram::ir::Diagram::Class(c) => c,
        _ => unreachable!(),
    };
    let names: Vec<&str> = d.classes.iter().map(|c| c.id.as_str()).collect();
    assert!(names.contains(&"Point"), "missing struct class: {names:?}");
    assert!(names.contains(&"Color"), "missing enum class: {names:?}");
    assert!(names.contains(&"Shape"), "missing trait class: {names:?}");
    assert!(d.relations.iter().any(|r| r.from == "Point" && r.to == "Shape"), "expected Point --|> Shape realization");
}

#[test]
fn rust_lang_extract_tree_kind() {
    let doc = diagram::codegen::rust_lang::extract(RUST_SAMPLE, diagram::codegen::CodeKind::Tree).unwrap();
    assert_eq!(doc.primary().unwrap().kind(), diagram::ir::Kind::Flowchart);
    let d = match doc.primary().unwrap() {
        diagram::ir::Diagram::Flowchart(f) => f,
        _ => unreachable!(),
    };
    let ids: Vec<&str> = d.nodes.iter().map(|n| n.id.as_str()).collect();
    assert!(ids.contains(&"Point"), "missing struct node: {ids:?}");
    assert!(ids.contains(&"Color"), "missing enum node: {ids:?}");
    assert!(ids.contains(&"Shape"), "missing trait node: {ids:?}");
    assert!(ids.iter().any(|i| i.starts_with("use::")));
}

#[test]
fn rust_lang_extract_call_kind() {
    let doc = diagram::codegen::rust_lang::extract(RUST_SAMPLE, diagram::codegen::CodeKind::Call).unwrap();
    assert_eq!(doc.primary().unwrap().kind(), diagram::ir::Kind::Flowchart);
    let d = match doc.primary().unwrap() {
        diagram::ir::Diagram::Flowchart(f) => f,
        _ => unreachable!(),
    };
    let ids: Vec<&str> = d.nodes.iter().map(|n| n.id.as_str()).collect();
    assert!(ids.contains(&"fn::compute"));
    assert!(ids.contains(&"fn::helper"));
    assert!(d.edges.iter().any(|e| e.from == "fn::compute" && e.to == "fn::helper"));
    assert!(d.edges.iter().any(|e| e.from == "fn::compute" && e.to == "fn::area"));
}

#[test]
fn parses_unparseable_with_helpful_error() {
    let doc = diagram::codegen::rust_lang::extract("", diagram::codegen::CodeKind::Tree).unwrap();
    assert!(matches!(doc.primary().unwrap(), diagram::ir::Diagram::Flowchart(_)));
}

#[test]
fn rust_lang_exact_members_and_uses() {
    let src = "struct P { x: i32 }\nimpl P { fn get(&self) -> i32 { self.x } }\nuse a::b::{c, d};\nuse std::fmt as f;\n";
    let doc = diagram::codegen::rust_lang::extract(src, diagram::codegen::CodeKind::Class).unwrap();
    let diagram::ir::Diagram::Class(c) = doc.primary().unwrap() else { panic!("expected class") };
    assert_eq!(c.classes[0].id, "P");
    assert_eq!(c.classes[0].members[0].text, "+x: i32");
    assert_eq!(c.classes[0].stereotype.as_deref(), Some("struct"));
    assert_eq!(c.classes[1].id, "impl P");
    assert_eq!(c.classes[1].members[0].text, "+get() i32");
    let doc = diagram::codegen::rust_lang::extract(src, diagram::codegen::CodeKind::Tree).unwrap();
    let diagram::ir::Diagram::Flowchart(f) = doc.primary().unwrap() else { panic!("expected flowchart") };
    let ids: Vec<&str> = f.nodes.iter().map(|n| n.id.as_str()).collect();
    assert_eq!(ids[0], "__root__");
    assert!(ids.contains(&"impl_P"));
    assert!(ids.contains(&"use::fmt"));
    assert!(f.edges.iter().any(|e| e.to == "impl_P" && e.label == "impl"));
}

const TS_SAMPLE: &str = r#"
export interface Shape {
    area(): number;
}

export class Circle implements Shape {
    constructor(public radius: number) {}
    area(): number {
        return Math.PI * this.radius * this.radius;
    }
}

export class Point {
    public x: number;
    public y: number;
}

export enum Color {
    Red,
    Green,
    Blue,
}

export function compute(p: Point): number {
    const a = p.area();
    return adjust(a, 1.0);
}

function adjust(v: number, by: number): number {
    return v + by;
}

import { HashMap } from "std-collections";
"#;

#[test]
fn typescript_lang_extract_class_kind() {
    let doc = diagram::codegen::typescript_lang::extract(TS_SAMPLE, CodeKind::Class).unwrap();
    assert_eq!(doc.primary().unwrap().kind(), diagram::ir::Kind::Class);
    let d = match doc.primary().unwrap() {
        diagram::ir::Diagram::Class(c) => c,
        _ => unreachable!(),
    };
    let names: Vec<&str> = d.classes.iter().map(|c| c.id.as_str()).collect();
    assert!(names.contains(&"Shape"), "missing interface: {names:?}");
    assert!(names.contains(&"Circle"), "missing class: {names:?}");
    assert!(names.contains(&"Point"), "missing class: {names:?}");
    assert!(names.contains(&"Color"), "missing enum: {names:?}");
    assert!(
        d.relations.iter().any(|r| r.from == "Circle" && r.to == "Shape" && r.kind == diagram::class::RelationKind::Realization),
        "expected Circle ..|> Shape realization"
    );
}

#[test]
fn typescript_lang_extract_tree_kind() {
    let doc = diagram::codegen::typescript_lang::extract(TS_SAMPLE, CodeKind::Tree).unwrap();
    assert_eq!(doc.primary().unwrap().kind(), diagram::ir::Kind::Flowchart);
    let d = match doc.primary().unwrap() {
        diagram::ir::Diagram::Flowchart(f) => f,
        _ => unreachable!(),
    };
    let ids: Vec<&str> = d.nodes.iter().map(|n| n.id.as_str()).collect();
    assert!(ids.contains(&"class::Circle"), "missing Circle: {ids:?}");
    assert!(ids.contains(&"interface::Shape"), "missing Shape: {ids:?}");
    assert!(ids.contains(&"enum::Color"), "missing Color: {ids:?}");
    assert!(ids.contains(&"fn::compute"));
    assert!(ids.iter().any(|i| i.starts_with("import::")));
}

#[test]
fn typescript_lang_extract_call_kind() {
    let doc = diagram::codegen::typescript_lang::extract(TS_SAMPLE, CodeKind::Call).unwrap();
    assert_eq!(doc.primary().unwrap().kind(), diagram::ir::Kind::Flowchart);
    let d = match doc.primary().unwrap() {
        diagram::ir::Diagram::Flowchart(f) => f,
        _ => unreachable!(),
    };
    let ids: Vec<&str> = d.nodes.iter().map(|n| n.id.as_str()).collect();
    assert!(ids.contains(&"fn::compute"));
    assert!(ids.contains(&"fn::adjust"));
    assert!(d.edges.iter().any(|e| e.from == "fn::compute" && e.to == "fn::adjust"));
}

#[test]
fn parses_empty_file() {
    let doc = diagram::codegen::typescript_lang::extract("", CodeKind::Tree).unwrap();
    assert!(matches!(doc.primary().unwrap(), diagram::ir::Diagram::Flowchart(_)));
}

#[test]
fn from_source_dispatches_and_reads_members() {
    let doc = diagram::codegen::from_source(TS_SAMPLE, Language::TypeScript, CodeKind::Class).unwrap();
    let diagram::ir::Diagram::Class(c) = doc.primary().unwrap() else { panic!("expected class") };
    let point = c.classes.iter().find(|x| x.id == "Point").unwrap();
    assert_eq!(point.members[0].text, "+x: number");
    assert_eq!(point.stereotype.as_deref(), Some("class"));
    let color = c.classes.iter().find(|x| x.id == "Color").unwrap();
    assert_eq!(color.members.len(), 3);
    let doc = diagram::codegen::from_source(TS_SAMPLE, Language::TypeScript, CodeKind::Tree).unwrap();
    let diagram::ir::Diagram::Flowchart(f) = doc.primary().unwrap() else { panic!("expected flowchart") };
    assert!(f.nodes.iter().any(|n| n.id == "import::HashMap" && n.text == "HashMap ← \"std-collections\""));
    let doc = diagram::codegen::from_source("fn a() { b(); }", Language::Rust, CodeKind::Call).unwrap();
    let diagram::ir::Diagram::Flowchart(f) = doc.primary().unwrap() else { panic!("expected flowchart") };
    assert!(f.nodes.iter().any(|n| n.id == "fn::b" && n.shape == diagram::diagram::NodeShape::Circle));
}
