use diagram::diagram::{EdgeStyle, NodeShape};
use diagram::formats::d2::{export_document, is_d2, parse, parse_to_document};
use diagram::ir::{Diagram as IrDiagram, Kind};

#[test]
fn is_d2_distinguishes_mermaid_and_dot() {
    assert!(!is_d2("graph TD\n  A-->B\n"));
    assert!(!is_d2("digraph G { A -> B }"));
    assert!(is_d2("direction: right\na -> b\n"));
    assert!(is_d2("start -> end: go\n"));
}

#[test]
fn parse_basic_flow() {
    let src = r#"
direction: down
start: Start { shape: oval }
check: Is it working? { shape: diamond }
great: Great!
debug: Debug
end: End

start -> check
check -> great: Yes
check -> debug: No
debug -> check
great -> end
"#;
    let d = parse(src).unwrap();
    assert_eq!(d.rankdir, "TD");
    assert!(d.nodes.len() >= 5);
    assert_eq!(d.edges.len(), 5);
    let check = d.nodes.iter().find(|n| n.id == "check").unwrap();
    assert_eq!(check.shape, NodeShape::Diamond);
    assert_eq!(check.text, "Is it working?");
    assert_eq!(d.edges[1].label, "Yes");
}

#[test]
fn d2_export_import_roundtrip() {
    let src = r#"direction: right
a: Alpha
b: Beta { shape: hexagon }
a -> b: link
"#;
    let doc1 = parse_to_document(src).unwrap();
    let out = export_document(&doc1).unwrap();
    let doc2 = parse_to_document(&out).unwrap();
    let IrDiagram::Flowchart(d1) = doc1.primary().unwrap() else {
        panic!("expected flowchart");
    };
    let IrDiagram::Flowchart(d2) = doc2.primary().unwrap() else {
        panic!("expected flowchart");
    };
    assert_eq!(d1.nodes.len(), d2.nodes.len());
    assert_eq!(d1.edges.len(), d2.edges.len());
    assert_eq!(d1.edges[0].label, d2.edges[0].label);
    assert_eq!(d1.rankdir, "LR");
    assert_eq!(d2.rankdir, "LR");
}

#[test]
fn d2_parse_to_document_kind() {
    let doc = parse_to_document("x -> y\n").unwrap();
    assert_eq!(doc.primary().unwrap().kind(), Kind::Flowchart);
}

#[test]
fn parse_dashed_edge_block() {
    let src = "a -> b: retry {\n  style.stroke-dash: 3\n}\n";
    let d = parse(src).unwrap();
    assert_eq!(d.edges.len(), 1);
    assert_eq!(d.edges[0].style, EdgeStyle::Dashed);
    assert_eq!(d.edges[0].label, "retry");
}

#[test]
fn d2_export_basic_flowchart() {
    let src = "graph TD\n  A[Start] --> B{Check}\n  A --> C[End]\n";
    let doc = diagram::formats::import_str(src, diagram::formats::TextFormat::Mermaid).unwrap();
    let out = export_document(&doc).unwrap();
    assert!(out.contains("A"));
    assert!(out.contains("->"));
    assert!(out.contains("shape: diamond") || out.contains("B"));
}
