use diagram::diagram::{NodeShape, NodeStyle};
use diagram::formats::dot::{export_document, is_dot, parse, parse_to_document};
use diagram::ir::{Diagram as IrDiagram, Document, Kind};

#[test]
fn is_dot_distinguishes_mermaid() {
    assert!(is_dot("digraph G { A -> B }"));
    assert!(!is_dot("graph TD\n  A-->B"));
    assert!(!is_dot("flowchart LR\n  A-->B"));
}

#[test]
fn parse_minimal_cases() {
    assert!(parse(r#"digraph G { A [label="Start"]; }"#).is_ok());
    assert!(parse(r#"digraph G { A -> B; }"#).is_ok());
    assert!(parse(r#"digraph { rankdir=LR; A -> B; }"#).is_ok());
    assert!(parse(r#"digraph G { B [label="End", shape=diamond]; }"#).is_ok());
    assert!(parse(r#"digraph G { A -> B [label="go"]; }"#).is_ok());
    assert!(parse(r#"digraph { A -> B -> C; }"#).is_ok());
    assert!(parse(r#"digraph G { A [label="Start"]; A -> B [label="go"]; }"#).is_ok());
}

#[test]
fn parse_basic_digraph() {
    let d = parse(
        r#"digraph G {
            A [label="Start"];
            B [label="End", shape=diamond];
            A -> B [label="go"];
        }"#,
    )
    .unwrap();
    assert_eq!(d.nodes.len(), 2);
    assert_eq!(d.edges.len(), 1);
    assert_eq!(d.edges[0].label, "go");
    assert_eq!(d.nodes[1].shape, NodeShape::Diamond);
}

#[test]
fn parse_chained_edges_and_rankdir() {
    let d = parse(
        r#"digraph {
            rankdir=LR;
            A -> B -> C;
        }"#,
    )
    .unwrap();
    assert_eq!(d.rankdir, "LR");
    assert_eq!(d.edges.len(), 2);
    assert_eq!(d.nodes.len(), 3);
}

#[test]
fn parse_subgraph() {
    let d = parse(
        r#"digraph G {
            subgraph cluster_0 {
                A; B;
                A -> B;
            }
            B -> C;
        }"#,
    )
    .unwrap();
    assert_eq!(d.subgraphs.len(), 1);
    assert!(d.subgraphs[0].nodes.contains(&"A".to_string()));
    assert_eq!(d.edges.len(), 2);
}

#[test]
fn dot_parse_to_document_kind() {
    let doc = parse_to_document("digraph { X -> Y }").unwrap();
    assert_eq!(doc.primary().unwrap().kind(), Kind::Flowchart);
}

#[test]
fn implicit_nodes_from_edges() {
    let d = parse("digraph { foo -> bar }").unwrap();
    assert_eq!(d.nodes.len(), 2);
    assert!(d.nodes.iter().any(|n| n.id == "foo"));
}

#[test]
fn dot_export_basic_flowchart() {
    let d = parse(
        r#"digraph G {
            A [label="Start"];
            B [label="End", shape=diamond];
            A -> B [label="go"];
        }"#,
    )
    .unwrap();
    let doc = Document::single(IrDiagram::Flowchart(d));
    let out = export_document(&doc).unwrap();
    assert!(out.contains("digraph G"));
    assert!(out.contains("label=\"Start\""));
    assert!(out.contains("shape=diamond"));
    assert!(out.contains("label=\"go\""));
}

#[test]
fn dot_export_import_roundtrip() {
    let src = r#"digraph flow {
            rankdir=LR;
            Start [label="Start", shape=box];
            End [label="End", shape=diamond];
            Start -> End [label="go"];
        }"#;
    let doc = parse_to_document(src).unwrap();
    let out = export_document(&doc).unwrap();
    let doc2 = parse_to_document(&out).unwrap();
    let IrDiagram::Flowchart(d1) = doc.primary().unwrap() else {
        panic!("expected flowchart");
    };
    let IrDiagram::Flowchart(d2) = doc2.primary().unwrap() else {
        panic!("expected flowchart");
    };
    assert_eq!(d1.nodes.len(), d2.nodes.len());
    assert_eq!(d1.edges.len(), d2.edges.len());
    assert_eq!(d1.edges[0].label, d2.edges[0].label);
    assert_eq!(d1.nodes[1].shape, d2.nodes[1].shape);
}

#[test]
fn parse_fillcolor_and_url() {
    let d = parse(
        r##"digraph G {
            A [label="Start", fillcolor="#ffcccc", color="#333333", fontcolor="#111111", URL="https://example.com"];
            B [label="End"];
            A -> B;
        }"##,
    )
    .unwrap();
    let a = d.nodes.iter().find(|n| n.id == "A").unwrap();
    assert_eq!(a.href.as_deref(), Some("https://example.com"));
    assert_eq!(d.styles.len(), 1);
    assert!(d.styles[0].properties.contains("fill:#ffcccc"));
    assert!(d.styles[0].properties.contains("stroke:#333333"));
    assert!(d.styles[0].properties.contains("color:#111111"));
}

#[test]
fn export_styles_and_href() {
    let mut d = parse(r#"digraph G { A [label="A"]; B; A -> B; }"#).unwrap();
    d.nodes[0].href = Some("https://example.com".into());
    d.styles.push(NodeStyle {
        node_id: "A".into(),
        properties: "fill:#eee,stroke:#000,color:#111".into(),
    });
    let doc = Document::single(IrDiagram::Flowchart(d));
    let out = export_document(&doc).unwrap();
    assert!(out.contains("URL=\"https://example.com\""));
    assert!(out.contains("fillcolor=\"#eee\""));
    assert!(out.contains("style=filled"));
    assert!(out.contains("color=\"#000\""));
    assert!(out.contains("fontcolor=\"#111\""));
}

#[test]
fn dot_errors_and_exact_output() {
    assert_eq!(parse("flowchart").unwrap_err().message, "DOT: expected digraph or graph");
    assert_eq!(parse("digraph G { A -> ; }").unwrap_err().message, "DOT: expected identifier");
    assert_eq!(parse("digraph G { A [label=\"x] }").unwrap_err().message, "DOT: unterminated attribute value");
    assert_eq!(parse("digraph G { A:port }").unwrap_err().message, "DOT: port identifiers not supported");
    assert_eq!(parse("digraph G { A ").unwrap_err().message, "DOT: expected '}'");
    let d = parse("graph { /* c */ a -- b // x\n }").unwrap();
    assert_eq!(d.edges.len(), 1);
    let doc = Document::single(IrDiagram::Flowchart(parse("digraph { rankdir=lr; a -> \"b c\" [style=dashed]; }").unwrap()));
    assert_eq!(
        export_document(&doc).unwrap(),
        "digraph G {\n    rankdir=LR;\n    a;\n    \"b c\";\n    a -> \"b c\" [style=dashed];\n}\n"
    );
    let seq = Document::single(IrDiagram::Sequence(diagram::sequence::parse("sequenceDiagram\n A->>B: hi\n").unwrap()));
    assert_eq!(export_document(&seq).unwrap_err().message, "DOT export supports flowchart diagrams only");
}
