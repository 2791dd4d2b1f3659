use diagram::diagram::{Diagram as FcDiagram, Node, NodeShape};
use diagram::formats::Format;
use diagram::ir::{self, Document};
use diagram::lossiness::{report, summary_line};

#[test]
fn json_export_is_lossless() {
    let doc = ir::from_mermaid("graph TD\n  A-->B\n").unwrap();
    let r = report(&doc, Format::JsonIr);
    assert!(r.export_supported);
    assert!(r.lossless);
    assert!(r.warnings.is_empty());
}

#[test]
fn plantuml_export_sequence_supported() {
    let doc = ir::from_mermaid("sequenceDiagram\n  A->>B: hi\n").unwrap();
    let r = report(&doc, Format::PlantUml);
    assert!(r.export_supported);
    assert!(r.lossless);
}

#[test]
fn plantuml_export_rejects_flowchart_only() {
    let doc = ir::from_mermaid("graph TD\n  A-->B\n").unwrap();
    let r = report(&doc, Format::PlantUml);
    assert!(!r.export_supported);
    assert_eq!(r.warnings[0].code, "format.unsupported_export");
}

#[test]
fn dot_export_flowchart_supported() {
    let doc = ir::from_mermaid("graph TD\n  A-->B\n").unwrap();
    let r = report(&doc, Format::Dot);
    assert!(r.export_supported);
    assert!(r.lossless);
}

#[test]
fn dot_export_rejects_sequence_only() {
    let doc = ir::from_mermaid("sequenceDiagram\n  A->>B: hi\n").unwrap();
    let r = report(&doc, Format::Dot);
    assert!(!r.export_supported);
    assert_eq!(r.warnings[0].code, "format.unsupported_export");
}

fn linked_doc() -> Document {
    let mut fc = FcDiagram::new("TD");
    fc.add_node(Node {
        id: "A".into(),
        text: "A".into(),
        shape: NodeShape::Rect,
        href: Some("https://example.com".into()),
        tooltip: None,
    })
    .unwrap();
    Document::single(ir::Diagram::Flowchart(fc))
}

#[test]
fn mermaid_reports_href_loss() {
    let doc = linked_doc();
    let r = report(&doc, Format::Mermaid);
    assert!(r.export_supported);
    assert!(!r.lossless);
    assert!(r.warnings.iter().any(|w| w.code == "flowchart.node.href"));
}

#[test]
fn multi_diagram_info_warning_only() {
    let doc = Document {
        version: 1,
        diagrams: vec![
            ir::from_mermaid("graph TD\n  A-->B\n")
                .unwrap()
                .primary()
                .unwrap()
                .clone(),
            ir::from_mermaid("sequenceDiagram\n  A->>B: hi\n")
                .unwrap()
                .primary()
                .unwrap()
                .clone(),
        ],
    };
    let r = report(&doc, Format::Mermaid);
    assert!(r.export_supported);
    assert!(r.lossless);
    assert!(r.warnings.iter().any(|w| w.code == "document.multi_diagram_markers"));
    assert_eq!(summary_line(&r), None);
}

#[test]
fn summary_line_counts_real_losses() {
    let r = report(&linked_doc(), Format::Mermaid);
    assert_eq!(
        summary_line(&r).as_deref(),
        Some("lossiness: 1 warning(s) \u{2014} run `diagram lossiness` for details")
    );
    let doc = ir::from_mermaid("sequenceDiagram\n  A->>B: hi\n").unwrap();
    let blocked = report(&doc, Format::DrawIo);
    assert_eq!(
        summary_line(&blocked).as_deref(),
        Some("export blocked: draw.io export supports flowchart diagrams only")
    );
    let empty = Document { version: 1, diagrams: vec![] };
    let r = report(&empty, Format::Mermaid);
    assert!(!r.lossless);
    assert_eq!(r.warnings[0].code, "document.empty");
}

#[test]
fn dot_reports_styles_and_mixed_documents() {
    let flow = ir::from_mermaid("graph TD\n  A-->B\n  style A fill:#f00\n").unwrap();
    let seq = ir::from_mermaid("sequenceDiagram\n  A->>B: hi\n").unwrap();
    let doc = Document {
        version: 1,
        diagrams: vec![flow.primary().unwrap().clone(), seq.primary().unwrap().clone()],
    };
    let r = report(&doc, Format::Dot);
    assert!(r.export_supported);
    assert!(!r.lossless);
    let codes: Vec<&str> = r.warnings.iter().map(|w| w.code.as_str()).collect();
    assert_eq!(
        codes,
        vec!["document.non_flowchart_skipped", "document.multi_diagram_blocks", "flowchart.styles"]
    );
    assert_eq!(r.warnings[0].count, Some(1));
    assert_eq!(r.warnings[2].diagram_index, Some(0));
    assert_eq!(r.warnings[2].kind.as_deref(), Some("flowchart"));
    assert_eq!(r.diagram_count, 2);
}

#[test]
fn plantuml_export_ok_means_supported_for_sequence_documents() {
    let doc = diagram::formats::import_str("@startuml\nAlice -> Bob: hi\n@enduml", diagram::formats::TextFormat::PlantUml).unwrap();
    assert!(diagram::formats::export_str(&doc, diagram::formats::TextFormat::PlantUml).is_ok());
    let r = report(&doc, Format::PlantUml);
    assert!(r.export_supported);
    assert!(r.warnings.iter().all(|w| w.code != "format.unsupported_export"));
}
