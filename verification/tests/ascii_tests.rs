use diagram::ascii::{layer_lists, render_document};
use diagram::ir::{from_mermaid, Diagram, Document};

fn primary(src: &str) -> Diagram {
    from_mermaid(src).unwrap().primary().unwrap().clone()
}

#[test]
fn flowchart_ascii_has_boxes_and_arrows() {
    let doc = from_mermaid("graph TD\n    A[Start] --> B[End]\n").unwrap();
    let out = render_document(&doc);
    assert!(out.contains('+'));
    assert!(out.contains('|'));
    assert!(out.contains("Start"));
    assert!(out.contains("End"));
}

#[test]
fn flowchart_ascii_multilayer() {
    let doc = from_mermaid("graph TD\n    A[Alpha] --> B[Beta]\n    B --> C[Gamma]\n").unwrap();
    let out = render_document(&doc);
    let plus_count = out.matches('+').count();
    assert!(plus_count >= 6, "expected >=6 box corners, got {plus_count}");
    assert!(out.contains("Alpha"));
    assert!(out.contains("Gamma"));
}

#[test]
fn sequence_outline() {
    let doc = from_mermaid("sequenceDiagram\n    A->>B: hi\n").unwrap();
    let out = render_document(&doc);
    assert!(out.contains("sequenceDiagram"));
    assert!(out.contains("A ->> B: hi"));
}

#[test]
fn empty_document() {
    let doc = Document { version: 1, diagrams: vec![] };
    let out = render_document(&doc);
    assert!(out.contains("empty"));
}

#[test]
fn multi_diagram_markers() {
    let doc = Document {
        version: 1,
        diagrams: vec![primary("graph TD\n    A-->B\n"), primary("sequenceDiagram\n    A->>B: x\n")],
    };
    let out = render_document(&doc);
    assert!(out.contains("// diagram 0: flowchart"));
    assert!(out.contains("// diagram 1: sequence"));
}

#[test]
fn ascii_exact_two_boxes() {
    let doc = from_mermaid("graph TD\n    A[Start] --> B[End]\n").unwrap();
    assert_eq!(
        render_document(&doc),
        "+-------+\n| Start |\n+-------+\n |\n+------+\n| End  |\n+------+\n"
    );
}

#[test]
fn ascii_labels_fanout_and_truncation() {
    let doc = from_mermaid("graph TD\n    A -->|a very long label| B\n    C --> D\n    C --> E\n").unwrap();
    let out = render_document(&doc);
    assert!(out.contains(" |a very lo…|"));
    assert!(out.contains(" |×2"));
    let Diagram::Flowchart(f) = doc.primary().unwrap().clone() else {
        panic!("expected flowchart");
    };
    let layers = layer_lists(&f);
    assert_eq!(layers, vec![vec!["A".to_string(), "C".to_string()], vec!["B".to_string(), "D".to_string(), "E".to_string()]]);
}

#[test]
fn ascii_cycle_is_capped() {
    let Diagram::Flowchart(f) = primary("graph TD\n    A --> B\n    B --> A\n") else {
        panic!("expected flowchart");
    };
    let layers = layer_lists(&f);
    assert_eq!(layers, vec![vec!["A".to_string()], vec!["B".to_string()]]);
}

#[test]
fn ascii_outlines() {
    let out = render_document(&from_mermaid("stateDiagram-v2\n  [*] --> A\n  A --> B : go\n").unwrap());
    assert_eq!(out, "stateDiagram-v2\n  [*] --> A\n  A --> B : go\n");
    let out = render_document(&from_mermaid("erDiagram\n  A ||--o{ B : has\n").unwrap());
    assert!(out.contains("  A 1--0..* B : has\n"));
}
