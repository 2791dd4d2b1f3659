use diagram::analyze::{
    class_metrics, diff_documents, flowchart_metrics, gantt_metrics, metrics, shape_counts, DiffDetail, MetricsDetail,
};
use diagram::ir::{from_mermaid, Diagram, Document};

fn primary(src: &str) -> Diagram {
    from_mermaid(src).unwrap().primary().unwrap().clone()
}

#[test]
fn diff_flowchart_detects_node_and_edge_changes() {
    let left = from_mermaid("graph TD\n  A-->B\n").unwrap();
    let right = from_mermaid("graph TD\n  A-->B\n  A-->C\n").unwrap();
    let d = diff_documents(&left, &right);
    assert!(!d.unchanged);
    assert_eq!(d.entries.len(), 1);
    assert_eq!(d.entries[0].status, "changed");
    let Some(DiffDetail::Flowchart(fc)) = &d.entries[0].detail else {
        panic!("expected flowchart diff");
    };
    assert_eq!(fc.added_edges.len(), 1);
    assert_eq!(fc.added_edges[0].to, "C");
}

#[test]
fn diff_identical_documents_unchanged() {
    let doc = from_mermaid("graph TD\n  A-->B\n").unwrap();
    let d = diff_documents(&doc, &doc);
    assert!(d.unchanged);
    assert_eq!(d.entries[0].status, "unchanged");
}

#[test]
fn diff_sequence_participant_change() {
    let left = from_mermaid("sequenceDiagram\n  A->>B: hi\n").unwrap();
    let right = from_mermaid("sequenceDiagram\n  participant C\n  A->>B: hi\n").unwrap();
    let d = diff_documents(&left, &right);
    let Some(DiffDetail::Sequence(s)) = &d.entries[0].detail else {
        panic!("expected sequence diff");
    };
    assert!(s.added_participants.contains(&"C".to_string()));
}

#[test]
fn diff_document_count_change() {
    let one = from_mermaid("graph TD\n  A-->B\n").unwrap();
    let two = Document {
        version: 1,
        diagrams: vec![one.primary().unwrap().clone(), primary("sequenceDiagram\n  A->>B: hi\n")],
    };
    let d = diff_documents(&one, &two);
    assert!(d.diagram_count_changed);
    assert_eq!(d.entries.len(), 2);
    assert_eq!(d.entries[1].status, "added");
}

#[test]
fn diff_summary_lines() {
    let one = from_mermaid("graph TD\n  A-->B\n").unwrap();
    let two = Document {
        version: 1,
        diagrams: vec![primary("sequenceDiagram\n  A->>B: hi\n"), primary("graph TD\n  A-->B\n")],
    };
    let d = diff_documents(&one, &two);
    assert_eq!(
        d.summary,
        vec![
            "diagram count changed: 1 → 2".to_string(),
            "diagram 0: kind changed flowchart → sequence".to_string(),
            "diagram 1: added (flowchart)".to_string(),
        ]
    );
    assert_eq!(d.entries[0].status, "kind_changed");
    assert!(d.entries[0].detail.is_none());
    let back = diff_documents(&two, &one);
    assert_eq!(back.entries[1].status, "removed");
    assert_eq!(back.summary[2], "diagram 1: removed (flowchart)");
}

#[test]
fn diff_state_er_gantt() {
    let l = from_mermaid("stateDiagram-v2\n  [*] --> A\n  A --> B\n").unwrap();
    let r = from_mermaid("stateDiagram-v2\n  [*] --> A\n  A --> C\n").unwrap();
    let d = diff_documents(&l, &r);
    let Some(DiffDetail::State(s)) = &d.entries[0].detail else {
        panic!("expected state diff");
    };
    assert_eq!(s.added_states, vec!["C".to_string()]);
    assert_eq!(s.removed_states, vec!["B".to_string()]);
    assert_eq!(s.added_transitions.len(), 1);
    assert_eq!(s.removed_transitions[0].to, "B");
    assert_eq!(d.summary, vec!["diagram 0: changed (state)".to_string()]);

    let l = from_mermaid("erDiagram\n  A ||--o{ B : has\n").unwrap();
    let r = from_mermaid("erDiagram\n  A ||--|{ B : has\n").unwrap();
    let d = diff_documents(&l, &r);
    let Some(DiffDetail::Er(e)) = &d.entries[0].detail else {
        panic!("expected er diff");
    };
    assert!(e.added_entities.is_empty());
    assert_eq!(e.added_relationships.len(), 1);
    assert_eq!(e.removed_relationships.len(), 1);

    let g1 = "gantt\n  title T\n  dateFormat YYYY-MM-DD\n  section S\n  One :a1, 2024-01-01, 3d\n";
    let g2 = "gantt\n  title U\n  dateFormat YYYY-MM-DD\n  section S\n  One :a1, 2024-01-01, 3d\n  Two :a2, 2024-01-05, 1d\n";
    let d = diff_documents(&from_mermaid(g1).unwrap(), &from_mermaid(g2).unwrap());
    let Some(DiffDetail::Gantt(g)) = &d.entries[0].detail else {
        panic!("expected gantt diff");
    };
    assert!(g.title_changed);
    assert_eq!(g.added_tasks, vec!["a2".to_string()]);
    assert!(g.removed_tasks.is_empty());
}

#[test]
fn flowchart_metrics_orphans_and_cycles() {
    let doc = from_mermaid("graph TD\n  A-->B\n  B-->A\n  C[alone]\n").unwrap();
    let m = metrics(&doc).unwrap();
    assert_eq!(m.kind, "flowchart");
    let MetricsDetail::Flowchart(fc) = m.detail else {
        panic!("expected flowchart metrics");
    };
    assert_eq!(fc.nodes, 3);
    assert_eq!(fc.edges, 2);
    assert_eq!(fc.orphans, 1);
    let orphan_rate = fc.orphans as f64 / fc.nodes as f64;
    assert!((orphan_rate - 1.0 / 3.0).abs() < 0.001);
    assert!(!fc.cycles.is_empty());
}

#[test]
fn flowchart_max_depth_on_dag() {
    let doc = from_mermaid("graph TD\n  A-->B\n  B-->C\n").unwrap();
    let MetricsDetail::Flowchart(fc) = metrics(&doc).unwrap().detail else {
        panic!("expected flowchart metrics");
    };
    assert_eq!(fc.max_depth, 2);
    assert_eq!(fc.sources, 1);
    assert_eq!(fc.sinks, 1);
}

#[test]
fn sequence_metrics_counts() {
    let doc = from_mermaid("sequenceDiagram\n  A->>B: hi\n  B-->>A: bye\n").unwrap();
    let MetricsDetail::Sequence(s) = metrics(&doc).unwrap().detail else {
        panic!("expected sequence");
    };
    assert_eq!(s.participants, 2);
    assert_eq!(s.messages, 2);
    assert_eq!(s.solid_messages, 1);
    assert_eq!(s.dashed_messages, 1);
}

#[test]
fn multi_document_metrics_entries() {
    let doc = from_mermaid("graph TD\n  A-->B\n").unwrap();
    let doc2 = Document {
        version: 1,
        diagrams: vec![doc.primary().unwrap().clone(), primary("sequenceDiagram\n  A->>B: hi\n")],
    };
    let m = metrics(&doc2).unwrap();
    assert_eq!(m.kind, "multi");
    assert_eq!(m.entries.as_ref().unwrap().len(), 2);
}

#[test]
fn state_metrics_counts() {
    let doc = from_mermaid("stateDiagram-v2\n  [*] --> A\n  A --> B\n  state check <<choice>>\n").unwrap();
    let MetricsDetail::State(s) = metrics(&doc).unwrap().detail else {
        panic!("expected state metrics");
    };
    assert!(s.states >= 2);
    assert_eq!(s.transitions, 2);
    assert!(s.start_end_nodes >= 1);
    assert_eq!(s.choice_nodes, 1);
}

#[test]
fn er_metrics_counts() {
    let doc = from_mermaid("erDiagram\n  CUSTOMER ||--o{ ORDER : places\n  CUSTOMER {\n    string name PK\n  }\n").unwrap();
    let MetricsDetail::Er(e) = metrics(&doc).unwrap().detail else {
        panic!("expected er metrics");
    };
    assert_eq!(e.entities, 2);
    assert_eq!(e.relationships, 1);
    assert_eq!(e.attributes, 1);
}

#[test]
fn metrics_empty_document_and_depth_past_nodes() {
    let m = metrics(&Document { version: 1, diagrams: vec![] }).unwrap();
    assert_eq!(m.kind, "none");
    assert_eq!(m.diagrams, 0);
    let Diagram::Flowchart(f) = primary("graph LR\n  A-->B\n  B-->C\n  C-->D\n  A-->D\n  E\n") else {
        panic!("expected flowchart");
    };
    let fm = flowchart_metrics(&f);
    assert_eq!(fm.max_depth, 3);
    assert_eq!(fm.sources, 2);
    assert_eq!(fm.sinks, 2);
    assert_eq!(fm.orphans, 1);
    assert_eq!(fm.direction, "LR");
    assert!(fm.cycles.is_empty());
}

#[test]
fn class_and_gantt_metrics() {
    let Diagram::Class(c) = primary("classDiagram\n  class A {\n    +int x\n    +run()\n  }\n  A <|-- B\n") else {
        panic!("expected class");
    };
    let m = class_metrics(&c).unwrap();
    assert_eq!(m.classes, 2);
    assert_eq!(m.relations, 1);
    assert_eq!(m.members, 2);

    let g = "gantt\n  dateFormat YYYY-MM-DD\n  section S\n  One :crit, a1, 2024-01-01, 3d\n  section T\n  Two :done, a2, 2024-01-05, 2d\n  Three :a3, 2024-01-02, 1d\n";
    let Diagram::Gantt(g) = primary(g) else {
        panic!("expected gantt");
    };
    let m = gantt_metrics(&g).unwrap();
    assert_eq!(m.tasks, 3);
    assert_eq!(m.sections, 2);
    assert_eq!(m.span_days, 6);
    assert_eq!(m.critical_tasks, 1);
    assert_eq!(m.done_tasks, 1);
    assert_eq!(m.active_tasks, 0);
}

#[test]
fn flowchart_shape_counts() {
    let Diagram::Flowchart(f) = primary("graph TD\n  A[a] --> B{b}\n  B --> C((c))\n  D[d]\n") else {
        panic!("expected flowchart");
    };
    let c = shape_counts(&f);
    assert_eq!(c.rect, 2);
    assert_eq!(c.diamond, 1);
    assert_eq!(c.circle, 1);
    assert_eq!(c.stadium + c.hexagon + c.cylinder, 0);
}
