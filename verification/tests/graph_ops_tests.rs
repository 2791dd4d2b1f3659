use diagram::diagram::DiagramDiff;
use diagram::parser::parse;

#[test]
fn test_diff_and_merge() {
    let left = "graph TD\n    A[Start] --> B[End]\n";
    let right = "graph TD\n    A[Start] --> B[Done]\n    A --> C[New]\n";
    let d_left = diagram::parser::parse(left).unwrap();
    let d_right = diagram::parser::parse(right).unwrap();

    let diff: DiagramDiff = d_left.diff(&d_right);
    assert_eq!(diff.added_nodes.len(), 1);
    assert_eq!(diff.added_nodes[0].id, "C");
    assert_eq!(diff.modified_nodes.len(), 1);
    assert_eq!(diff.modified_nodes[0].0.id, "B");
    assert_eq!(diff.modified_nodes[0].1.text, "Done");
    assert_eq!(diff.added_edges.len(), 1);
    assert_eq!(diff.added_edges[0].from, "A");
    assert_eq!(diff.added_edges[0].to, "C");

    let merged = d_left.merge(&d_right);
    assert!(merged.nodes.iter().any(|n| n.id == "C"));
    assert!(merged.edges.iter().any(|e| e.from == "A" && e.to == "C"));
    assert_eq!(merged.nodes.iter().find(|n| n.id == "B").unwrap().text, "End");
}

#[test]
fn validate_reports_in_order() {
    let d = parse("graph TD\n    A --> B\n    B --> A\n    C[alone]\n    A --> Z\n").unwrap();
    let issues = d.validate();
    assert!(issues.iter().any(|i| i.starts_with("cycle detected")));
    assert!(issues.contains(&"orphaned node: 'C' has no edges".to_string()));
    let d = parse("graph TD\n    A --> B\n    B --> C\n    C --> A\n").unwrap();
    assert_eq!(d.validate(), vec!["cycle detected: A -> B -> C".to_string()]);
    let d = parse("graph TD\n    A --> B\n").unwrap();
    assert!(d.validate().is_empty());
}

#[test]
fn diff_removed_and_rankdir() {
    let a = parse("graph TD\n    A --> B\n    B --> C\n").unwrap();
    let b = parse("graph LR\n    A --> B\n").unwrap();
    let d = a.diff(&b);
    assert!(d.rankdir_changed);
    assert_eq!(d.removed_nodes.len(), 1);
    assert_eq!(d.removed_nodes[0].id, "C");
    assert_eq!(d.removed_edges.len(), 1);
    assert_eq!(d.removed_edges[0].to, "C");
    let same = a.diff(&a);
    assert!(same.added_nodes.is_empty() && same.removed_nodes.is_empty() && same.modified_nodes.is_empty());
    assert!(!same.rankdir_changed);
    let m = b.merge(&a);
    assert_eq!(m.rankdir, "TB");
    assert_eq!(m.nodes.len(), 3);
    assert_eq!(m.edges.len(), 2);
}

#[test]
fn merge_with_itself_changes_nothing() {
    let a = diagram::parser::parse("graph LR\n    A[Start] --> B{Check}\n    B -->|yes| C\n    style A fill:#f9f\n    linkStyle 0 stroke:#ff3\n").unwrap();
    let m = a.merge(&a);
    assert_eq!(m.rankdir, a.rankdir);
    assert_eq!(m.to_mermaid(), a.to_mermaid());
    assert_eq!(m.nodes.len(), 3);
    assert_eq!(m.edges.len(), 2);
    assert_eq!(m.link_styles.len(), 1);
}
