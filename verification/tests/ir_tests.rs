use diagram::formats::mermaid::{parse, parse_to_document, split_mermaid_chunks};
use diagram::generate::{all_templates, parse_kind, scaffold_document, template_document, Template};
use diagram::ir::{info_lines, Document, Kind};

#[test]
fn parse_flowchart_kind() {
    let d = parse("graph TD\n  A-->B\n").unwrap();
    assert_eq!(d.kind(), Kind::Flowchart);
}

#[test]
fn parse_multi_chunk_document() {
    let src = "%% diagram 0: flowchart\ngraph TD\n  A-->B\n\n%% diagram 1: sequence\nsequenceDiagram\n  A->>B: hi\n";
    let doc = parse_to_document(src).unwrap();
    assert_eq!(doc.diagrams.len(), 2);
    assert_eq!(doc.diagrams[0].kind(), Kind::Flowchart);
    assert_eq!(doc.diagrams[1].kind(), Kind::Sequence);
}

#[test]
fn parse_state_kind() {
    let d = parse("stateDiagram-v2\n  [*] --> A\n").unwrap();
    assert_eq!(d.kind(), Kind::State);
}

#[test]
fn parse_er_kind() {
    let d = parse("erDiagram\n  A ||--o{ B : has\n").unwrap();
    assert_eq!(d.kind(), Kind::Er);
}

#[test]
fn scaffolds_parse_for_all_kinds() {
    for kind in [Kind::Flowchart, Kind::Sequence, Kind::Class, Kind::Gantt, Kind::State, Kind::Er] {
        let doc = scaffold_document(kind).unwrap();
        assert_eq!(doc.primary().unwrap().kind(), kind);
    }
}

#[test]
fn templates_parse_to_flowchart() {
    for t in all_templates() {
        let doc = template_document(t).unwrap();
        assert_eq!(doc.primary().unwrap().kind(), Kind::Flowchart);
    }
}

#[test]
fn template_parse_aliases() {
    assert_eq!(Template::parse("aws-3tier").unwrap(), Template::Aws3Tier);
    assert_eq!(Template::parse("AWS 3 Tier").unwrap(), Template::Aws3Tier);
    assert_eq!(Template::parse("gcp_microservices").unwrap(), Template::GcpMicroservices);
    assert_eq!(Template::parse("azure-hubspoke").unwrap(), Template::AzureHubSpoke);
    assert!(Template::parse("nope").is_err());
}

#[test]
fn parse_kind_words_and_error() {
    assert_eq!(parse_kind("Graph").unwrap(), Kind::Flowchart);
    assert_eq!(parse_kind("erDiagram").unwrap(), Kind::Er);
    assert_eq!(
        parse_kind("pie").unwrap_err(),
        "unknown kind 'pie'; expected flowchart, sequence, class, gantt, state, or er"
    );
}

#[test]
fn split_chunks_exact() {
    assert_eq!(split_mermaid_chunks("graph TD\n  A-->B\n"), vec!["graph TD\n  A-->B\n".to_string()]);
    assert_eq!(
        split_mermaid_chunks("%% diagram 0: flowchart\ngraph TD\n  A-->B\n\n%% diagram 1: state\nstateDiagram-v2\n"),
        vec!["graph TD\n  A-->B".to_string(), "stateDiagram-v2".to_string()]
    );
}

#[test]
fn document_mermaid_and_errors() {
    let doc = parse_to_document("%% diagram 0: flowchart\ngraph TD\n  A-->B\n%% diagram 1: state\nstateDiagram-v2\n  [*] --> S\n").unwrap();
    let out = doc.to_mermaid().unwrap();
    assert!(out.starts_with("%% diagram 0: flowchart\ngraph TB\n"));
    assert!(out.contains("\n\n%% diagram 1: state\nstateDiagram-v2\n"));
    let again = parse_to_document(&out).unwrap();
    assert_eq!(again.diagrams.len(), 2);
    let err = parse_to_document("stateDiagram-v2\n  nonsense here\n").unwrap_err();
    assert_eq!(err.message, "line 2: unrecognized state diagram line: nonsense here");
    let empty = Document { version: 1, diagrams: vec![] };
    assert_eq!(empty.to_mermaid().unwrap_err(), "document has no diagrams");
}

#[test]
fn info_lines_single_and_multi() {
    let doc = parse_to_document("graph LR\n  A[x] --> B{y}\n").unwrap();
    let lines = info_lines("f.mmd", &doc);
    assert_eq!(lines[0], "File: f.mmd");
    assert_eq!(lines[1], "IR version: 1");
    assert_eq!(lines[2], "Diagrams: 1");
    assert_eq!(lines[3], "Kind: flowchart");
    assert_eq!(lines[4], "Direction: LR");
    assert_eq!(lines[5], "Nodes: 2");
    assert_eq!(lines[6], "  rect:     1");
    assert_eq!(lines[7], "  diamond:  1");
    assert_eq!(lines[12], "Edges: 1");
    let multi = parse_to_document("%% diagram 0: a\nsequenceDiagram\n  A->>B: hi\n%% diagram 1: b\ngantt\n  title T\n").unwrap();
    let lines = info_lines("m.mmd", &multi);
    assert_eq!(
        lines[3..].to_vec(),
        vec!["Diagram 0: sequence", "Participants: 2", "Messages: 1", "Diagram 1: gantt", "Title: T", "Tasks: 0"]
    );
}

#[test]
fn document_of_flowcharts_reads_back() {
    let a = parse("graph TD\n    A[start] --> B(end)\n").unwrap();
    let b = parse("graph LR\n    X -->|go| Y\n    Y -.-> Z\n").unwrap();
    let doc = Document::single(a);
    let mut doc = doc;
    doc.diagrams.push(b);
    let text = doc.to_mermaid().unwrap();
    let back = parse_to_document(&text).unwrap();
    assert_eq!(back.diagrams.len(), 2);
    let chunks = split_mermaid_chunks(&text);
    assert_eq!(chunks.len(), 2);
    for (x, y) in back.diagrams.iter().zip(doc.diagrams.iter()) {
        match (x, y) {
            (diagram::ir::Diagram::Flowchart(f), diagram::ir::Diagram::Flowchart(g)) => {
                let nodes = |d: &diagram::diagram::Diagram| d.nodes.iter().map(|n| (n.id.clone(), n.text.clone(), n.shape)).collect::<Vec<_>>();
                let edges = |d: &diagram::diagram::Diagram| d.edges.iter().map(|e| (e.from.clone(), e.to.clone(), e.label.clone(), e.style)).collect::<Vec<_>>();
                assert_eq!(nodes(f), nodes(g));
                assert_eq!(edges(f), edges(g));
            }
            _ => panic!("expected flowcharts"),
        }
    }
}
