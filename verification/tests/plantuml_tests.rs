use diagram::class::RelationKind;
use diagram::diagram::NodeShape;
use diagram::formats::plantuml::{export_document, is_plantuml, parse_to_document};
use diagram::ir::{Diagram, Kind};
use diagram::sequence::{self, MessageArrow, NotePlacement};

#[test]
fn is_plantuml_detects_header() {
    assert!(is_plantuml("@startuml\nAlice -> Bob: hi\n@enduml"));
    assert!(!is_plantuml("sequenceDiagram\n  A->>B: hi"));
}

#[test]
fn parse_basic_sequence() {
    let src = r#"@startuml
participant Alice
participant "Bob Server" as Bob
Alice -> Bob: Hello
Bob --> Alice: Hi
@enduml"#;
    let doc = parse_to_document(src).unwrap();
    assert_eq!(doc.primary().unwrap().kind(), Kind::Sequence);
    let Diagram::Sequence(s) = doc.primary().unwrap() else {
        panic!("expected sequence");
    };
    assert_eq!(s.participants.len(), 2);
    assert_eq!(s.messages.len(), 2);
    assert_eq!(s.messages[0].arrow, MessageArrow::Solid);
    assert_eq!(s.messages[1].arrow, MessageArrow::Dashed);
}

#[test]
fn parse_sequence_notes() {
    let src = r#"@startuml
Alice -> Bob: hi
note left of Alice: thinking
note over Alice, Bob: shared
note right of Bob
done
end note
Bob --> Alice: bye
@enduml"#;
    let doc = parse_to_document(src).unwrap();
    let Diagram::Sequence(s) = doc.primary().unwrap() else {
        panic!("expected sequence");
    };
    assert_eq!(s.messages.len(), 2);
    assert_eq!(s.notes.len(), 3);
    assert_eq!(s.notes[0].placement, NotePlacement::LeftOf);
    assert_eq!(s.notes[0].text, "thinking");
    assert_eq!(s.notes[0].before_message, 1);
    assert_eq!(s.notes[1].placement, NotePlacement::Over);
    assert_eq!(s.notes[1].actors.len(), 2);
    assert_eq!(s.notes[2].text, "done");
    let out = export_document(&doc).unwrap();
    assert!(out.contains("note left of Alice"));
    let doc2 = parse_to_document(&out).unwrap();
    let Diagram::Sequence(s2) = doc2.primary().unwrap() else {
        panic!("expected sequence");
    };
    assert_eq!(s2.notes.len(), 3);
}

#[test]
fn export_sequence_roundtrip() {
    let src = "@startuml\nAlice -> Bob: hi\nBob --> Alice: pong\n@enduml";
    let doc = parse_to_document(src).unwrap();
    let out = export_document(&doc).unwrap();
    assert!(out.contains("@startuml"));
    assert!(out.contains("Alice -> Bob: hi"));
    let doc2 = parse_to_document(&out).unwrap();
    let Diagram::Sequence(s1) = doc.primary().unwrap() else {
        panic!("expected sequence");
    };
    let Diagram::Sequence(s2) = doc2.primary().unwrap() else {
        panic!("expected sequence");
    };
    assert_eq!(s1.messages.len(), s2.messages.len());
    assert_eq!(s1.messages[1].arrow, s2.messages[1].arrow);
}

#[test]
fn export_class_roundtrip() {
    let src = "@startuml\nclass A { +x() }\nclass B\nA --> B : link\n@enduml";
    let doc = parse_to_document(src).unwrap();
    let out = export_document(&doc).unwrap();
    assert!(out.contains("class A"));
    assert!(out.contains("A --> B : link"));
    let doc2 = parse_to_document(&out).unwrap();
    let Diagram::Class(c1) = doc.primary().unwrap() else {
        panic!("expected class");
    };
    let Diagram::Class(c2) = doc2.primary().unwrap() else {
        panic!("expected class");
    };
    assert_eq!(c1.classes.len(), c2.classes.len());
    assert_eq!(c1.relations[0].label, c2.relations[0].label);
}

#[test]
fn roundtrip_to_mermaid() {
    let src = "@startuml\nA -> B: ping\nB --> A: pong\n@enduml";
    let doc = parse_to_document(src).unwrap();
    let mmd = doc.to_mermaid().unwrap();
    assert!(mmd.contains("sequenceDiagram"));
    assert!(sequence::parse(&mmd).is_ok());
}

#[test]
fn parse_basic_class() {
    let src = r#"@startuml
class Animal {
  +name: String
  +eat()
}
class Duck {
  +swim()
}
Animal <|-- Duck
@enduml"#;
    let doc = parse_to_document(src).unwrap();
    assert_eq!(doc.primary().unwrap().kind(), Kind::Class);
    let Diagram::Class(c) = doc.primary().unwrap() else {
        panic!("expected class");
    };
    assert_eq!(c.classes.len(), 2);
    assert_eq!(c.relations.len(), 1);
    assert_eq!(c.relations[0].kind, RelationKind::Inheritance);
}

#[test]
fn parse_class_interface_and_dependency() {
    let src = r#"@startuml
interface Repository
class Service
Service ..> Repository : uses
@enduml"#;
    let doc = parse_to_document(src).unwrap();
    let Diagram::Class(c) = doc.primary().unwrap() else {
        panic!("expected class");
    };
    assert_eq!(c.classes.len(), 2);
    assert_eq!(c.relations[0].kind, RelationKind::Dependency);
    assert_eq!(c.relations[0].label, "uses");
    let repo = c.classes.iter().find(|x| x.id == "Repository").unwrap();
    assert_eq!(repo.stereotype.as_deref(), Some("interface"));
    let out = export_document(&doc).unwrap();
    assert!(out.contains("interface Repository"));
}

#[test]
fn parse_basic_activity() {
    let src = r#"@startuml
start
:Hello;
stop
@enduml"#;
    let doc = parse_to_document(src).unwrap();
    assert_eq!(doc.primary().unwrap().kind(), Kind::Flowchart);
    let Diagram::Flowchart(fc) = doc.primary().unwrap() else {
        panic!("expected flowchart");
    };
    assert!(fc.nodes.len() >= 3);
    assert!(fc.edges.len() >= 2);
    assert!(fc.nodes.iter().any(|n| n.text == "Hello"));
}

const IF_ELSE: &str = r#"@startuml
start
:A;
if (ok?) then (yes)
  :B;
else (no)
  :C;
endif
:D;
stop
@enduml"#;

#[test]
fn parse_activity_if_else() {
    let doc = parse_to_document(IF_ELSE).unwrap();
    let Diagram::Flowchart(fc) = doc.primary().unwrap() else {
        panic!("expected flowchart");
    };
    assert!(fc.nodes.iter().any(|n| n.shape == NodeShape::Diamond));
    assert!(fc.edges.iter().any(|e| e.label == "yes"));
    assert!(fc.edges.iter().any(|e| e.label == "no"));
    assert!(fc.edges.iter().any(|e| e.from.starts_with("act_") && e.to.starts_with("act_")));
}

#[test]
fn export_activity_roundtrip() {
    let doc = parse_to_document(IF_ELSE).unwrap();
    let out = export_document(&doc).unwrap();
    assert!(out.contains("if (ok?) then (yes)"));
    assert!(out.contains(":D;"));
    let doc2 = parse_to_document(&out).unwrap();
    let Diagram::Flowchart(fc1) = doc.primary().unwrap() else {
        panic!("expected flowchart");
    };
    let Diagram::Flowchart(fc2) = doc2.primary().unwrap() else {
        panic!("expected flowchart");
    };
    assert_eq!(fc1.nodes.len(), fc2.nodes.len());
    assert_eq!(fc1.edges.len(), fc2.edges.len());
}

#[test]
fn activity_exports_to_mermaid() {
    let src = "@startuml\nstart\n:Work;\nstop\n@enduml";
    let doc = parse_to_document(src).unwrap();
    let mmd = doc.to_mermaid().unwrap();
    assert!(mmd.contains("graph TD"));
    assert!(diagram::parser::parse(&mmd).is_ok());
}

#[test]
fn activity_export_exact_text() {
    let doc = parse_to_document(IF_ELSE).unwrap();
    let out = export_document(&doc).unwrap();
    assert_eq!(
        out,
        "@startuml\nstart\n:A;\nif (ok?) then (yes)\n:B;\nelse (no)\n:C;\nendif\n:D;\nstop\n@enduml\n"
    );
}

#[test]
fn activity_structure_and_errors() {
    let doc = parse_to_document(IF_ELSE).unwrap();
    let Diagram::Flowchart(fc) = doc.primary().unwrap() else {
        panic!("expected flowchart");
    };
    let ids: Vec<&str> = fc.nodes.iter().map(|n| n.id.as_str()).collect();
    assert_eq!(ids, vec!["act_0", "act_1", "act_2", "act_3", "act_4", "act_5", "act_6"]);
    let edges: Vec<(&str, &str, &str)> =
        fc.edges.iter().map(|e| (e.from.as_str(), e.to.as_str(), e.label.as_str())).collect();
    assert_eq!(
        edges,
        vec![
            ("act_0", "act_1", ""),
            ("act_1", "act_2", ""),
            ("act_2", "act_3", "yes"),
            ("act_2", "act_4", "no"),
            ("act_3", "act_5", ""),
            ("act_4", "act_5", ""),
            ("act_5", "act_6", ""),
        ]
    );
    let e = parse_to_document("@startuml\nstart\nelse (x)\n@enduml").unwrap_err();
    assert_eq!(e.message, "PlantUML activity: else without if");
    let e = parse_to_document("@startuml\nstart\n:A;\nrepeat\n@enduml").unwrap_err();
    assert_eq!(e.message, "PlantUML activity line 4: unrecognized: repeat");
    let e = parse_to_document("Alice -> Bob").unwrap_err();
    assert_eq!(e.message, "PlantUML: expected @startuml header");
}

#[test]
fn sequence_errors_and_participants() {
    let e = parse_to_document("@startuml\nnote left of A\nstill open\n@enduml").unwrap_err();
    assert_eq!(e.message, "PlantUML sequence line 2: unclosed note (expected end note)");
    let e = parse_to_document("@startuml\nwhat is this\n@enduml").unwrap_err();
    assert_eq!(e.message, "PlantUML sequence line 2: unrecognized: what is this");
    let doc = parse_to_document("@startuml\nparticipant \"Web Server\"\nactor User as U\n@enduml").unwrap();
    let Diagram::Sequence(s) = doc.primary().unwrap() else {
        panic!("expected sequence");
    };
    assert_eq!(s.participants[0].id, "WebServer");
    assert_eq!(s.participants[0].label, "Web Server");
    assert_eq!(s.participants[1].id, "User");
    assert_eq!(s.participants[1].label, "U");
    let out = export_document(&doc).unwrap();
    assert_eq!(out, "@startuml\nparticipant \"Web Server\" as WebServer\nparticipant User as U\n@enduml\n");
}
