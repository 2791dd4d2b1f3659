use diagram::formats::{detect, Format};

#[test]
fn mod_detect_json_object() {
    assert_eq!(detect("  {\"version\":1}", None), Format::JsonIr);
}

#[test]
fn mod_detect_extension() {
    assert_eq!(detect("graph TD\n", Some("x.json")), Format::JsonIr);
    assert_eq!(detect("graph TD\n", Some("x.mmd")), Format::Mermaid);
}

#[test]
fn detect_dot_extension() {
    assert_eq!(detect("digraph G {}", Some("x.dot")), Format::Dot);
}

#[test]
fn detect_d2_extension() {
    assert_eq!(detect("a -> b\n", Some("x.d2")), Format::D2);
}

#[test]
fn formats_detect_json_object() {
    assert_eq!(detect("  {\"version\":1}", None), Format::JsonIr);
}

#[test]
fn formats_detect_extension() {
    assert_eq!(detect("graph TD\n", Some("x.json")), Format::JsonIr);
    assert_eq!(detect("graph TD\n", Some("x.mmd")), Format::Mermaid);
}

#[test]
fn format_names_roundtrip() {
    for f in [Format::Mermaid, Format::JsonIr, Format::Dot, Format::D2, Format::PlantUml, Format::DrawIo] {
        assert_eq!(Format::parse(f.as_str()), Some(f));
    }
    assert_eq!(Format::parse("GraphViz"), Some(Format::Dot));
    assert_eq!(Format::parse("svg"), None);
    assert_eq!(Format::from_output_path("OUT.PUML"), Format::PlantUml);
    assert_eq!(Format::from_output_path("out.xml"), Format::DrawIo);
    assert_eq!(Format::from_output_path("out.txt"), Format::Mermaid);
}

use diagram::formats::{export_str, import_str, TextFormat};

#[test]
fn d2_import_to_mermaid() {
    let src = "start: Start\nstart -> end: go\n";
    let doc = import_str(src, TextFormat::D2).unwrap();
    let out = export_str(&doc, TextFormat::Mermaid).unwrap();
    assert!(out.contains("Start") || out.contains("start"));
    assert!(out.contains("end"));
}

#[test]
fn d2_export_roundtrip() {
    let src = "direction: right\na: Alpha\nb: Beta\na -> b: link\n";
    let doc = import_str(src, TextFormat::D2).unwrap();
    let out = export_str(&doc, TextFormat::D2).unwrap();
    assert!(out.contains("direction: right"));
    assert!(out.contains("Alpha"));
    let doc2 = import_str(&out, TextFormat::D2).unwrap();
    let mmd = export_str(&doc2, TextFormat::Mermaid).unwrap();
    assert!(mmd.contains("Alpha"));
}

#[test]
fn dot_import_to_mermaid() {
    let src = r#"digraph G { A [label="Start"] -> B [label="End"]; }"#;
    let doc = import_str(src, TextFormat::Dot).unwrap();
    let out = export_str(&doc, TextFormat::Mermaid).unwrap();
    assert!(out.contains("Start"));
    assert!(out.contains("B"));
}

#[test]
fn plantuml_sequence_import() {
    let src = "@startuml\nAlice -> Bob: hi\n@enduml";
    let doc = import_str(src, TextFormat::PlantUml).unwrap();
    let out = export_str(&doc, TextFormat::Mermaid).unwrap();
    assert!(out.contains("sequenceDiagram"));
    assert!(out.contains("hi"));
}

#[test]
fn plantuml_activity_import() {
    let src = "@startuml\nstart\n:Go;\nstop\n@enduml";
    let doc = import_str(src, TextFormat::PlantUml).unwrap();
    assert_eq!(doc.primary().unwrap().kind(), diagram::ir::Kind::Flowchart);
    let out = export_str(&doc, TextFormat::Mermaid).unwrap();
    assert!(out.contains("Go"));
}

#[test]
fn plantuml_export_roundtrip() {
    let src = "@startuml\nAlice -> Bob: hi\n@enduml";
    let doc = import_str(src, TextFormat::PlantUml).unwrap();
    let out = export_str(&doc, TextFormat::PlantUml).unwrap();
    assert!(out.contains("@startuml"));
    let doc2 = import_str(&out, TextFormat::PlantUml).unwrap();
    let mmd = export_str(&doc2, TextFormat::Mermaid).unwrap();
    assert!(mmd.contains("sequenceDiagram"));
}

#[test]
fn dot_export_roundtrip() {
    let src = r#"digraph G { A [label="Start"] -> B [label="End"]; }"#;
    let doc = import_str(src, TextFormat::Dot).unwrap();
    let out = export_str(&doc, TextFormat::Dot).unwrap();
    assert!(out.contains("digraph"));
    assert!(out.contains("Start"));
    let doc2 = import_str(&out, TextFormat::Dot).unwrap();
    let mmd = export_str(&doc2, TextFormat::Mermaid).unwrap();
    assert!(mmd.contains("Start"));
}

#[test]
fn drawio_detect_and_json_boundary() {
    assert_eq!(detect("<mxfile><diagram/></mxfile>", None), Format::DrawIo);
    assert_eq!(detect("@startuml\nA -> B\n@enduml", None), Format::PlantUml);
    assert_eq!(Format::JsonIr.as_text(), None);
    assert_eq!(Format::Dot.as_text(), Some(TextFormat::Dot));
    assert_eq!(TextFormat::PlantUml.format(), Format::PlantUml);
}
