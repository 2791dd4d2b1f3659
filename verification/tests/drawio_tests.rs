use diagram::diagram::{EdgeStyle, NodeShape};
use diagram::formats::drawio::{export_document, is_drawio, parse_to_document};
use diagram::ir::{Diagram, Kind};

const SAMPLE: &str = "<?xml version=\"1.0\"?>\n<mxfile>\n  <diagram id=\"d0\" name=\"Page-1\">\n    <mxGraphModel>\n      <root>\n        <mxCell id=\"0\"/>\n        <mxCell id=\"1\" parent=\"0\"/>\n        <mxCell id=\"2\" value=\"Start\" style=\"rounded=0;whiteSpace=wrap;html=1;\" vertex=\"1\" parent=\"1\">\n          <mxGeometry x=\"40\" y=\"40\" width=\"120\" height=\"60\" as=\"geometry\"/>\n        </mxCell>\n        <mxCell id=\"3\" value=\"Decide\" style=\"rhombus;whiteSpace=wrap;html=1;\" vertex=\"1\" parent=\"1\">\n          <mxGeometry x=\"40\" y=\"160\" width=\"120\" height=\"80\" as=\"geometry\"/>\n        </mxCell>\n        <mxCell id=\"4\" value=\"End\" style=\"rounded=1;whiteSpace=wrap;html=1;\" vertex=\"1\" parent=\"1\">\n          <mxGeometry x=\"40\" y=\"280\" width=\"120\" height=\"60\" as=\"geometry\"/>\n        </mxCell>\n        <mxCell id=\"5\" value=\"go\" style=\"endArrow=classic;html=1;\" edge=\"1\" parent=\"1\" source=\"2\" target=\"3\">\n          <mxGeometry relative=\"1\" as=\"geometry\"/>\n        </mxCell>\n        <mxCell id=\"6\" style=\"endArrow=classic;html=1;dashed=1;\" edge=\"1\" parent=\"1\" source=\"3\" target=\"4\">\n          <mxGeometry relative=\"1\" as=\"geometry\"/>\n        </mxCell>\n      </root>\n    </mxGraphModel>\n  </diagram>\n</mxfile>\n";

fn flow(d: &Diagram) -> &diagram::diagram::Diagram {
    match d {
        Diagram::Flowchart(f) => f,
        _ => unreachable!(),
    }
}

#[test]
fn detects_drawio() {
    assert!(is_drawio(SAMPLE));
    assert!(is_drawio("<mxGraphModel><root/></mxGraphModel>"));
    assert!(!is_drawio("digraph G { A -> B }"));
    assert!(!is_drawio("graph TD\n  A-->B\n"));
}

#[test]
fn parses_nodes_and_edges() {
    let doc = parse_to_document(SAMPLE).unwrap();
    let fc = doc.primary().unwrap();
    assert_eq!(fc.kind(), Kind::Flowchart);
    let f = flow(fc);
    assert_eq!(f.nodes.len(), 3);
    assert_eq!(f.edges.len(), 2);
    assert_eq!(f.nodes[0].text, "Start");
    assert_eq!(f.nodes[0].shape, NodeShape::Rect);
    assert_eq!(f.nodes[1].shape, NodeShape::Diamond);
    assert_eq!(f.nodes[2].shape, NodeShape::Stadium);
    assert_eq!(f.edges[0].label, "go");
    assert_eq!(f.edges[1].style, EdgeStyle::Dashed);
}

#[test]
fn export_roundtrip() {
    let doc = parse_to_document(SAMPLE).unwrap();
    let xml = export_document(&doc).unwrap();
    assert!(xml.contains("<mxfile"));
    assert!(xml.contains("value=\"Start\""));
    assert!(xml.contains("rhombus"));
    let doc2 = parse_to_document(&xml).unwrap();
    let f1 = flow(doc.primary().unwrap());
    let f2 = flow(doc2.primary().unwrap());
    assert_eq!(f1.nodes.len(), f2.nodes.len());
    assert_eq!(f1.edges.len(), f2.edges.len());
    assert!(f2.nodes.iter().any(|n| n.text == "Start"));
    assert!(f2.nodes.iter().any(|n| n.shape == NodeShape::Diamond));
}

#[test]
fn rejects_empty() {
    assert!(parse_to_document("<mxfile></mxfile>").is_err());
}

#[test]
fn multi_diagram_pages() {
    let src = "<mxfile>\n  <diagram id=\"a\"><mxGraphModel><root>\n    <mxCell id=\"2\" value=\"A\" style=\"rounded=0;\" vertex=\"1\" parent=\"1\"/>\n    <mxCell id=\"3\" value=\"B\" style=\"rounded=0;\" vertex=\"1\" parent=\"1\"/>\n    <mxCell id=\"4\" style=\"endArrow=classic;\" edge=\"1\" source=\"2\" target=\"3\"/>\n  </root></mxGraphModel></diagram>\n  <diagram id=\"b\"><mxGraphModel><root>\n    <mxCell id=\"2\" value=\"X\" style=\"ellipse;\" vertex=\"1\" parent=\"1\"/>\n  </root></mxGraphModel></diagram>\n</mxfile>\n";
    let doc = parse_to_document(src).unwrap();
    assert_eq!(doc.diagrams.len(), 2);
}

#[test]
fn xml_escaping_in_labels() {
    let src = "<mxfile><diagram><mxGraphModel><root>\n  <mxCell id=\"2\" value=\"a &lt; b &amp; c\" style=\"rounded=0;\" vertex=\"1\" parent=\"1\"/>\n</root></mxGraphModel></diagram></mxfile>";
    let doc = parse_to_document(src).unwrap();
    let f = flow(doc.primary().unwrap());
    assert_eq!(f.nodes[0].text, "a < b & c");
    let xml = export_document(&doc).unwrap();
    assert!(xml.contains("a &lt; b &amp; c"));
}

#[test]
fn export_exact_page() {
    let src = "<mxGraphModel><root><mxCell id=\"7\" value=\"Q\" style=\"ellipse\" vertex=\"1\"/><mxCell id=\"8\" value=\"R\" vertex=\"1\"/><mxCell value=\"x\" edge=\"1\" source=\"7\" target=\"8\" style=\"strokeWidth=4\"/><mxCell edge=\"1\" source=\"7\" target=\"9\"/></root></mxGraphModel>";
    let doc = parse_to_document(src).unwrap();
    let f = flow(doc.primary().unwrap());
    assert_eq!(f.nodes.len(), 2);
    assert_eq!(f.nodes[0].shape, NodeShape::Circle);
    assert_eq!(f.edges.len(), 1);
    assert_eq!(f.edges[0].style, EdgeStyle::Thick);
    let xml = export_document(&doc).unwrap();
    assert!(xml.contains("<mxCell id=\"n1\" value=\"R\" style=\"rounded=0;whiteSpace=wrap;html=1;\" vertex=\"1\" parent=\"1\">\n          <mxGeometry x=\"160\" y=\"100\""));
    assert!(xml.contains("source=\"n0\" target=\"n1\""));
    assert!(xml.ends_with("  </diagram>\n</mxfile>\n"));
}
