use diagram::diagram::{EdgeStyle, NodeShape};
use diagram::formats::Format;
use diagram::parser::{extract_cylinder, parse};

#[test]
fn test_parse_simple_graph() {
    let source = "graph TD\n    A[Start] --> B{Is it?}\n    B -->|Yes| C[End]";
    let diagram = parse(source).unwrap();
    assert_eq!(diagram.rankdir, "TB");
    assert_eq!(diagram.nodes.len(), 3);
    assert_eq!(diagram.edges.len(), 2);
}

#[test]
fn test_parse_bare_nodes() {
    let source = "graph LR\n    A --> B";
    let diagram = parse(source).unwrap();
    assert_eq!(diagram.nodes.len(), 2);
    assert_eq!(diagram.edges.len(), 1);
}

#[test]
fn test_parse_lr() {
    let source = "graph LR\n    A --> B";
    let diagram = parse(source).unwrap();
    assert_eq!(diagram.rankdir, "LR");
}

#[test]
fn test_to_mermaid_roundtrip() {
    let source = "graph TD\n    A[Start] --> B{Is it?}\n    B -->|Yes| C[End]";
    let diagram = parse(source).unwrap();
    let output = diagram.to_mermaid();
    let parsed = parse(&output).unwrap();
    assert_eq!(parsed.nodes.len(), 3);
    assert_eq!(parsed.edges.len(), 2);
}

#[test]
fn test_cylinder_syntax() {
    assert_eq!(extract_cylinder("B[(DB)]"), Some(("B".into(), "DB".into())));
    assert_eq!(extract_cylinder("X[(text)]"), Some(("X".into(), "text".into())));
}

#[test]
fn test_new_shapes() {
    let source = "graph LR\n    A{{Hex}} --> B[(DB)]\n    B -.-> C((Circle))\n    C ==> D[End]";
    let diagram = parse(source).unwrap();
    assert_eq!(diagram.nodes.len(), 4);
    assert_eq!(diagram.edges.len(), 3);
    assert_eq!(diagram.nodes[0].shape, NodeShape::Hexagon);
    assert_eq!(diagram.nodes[1].shape, NodeShape::Cylinder, "B should be Cylinder, got {:?}", diagram.nodes[1].shape);
    assert_eq!(diagram.nodes[2].shape, NodeShape::Circle);
    assert_eq!(diagram.nodes[3].shape, NodeShape::Rect);
    assert_eq!(diagram.edges[0].style, EdgeStyle::Arrow);
    assert_eq!(diagram.edges[1].style, EdgeStyle::Dashed);
    assert_eq!(diagram.edges[2].style, EdgeStyle::Thick);
}

#[test]
fn test_new_shapes_roundtrip() {
    let source = "graph LR\n    A{{Hex}} --> B[(DB)]\n    B -.-> C((Circle))\n    C ==> D[End]";
    let diagram = parse(source).unwrap();
    let output = diagram.to_mermaid();
    let parsed = parse(&output).unwrap();
    assert_eq!(parsed.nodes.len(), 4);
    assert_eq!(parsed.edges.len(), 3);
    assert_eq!(parsed.nodes[0].shape, NodeShape::Hexagon);
    assert_eq!(parsed.nodes[1].shape, NodeShape::Cylinder);
    assert_eq!(parsed.edges[1].style, EdgeStyle::Dashed);
    assert_eq!(parsed.edges[2].style, EdgeStyle::Thick);
}

#[test]
fn test_quoted_ids() {
    let source = r#"graph TD
    "my node"[Start] --> "other node"[End]"#;
    let diagram = parse(source).unwrap();
    assert_eq!(diagram.nodes.len(), 2);
    assert_eq!(diagram.nodes[0].id, "my node");
    assert_eq!(diagram.nodes[1].id, "other node");
    assert_eq!(diagram.edges.len(), 1);
    assert_eq!(diagram.edges[0].from, "my node");
    assert_eq!(diagram.edges[0].to, "other node");
}

#[test]
fn test_quoted_ids_with_diamond() {
    let source = "graph TD\n    \"user login\"[User Login] --> \"auth service\"{Auth Service}\n    \"auth service\" --> \"token issued\"[Token Issued]\n    \"auth service\" --> \"login failed\"[Login Failed]";
    let diagram = parse(source).unwrap();
    assert_eq!(diagram.nodes.len(), 4, "expected 4 nodes, got {}", diagram.nodes.len());
    assert!(diagram.nodes.iter().any(|n| n.id == "user login"));
}

#[test]
fn test_quoted_ids_roundtrip() {
    let source = r#"graph TD
    "my node"[Start] --> "other node"[End]"#;
    let diagram = parse(source).unwrap();
    let output = diagram.to_mermaid();
    let parsed = parse(&output).unwrap();
    assert_eq!(parsed.nodes[0].id, "my node");
    assert_eq!(parsed.nodes[1].id, "other node");
}

#[test]
fn test_subgraphs() {
    let source = "graph TD\n    subgraph One\n        A --> B\n    end\n    B --> C";
    let diagram = parse(source).unwrap();
    assert_eq!(diagram.nodes.len(), 3);
    assert_eq!(diagram.edges.len(), 2);
    assert_eq!(diagram.subgraphs.len(), 1);
    assert_eq!(diagram.subgraphs[0].id, "One");
    assert!(diagram.subgraphs[0].nodes.contains(&"A".to_string()));
    assert!(diagram.subgraphs[0].nodes.contains(&"B".to_string()));
}

#[test]
fn test_subgraph_roundtrip() {
    let source = "graph TD\n    subgraph One\n        A --> B\n    end\n    B --> C";
    let diagram = parse(source).unwrap();
    let output = diagram.to_mermaid();
    let parsed = parse(&output).unwrap();
    assert_eq!(parsed.subgraphs.len(), 1);
    assert_eq!(parsed.subgraphs[0].id, "One");
}

#[test]
fn test_styles_and_classdef() {
    let source = "graph TD\n    A[Start] --> B[End]\n    style A fill:#f9f\n    classDef myClass fill:#bbf\n    class A,B myClass";
    let diagram = parse(source).unwrap();
    assert_eq!(diagram.styles.len(), 1);
    assert_eq!(diagram.styles[0].node_id, "A");
    assert_eq!(diagram.styles[0].properties, "fill:#f9f");
    assert_eq!(diagram.class_defs.len(), 1);
    assert_eq!(diagram.class_defs[0].name, "myClass");
    assert_eq!(diagram.class_defs[0].properties, "fill:#bbf");
    assert_eq!(diagram.class_applies.len(), 1);
    assert_eq!(diagram.class_applies[0].node_ids, vec!["A", "B"]);
    assert_eq!(diagram.class_applies[0].class_name, "myClass");
}

#[test]
fn test_styles_roundtrip() {
    let source = "graph TD\n    A[Start] --> B[End]\n    style A fill:#f9f\n    classDef myClass fill:#bbf\n    class A,B myClass";
    let diagram = parse(source).unwrap();
    let output = diagram.to_mermaid();
    assert!(output.contains("style A fill:#f9f"));
    assert!(output.contains("classDef myClass fill:#bbf"));
    assert!(output.contains("class A,B myClass"));
}

#[test]
fn test_example_link_styles() {
    let source = "graph TD\n    A --> B\n    B --> C\n    linkStyle 0 stroke:#ff3,stroke-width:4px\n    linkStyle 1 stroke:#f33,stroke-width:2px\n";
    let diagram = diagram::parser::parse(source).unwrap();
    let ids: Vec<&str> = diagram.nodes.iter().map(|n| n.id.as_str()).collect();
    assert_eq!(ids, vec!["A", "B", "C"]);
    assert_eq!(diagram.edges.len(), 2);
    assert_eq!(diagram.link_styles.len(), 2);
    assert_eq!(diagram.link_styles[0].index, 0);
    assert_eq!(diagram.link_styles[0].properties, "stroke:#ff3,stroke-width:4px");
    assert_eq!(diagram.link_styles[1].index, 1);
    assert_eq!(diagram.link_styles[1].properties, "stroke:#f33,stroke-width:2px");
}

#[test]
fn link_style_without_number_is_skipped() {
    let d = diagram::parser::parse("graph TD\n    A --> B\n    linkStyle x stroke:red\n").unwrap();
    assert_eq!(d.link_styles.len(), 0);
    assert_eq!(d.nodes.len(), 2);
}

#[test]
fn node_style_merges_class_and_inline_properties() {
    let source = "graph TD\n    A --> B\n    C --> D\n    classDef red fill:#f99,stroke:#333\n    classDef green fill:#9f9\n    class C green\n    class A,D red\n    style A fill:#bbf\n    style C stroke:#000\n";
    let d = parse(source).unwrap();
    let pair = |k: &str, v: &str| (k.to_string(), v.to_string());
    assert_eq!(d.node_style("A"), vec![pair("fill", "#bbf"), pair("stroke", "#333")]);
    assert_eq!(d.node_style("C"), vec![pair("fill", "#9f9"), pair("stroke", "#000")]);
    assert_eq!(d.node_style("D"), vec![pair("fill", "#f99"), pair("stroke", "#333")]);
    assert!(d.node_style("B").is_empty());
}

#[test]
fn escape_xml_replaces_markup_characters() {
    assert_eq!(diagram::text::escape_xml("a<b & \"c\">"), "a&lt;b &amp; &quot;c&quot;&gt;");
    assert_eq!(diagram::text::escape_xml("plain"), "plain");
}

#[test]
fn shape_names_read_back_in_any_case() {
    for s in [NodeShape::Rect, NodeShape::Diamond, NodeShape::Stadium, NodeShape::Hexagon, NodeShape::Cylinder, NodeShape::Circle] {
        assert_eq!(NodeShape::parse(&s.to_string()), Some(s));
        assert_eq!(NodeShape::parse(&s.to_string().to_uppercase()), Some(s));
    }
    assert_eq!(NodeShape::parse("rectangle"), Some(NodeShape::Rect));
    assert_eq!(NodeShape::parse("triangle"), None);
}

#[test]
fn format_names_read_back_in_any_case() {
    for f in [Format::Mermaid, Format::JsonIr, Format::Dot, Format::D2, Format::PlantUml, Format::DrawIo] {
        assert_eq!(Format::parse(f.as_str()), Some(f));
        assert_eq!(Format::parse(&f.as_str().to_uppercase()), Some(f));
    }
    assert_eq!(Format::parse("gv"), Some(Format::Dot));
    assert_eq!(Format::parse("svg"), None);
}

#[test]
fn written_flowchart_reads_back() {
    let src = "graph LR\n    A[Start] --> B{Check}\n    B -->|yes| C([Done])\n    B -.-> D((Ring))\n    C ==> E{{Hex}}\n    E --> F[(Store)]\n";
    let d = parse(src).unwrap();
    let again = parse(&d.to_mermaid()).unwrap();
    let nodes = |x: &diagram::diagram::Diagram| x.nodes.iter().map(|n| (n.id.clone(), n.text.clone(), n.shape)).collect::<Vec<_>>();
    let edges = |x: &diagram::diagram::Diagram| x.edges.iter().map(|e| (e.from.clone(), e.to.clone(), e.label.clone(), e.style)).collect::<Vec<_>>();
    assert_eq!(nodes(&again), nodes(&d));
    assert_eq!(edges(&again), edges(&d));
    assert_eq!(again.rankdir, d.rankdir);
    assert!(d.nodes.len() >= 5);
    assert!(d.edges.len() >= 4);
}

#[test]
fn test_new_shapes_arrows_read_back() {
    for st in [EdgeStyle::Arrow, EdgeStyle::Dashed, EdgeStyle::Thick] {
        let src = format!("graph TD\n    A {} B", st.arrow_str());
        let d = parse(&src).unwrap();
        assert_eq!(d.edges.len(), 1);
        assert_eq!(d.edges[0].from, "A");
        assert_eq!(d.edges[0].to, "B");
        assert_eq!(d.edges[0].label, "");
        assert_eq!(d.edges[0].style, st);
    }
}

#[test]
fn written_flowchart_with_dashes_reads_back() {
    let src = "graph TD\n    A[a-b] --> B{x = y}\n    B -->|go - on| C(c=d)\n";
    let d = parse(src).unwrap();
    let again = parse(&d.to_mermaid()).unwrap();
    let nodes = |x: &diagram::diagram::Diagram| x.nodes.iter().map(|n| (n.id.clone(), n.text.clone(), n.shape)).collect::<Vec<_>>();
    let edges = |x: &diagram::diagram::Diagram| x.edges.iter().map(|e| (e.from.clone(), e.to.clone(), e.label.clone(), e.style)).collect::<Vec<_>>();
    assert_eq!(nodes(&again), nodes(&d));
    assert_eq!(edges(&again), edges(&d));
    assert_eq!(d.nodes[0].text, "a-b");
    assert_eq!(d.nodes[1].text, "x = y");
}
