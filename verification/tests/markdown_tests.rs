use diagram::formats::Format;
use diagram::markdown::{
    extract_fenced_blocks, image_file_name, image_link, is_diagram_block, lang_to_format, replace_blocks, ImageFormat,
};

#[test]
fn extract_two_mermaid_blocks() {
    let md = "# Title\n\n```mermaid\ngraph TD\n  A-->B\n```\n\n```mermaid\nsequenceDiagram\n  A->>B: hi\n```\n";
    let blocks = extract_fenced_blocks(md);
    assert_eq!(blocks.len(), 2);
    assert_eq!(blocks[0].lang, "mermaid");
    assert!(blocks[0].content.contains("graph TD"));
}

#[test]
fn skips_non_diagram_fences() {
    let md = "```rust\nfn main() {}\n```\n```mermaid\ngraph TD\n  A-->B\n```";
    let blocks: Vec<_> = extract_fenced_blocks(md).into_iter().filter(is_diagram_block).collect();
    assert_eq!(blocks.len(), 1);
}

#[test]
fn fences_exact_lines_and_rewrite() {
    let md = "# Doc\n\n```mermaid\ngraph TD\n  A-->B\n```\ntext\n```\n\nsequenceDiagram\n  A->>B: hi\n```\n```unclosed\n";
    let blocks = extract_fenced_blocks(md);
    assert_eq!(blocks.len(), 2);
    assert_eq!((blocks[0].start_line, blocks[0].end_line), (2, 5));
    assert_eq!(blocks[0].content, "graph TD\n  A-->B");
    assert_eq!(blocks[1].lang, "");
    assert_eq!(blocks[1].content, "sequenceDiagram\n  A->>B: hi");
    assert!(is_diagram_block(&blocks[1]));
    assert_eq!(lang_to_format(&blocks[1].lang, &blocks[1].content), Format::Mermaid);
    assert_eq!(lang_to_format("GraphViz", ""), Format::Dot);
    let links = vec![image_link(0, "assets/doc-0.svg"), image_link(1, "assets/doc-1.svg")];
    let out = replace_blocks(md, &blocks, &links);
    assert_eq!(
        out,
        "# Doc\n\n![diagram 0](assets/doc-0.svg)\ntext\n![diagram 1](assets/doc-1.svg)\n```unclosed"
    );
    assert_eq!(image_file_name("doc", 3, ImageFormat::Png), "doc-3.png");
    assert_eq!(ImageFormat::parse("SVG"), Some(ImageFormat::Svg));
    assert_eq!(ImageFormat::parse("gif"), None);
}

#[test]
fn process_result_counts_and_rewrites() {
    let md = "# Title\n\n```mermaid\ngraph TD\n  A-->B\n```\n\ntext\n";
    let blocks: Vec<_> = extract_fenced_blocks(md).into_iter().filter(|b| is_diagram_block(b)).collect();
    assert_eq!(blocks.len(), 1);
    let rendered = vec![diagram::markdown::RenderedBlock { index: 0, image_path: "img/doc-0.png".to_string(), link: "img/doc-0.png".to_string() }];
    let r = diagram::markdown::process_result(md, &blocks, rendered);
    assert_eq!(r.blocks_found, 1);
    assert_eq!(r.blocks_rendered, 1);
    assert_eq!(r.rendered[0].link, "img/doc-0.png");
    assert!(r.output_markdown.contains("![diagram 0](img/doc-0.png)"));
    assert!(!r.output_markdown.contains("```mermaid"));
    assert!(r.output_markdown.contains("# Title"));
}
