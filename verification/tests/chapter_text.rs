//! The paragraph-level text of XHTML chapters.
use bookokrat::chapter::{block_texts, chapter_blocks, chapter_nodes, chapter_text, paragraph_quote};
use bookokrat::document::{document_fits, render_document_to_lines, Block, HeadingLevel, RenderEnv};
use bookokrat::mathml::xml::XmlItem;

#[test]
fn blocks_in_document_order() {
    let xhtml = "<?xml version=\"1.0\"?>\n<!DOCTYPE html>\n<html xmlns=\"http://www.w3.org/1999/xhtml\"><head><title>T</title></head>\
<body><h1>Chapter <em>One</em></h1><p>Hello <b>bold</b> world</p><!-- note --><div><p>Second</p></div>\
<ul><li>item <p>inner</p></li></ul></body></html>";
    let blocks = chapter_blocks(xhtml).unwrap();
    assert_eq!(blocks, vec!["Chapter One", "Hello bold world", "Second", "item inner"]);
}

#[test]
fn unreadable_chapter_has_no_blocks() {
    assert!(chapter_blocks("<p>unclosed").is_none());
}

fn element(name: &str, size: usize) -> XmlItem {
    XmlItem {
        is_element: true,
        is_text: false,
        name: name.to_string(),
        text: None,
        tail: None,
        attributes: vec![],
        subtree_size: size,
    }
}

fn text(t: &str) -> XmlItem {
    XmlItem {
        is_element: false,
        is_text: true,
        name: String::new(),
        text: Some(t.to_string()),
        tail: None,
        attributes: vec![],
        subtree_size: 1,
    }
}

#[test]
fn doctype_is_allowed() {
    let xhtml = "<!DOCTYPE html><html><body><p>x</p></body></html>";
    assert_eq!(chapter_blocks(xhtml).unwrap(), vec!["x"]);
}

#[test]
fn blocks_of_parsed_nodes() {
    // body > [p > "a", h2 > ["b", em > "c"], pre (empty)]
    let items = vec![
        element("body", 8),
        element("p", 2),
        text("a"),
        element("h2", 4),
        text("b"),
        element("em", 2),
        text("c"),
        element("pre", 1),
    ];
    assert_eq!(block_texts(&items), vec!["a", "bc", ""]);
}

#[test]
fn subtree_past_the_end_is_cut() {
    let items = vec![element("p", 5), text("x")];
    assert_eq!(block_texts(&items), vec!["x"]);
}

#[test]
fn chapter_nodes_by_element() {
    let xhtml = "<html><body><h2>Part</h2><p>Some <b>text</b></p><pre>x = 1</pre></body></html>";
    let nodes = chapter_nodes(xhtml).unwrap();
    assert_eq!(nodes.len(), 3);
    assert!(matches!(nodes[0].block, Block::Heading { level: HeadingLevel::H2, .. }));
    assert!(matches!(nodes[1].block, Block::Paragraph { .. }));
    assert!(matches!(&nodes[2].block, Block::CodeBlock { content, .. } if content == "x = 1"));
    assert!(document_fits(&nodes, 0));
    let env = RenderEnv { comments: vec![], edit_mode: None };
    let lines = render_document_to_lines(&env, &nodes, 8);
    let raws: Vec<String> = lines.iter().map(|l| l.raw_text.clone()).collect();
    assert_eq!(raws, vec!["Part", "────────", "", "Some", "text", "", "x = 1", ""]);
    assert!(chapter_nodes("<p>").is_none());
}

#[test]
fn chapter_text_and_quotes() {
    let xhtml = "<html><body><p>First</p><p>Second</p></body></html>";
    assert_eq!(chapter_text(xhtml), "First\n\nSecond");
    assert_eq!(chapter_text("<p>"), "");
    assert_eq!(paragraph_quote(Some(xhtml), 1), "Second");
    assert_eq!(paragraph_quote(Some(xhtml), 2), "[Unable to retrieve text]");
    assert_eq!(paragraph_quote(None, 0), "[Unable to retrieve text]");
    let long = format!("<p>{}</p>", "a".repeat(90));
    assert_eq!(paragraph_quote(Some(&long), 0), format!("{}...", "a".repeat(80)));
}
