//! Rendering chapters into the reader's lines, and the reader's viewport.
use bookokrat::comments::{Comment, CommentTarget, Timestamp};
use bookokrat::document::{
    extract_and_track_anchors_from_node, render_document_to_lines, render_node, Block, HeadingLevel, ListItem, ListKind, Node, RenderEnv,
};
use bookokrat::markdown::{BaseStyle, Inline, LinkType, RichSpan, SpanStyle, StyledSpan, TextNode, TextOrInline, TextStyle, LinkInfo};
use bookokrat::reader::{LineType, MarginStep, MarkdownTextReader, ReaderLine, RenderContext};
use bookokrat::rendering::{map_wrapped_line_to_rich_spans, render_text_spans};
use bookokrat::viewport::{needs_rerender, plan_rows, plan_viewport};
use bookokrat::widget::common::PopupArea;

fn text(t: &str) -> TextOrInline {
    TextOrInline::Text(TextNode { content: t.to_string(), style: None })
}

fn para(t: &str) -> Node {
    Node { block: Block::Paragraph { content: vec![text(t)] }, id: None }
}

fn plain_span(t: &str, style: SpanStyle) -> RichSpan {
    RichSpan::Text(StyledSpan { content: t.to_string(), style })
}

fn raws(lines: &[ReaderLine]) -> Vec<String> {
    lines.iter().map(|l| l.raw_text.clone()).collect()
}

fn env() -> RenderEnv {
    RenderEnv { comments: vec![], edit_mode: None }
}

#[test]
fn text_spans_wrap_with_prefix_and_links() {
    let link = LinkInfo {
        text: "here".to_string(),
        url: "http://x".to_string(),
        line: 0,
        start_col: 0,
        end_col: 0,
        link_type: LinkType::External,
        target_chapter: None,
        target_anchor: None,
    };
    let spans = vec![
        plain_span("See ", SpanStyle::Base(BaseStyle::Normal)),
        RichSpan::Link {
            span: StyledSpan { content: "here".to_string(), style: SpanStyle::Base(BaseStyle::Link(LinkType::External)) },
            info: link,
        },
    ];
    let mut lines = vec![ReaderLine::empty()];
    render_text_spans(&spans, Some("> "), &mut lines, 40, 1, true, Some(4));
    assert_eq!(raws(&lines), vec!["", "  > See here", ""]);
    let line = &lines[1];
    assert_eq!(line.node_index, Some(4));
    assert_eq!(line.links.len(), 1);
    assert_eq!(line.links[0].line, 1);
    assert_eq!(line.links[0].start_col, 8);
    assert_eq!(line.links[0].end_col, 12);
    assert_eq!(line.spans.len(), 4);
    assert!(matches!(lines[2].line_type, LineType::Text));
}

#[test]
fn wrapped_text_keeps_its_spans() {
    let spans = vec![
        plain_span("Hello ", SpanStyle::Base(BaseStyle::Normal)),
        plain_span("world", SpanStyle::Base(BaseStyle::Strong)),
    ];
    let pieces = map_wrapped_line_to_rich_spans("o wor", &spans);
    assert_eq!(pieces.len(), 2);
    assert_eq!(pieces[0].text(), "o ");
    assert_eq!(pieces[1].text(), "wor");
    assert!(matches!(pieces[1], RichSpan::Text(StyledSpan { style: SpanStyle::Base(BaseStyle::Strong), .. })));
    let missing = map_wrapped_line_to_rich_spans("xyz", &spans);
    assert_eq!(missing.len(), 1);
    assert_eq!(missing[0].text(), "xyz");
    let empty = map_wrapped_line_to_rich_spans("", &spans);
    assert_eq!(empty[0].text(), "");
}

#[test]
fn long_text_wraps_over_lines() {
    let spans = vec![plain_span("one two three four", SpanStyle::Base(BaseStyle::Normal))];
    let mut lines = Vec::new();
    render_text_spans(&spans, Some("• "), &mut lines, 10, 0, false, None);
    assert_eq!(raws(&lines), vec!["• one two", "  three", "  four"]);
}

#[test]
fn document_renders_blocks() {
    let heading = Node {
        block: Block::Heading { level: HeadingLevel::H1, content: vec![text("Intro")] },
        id: None,
    };
    let list = Node {
        block: Block::List {
            kind: ListKind::Ordered { start: 3 },
            items: vec![ListItem { content: vec![para("one")] }, ListItem { content: vec![para("two")] }],
        },
        id: Some("steps".to_string()),
    };
    let code = Node { block: Block::CodeBlock { language: None, content: "let x = 1;".to_string() }, id: None };
    let blocks = vec![heading, para("Some text"), Node { block: Block::ThematicBreak, id: None }, list, code];
    let lines = render_document_to_lines(&env(), &blocks, 10);
    assert_eq!(
        raws(&lines),
        vec![
            "INTRO", "══════════", "", "Some text", "", "──────────", "", "3. one", "4. two", "", "let x = 1;", "",
        ]
    );
    assert_eq!(lines[0].node_anchor.as_deref(), Some("intro"));
    assert_eq!(lines[0].node_index, Some(0));
    assert_eq!(lines[3].node_index, Some(1));
    assert_eq!(lines[7].node_anchor.as_deref(), Some("steps"));
    assert_eq!(lines[7].node_index, Some(3));
    assert!(matches!(lines[7].line_type, LineType::ListItem { indent: 0 }));
    assert!(matches!(lines[10].line_type, LineType::CodeBlock { .. }));
    assert_eq!(lines[10].code_line.map(|c| c.node_index), Some(4));
}

#[test]
fn quotes_images_and_comments() {
    let quote = Node { block: Block::Quote { content: vec![para("quoted words")] }, id: None };
    let image = Node {
        block: Block::Paragraph {
            content: vec![
                text("before"),
                TextOrInline::Inline(Inline::Image {
                    alt_text: "pic".to_string(),
                    url: "a.png".to_string(),
                    placeholder: vec!["[a.png]".to_string()],
                }),
            ],
        },
        id: None,
    };
    let comment = Comment {
        chapter_href: "c.xhtml".to_string(),
        target: CommentTarget::Paragraph { paragraph_index: 0, word_range: None },
        content: "nice".to_string(),
        updated_at: Timestamp { secs: 0, nanos: 0 },
    };
    let e = RenderEnv { comments: vec![comment], edit_mode: None };
    let mut lines = Vec::new();
    render_node(&e, &image, &mut lines, 30, 0, Some(0), RenderContext::TopLevel);
    assert_eq!(raws(&lines), vec!["before", "", "[a.png]", "", "Note // 01-01-70 00:00", "nice", ""]);
    assert!(matches!(lines[2].line_type, LineType::ImagePlaceholder { .. }));
    assert!(matches!(lines[5].line_type, LineType::Comment { .. }));
    let mut q = Vec::new();
    render_node(&env(), &quote, &mut q, 30, 0, None, RenderContext::TopLevel);
    assert_eq!(raws(&q), vec!["> quoted words", ""]);
    let styled = TextOrInline::Text(TextNode { content: "b".to_string(), style: Some(TextStyle::Strong) });
    let mut s = Vec::new();
    let quote2 = Node { block: Block::Quote { content: vec![Node { block: Block::Paragraph { content: vec![styled] }, id: None }] }, id: None };
    render_node(&env(), &quote2, &mut s, 30, 0, None, RenderContext::TopLevel);
    assert!(matches!(s[0].spans[1].style, SpanStyle::Quoted(BaseStyle::Strong)));
}

#[test]
fn viewport_keeps_rows_for_the_comment_input() {
    let inner = PopupArea { x: 1, y: 1, width: 78, height: 22 };
    let plan = plan_viewport(80, 24, inner, 2, 5, 100, Some((7, 1)));
    assert_eq!(plan.visible_height, 21);
    assert_eq!(plan.width, 68);
    assert_eq!(plan.end_offset, 26);
    assert_eq!(plan.textarea, Some((7, 5)));
    assert_eq!(plan.text_area, PopupArea { x: 6, y: 2, width: 70, height: 21 });
    let rows = plan_rows(&plan, 5);
    assert_eq!(&rows[..4], &[Some(5), Some(6), None, None]);
    assert_eq!(rows[7], Some(7));
    assert_eq!(rows.len(), 21 + 5);
    let away = plan_viewport(80, 24, inner, 0, 90, 100, Some((7, 1)));
    assert_eq!(away.end_offset, 100);
    assert_eq!(away.textarea, None);
    assert!(needs_rerender(10, 12, true, true, 3, 3));
    assert!(!needs_rerender(10, 10, true, true, 3, 3));
    assert!(needs_rerender(10, 10, true, true, 2, 3));
}

#[test]
fn margin_commands_stay_in_range() {
    let mut r = MarkdownTextReader::new();
    for _ in 0..30 {
        r.apply_margin_step(MarginStep::Increase);
    }
    assert_eq!(r.get_margin(), 20);
    r.apply_margin_step(MarginStep::SetTo(50));
    assert_eq!(r.get_margin(), 20);
    r.apply_margin_step(MarginStep::SetTo(5));
    r.apply_margin_step(MarginStep::Decrease);
    assert_eq!(r.get_margin(), 4);
    assert_eq!(r.cache_generation, 33);
}

#[test]
fn anchors_of_nodes() {
    let heading = Node {
        block: Block::Heading {
            level: HeadingLevel::H2,
            content: vec![text("Getting Started"), TextOrInline::Inline(Inline::Anchor { id: "gs".to_string() })],
        },
        id: None,
    };
    assert_eq!(
        extract_and_track_anchors_from_node(&heading, 7),
        vec![("getting-started".to_string(), 7), ("gs".to_string(), 7)]
    );
    let with_id = Node { block: Block::ThematicBreak, id: Some("hr".to_string()) };
    assert_eq!(extract_and_track_anchors_from_node(&with_id, 3), vec![("hr".to_string(), 3)]);
}

#[test]
fn rendering_keeps_earlier_lines() {
    let mut lines = Vec::new();
    render_node(&env(), &para("first"), &mut lines, 20, 0, Some(0), RenderContext::TopLevel);
    let before = raws(&lines);
    let list = Node {
        block: Block::List { kind: ListKind::Unordered, items: vec![ListItem { content: vec![para("x")] }] },
        id: None,
    };
    render_node(&env(), &list, &mut lines, 20, 0, Some(1), RenderContext::TopLevel);
    assert_eq!(&raws(&lines)[..before.len()], &before[..]);
    assert_eq!(lines[0].node_index, Some(0));
    assert_eq!(raws(&lines)[before.len()..], ["• x".to_string(), String::new()]);
}
