//! Decisions the reader makes on its rendered lines.
use bookokrat::comments::{BookComments, Comment, CommentError, CommentTarget, Timestamp};
use bookokrat::reader::{
    calculate_display_width, compute_paragraph_word_range, compute_selection_target, find_comment_visual_line,
    generate_heading_anchor, get_comment_at_selection, is_editing_this_comment, normalize_selection_points,
    ActiveSection, CodeLineMetadata, CommentEditMode, InlineCodeCommentFragment, LineType, MarkdownTextReader,
    ReaderLine, RenderingContext, SelectionPoint, save_comment, start_comment_input, start_editing_comment,
    SaveOutcome, render_comment_as_quote, desired_column_widths, table_cell_space, chapter_comments_by_node,
};

fn text_line(text: &str, node: Option<usize>) -> ReaderLine {
    ReaderLine {
        spans: vec![],
        links: vec![],
        raw_text: text.to_string(),
        line_type: LineType::Text,
        node_anchor: None,
        node_index: node,
        code_line: None,
        inline_code_comments: vec![],
    }
}

fn code_line(text: &str, node: usize, index: usize) -> ReaderLine {
    ReaderLine {
        spans: vec![],
        links: vec![],
        raw_text: text.to_string(),
        line_type: LineType::CodeBlock { language: None },
        node_anchor: None,
        node_index: Some(node),
        code_line: Some(CodeLineMetadata { node_index: node, line_index: index, total_lines: 3 }),
        inline_code_comments: vec![],
    }
}

fn comment_line(href: &str, target: CommentTarget) -> ReaderLine {
    ReaderLine {
        spans: vec![],
        links: vec![],
        raw_text: "> note".to_string(),
        line_type: LineType::Comment { chapter_href: href.to_string(), target },
        node_anchor: None,
        node_index: None,
        code_line: None,
        inline_code_comments: vec![],
    }
}

fn pt(line: usize, column: usize) -> SelectionPoint {
    SelectionPoint { line, column }
}

#[test]
fn heading_anchors() {
    assert_eq!(generate_heading_anchor("Hello, World!"), "hello-world");
    assert_eq!(generate_heading_anchor("  Chapter 1:  The  Start "), "chapter-1-the-start");
    assert_eq!(generate_heading_anchor("A-B c"), "a-b-c");
    assert_eq!(generate_heading_anchor(""), "");
}

#[test]
fn display_widths() {
    assert_eq!(calculate_display_width("**bold** text"), 9);
    assert_eq!(calculate_display_width("_a_"), 1);
    assert_eq!(calculate_display_width("short<br/>a much longer line"), 18);
    assert_eq!(calculate_display_width("one<br/> two"), 3);
    assert_eq!(calculate_display_width(""), 0);
}

#[test]
fn sections_and_anchors() {
    let s = ActiveSection::new(3, "text/ch3.xhtml#part".to_string(), Some("ch3.xhtml#intro".to_string()));
    assert_eq!(s.chapter, 3);
    assert_eq!(s.chapter_base_href, "text/ch3.xhtml");
    assert_eq!(s.anchor.as_deref(), Some("intro"));
    assert_eq!(ActiveSection::normalize_anchor("plain"), "plain");
    assert_eq!(ActiveSection::normalize_anchor("a#b#c"), "c");
    assert_eq!(ActiveSection::base_href("x.xhtml"), "x.xhtml");
    let ctx = RenderingContext::new();
    assert!(ctx.raw_text_lines.is_empty());
}

#[test]
fn word_ranges_within_a_paragraph() {
    let lines = vec![text_line("Hello ", Some(2)), text_line("world", Some(2)), text_line("x", Some(3))];
    assert_eq!(compute_paragraph_word_range(&lines, 2, pt(0, 2), pt(1, 3)), Some((2, 9)));
    assert_eq!(compute_paragraph_word_range(&lines, 2, pt(0, 0), pt(1, 5)), None);
    assert_eq!(compute_paragraph_word_range(&lines, 2, pt(0, 3), pt(0, 3)), None);
    assert_eq!(compute_paragraph_word_range(&lines, 2, pt(2, 0), pt(2, 1)), None);
}

#[test]
fn selection_targets() {
    let lines = vec![
        text_line("Hello ", Some(2)),
        text_line("world", Some(2)),
        code_line("let a = 1;", 4, 0),
        code_line("let b = 2;", 4, 1),
        code_line("let c = 3;", 4, 2),
    ];
    assert_eq!(
        compute_selection_target(&lines, pt(0, 1), pt(1, 2)),
        Some(CommentTarget::Paragraph { paragraph_index: 2, word_range: Some((1, 8)) })
    );
    assert_eq!(
        compute_selection_target(&lines, pt(3, 0), pt(4, 3)),
        Some(CommentTarget::CodeBlock { paragraph_index: 4, line_range: (1, 2) })
    );
    assert_eq!(compute_selection_target(&lines, pt(1, 0), pt(2, 3)), None);
    assert_eq!(compute_selection_target(&lines, pt(3, 0), pt(1, 0)), None);
}

#[test]
fn selection_ends_are_kept_inside_the_lines() {
    let lines = vec![text_line("abc", None), text_line("de", None)];
    assert_eq!(normalize_selection_points(&lines, pt(0, 9), pt(7, 9)), (pt(0, 3), pt(1, 2)));
    assert_eq!(normalize_selection_points(&lines, pt(0, 1), pt(1, 0)), (pt(0, 1), pt(0, 3)));
    assert_eq!(normalize_selection_points(&vec![], pt(4, 4), pt(5, 5)), (pt(4, 4), pt(5, 5)));
}

#[test]
fn comments_under_a_selection() {
    let target = CommentTarget::Paragraph { paragraph_index: 1, word_range: None };
    let mut code = code_line("foo(bar)", 5, 0);
    code.inline_code_comments.push(InlineCodeCommentFragment {
        chapter_href: "c.xhtml".to_string(),
        target: CommentTarget::CodeBlock { paragraph_index: 5, line_range: (0, 0) },
        start_column: 4,
        end_column: 7,
    });
    let lines = vec![text_line("para", Some(1)), comment_line("c.xhtml", target), code];
    let hit = get_comment_at_selection(&lines, pt(0, 0), pt(1, 2)).unwrap();
    assert_eq!(hit.0, "c.xhtml");
    assert_eq!(hit.1, target);
    let inline = get_comment_at_selection(&lines, pt(2, 5), pt(2, 6)).unwrap();
    assert_eq!(inline.1, CommentTarget::CodeBlock { paragraph_index: 5, line_range: (0, 0) });
    assert!(get_comment_at_selection(&lines, pt(2, 0), pt(2, 3)).is_none());
    assert_eq!(find_comment_visual_line(&lines, "c.xhtml", &target), Some(1));
    assert_eq!(find_comment_visual_line(&lines, "d.xhtml", &target), None);
}

#[test]
fn editing_a_comment_is_recognised_by_its_location() {
    let target = CommentTarget::Paragraph { paragraph_index: 1, word_range: None };
    let c = Comment {
        chapter_href: "c.xhtml".to_string(),
        target,
        content: "x".to_string(),
        updated_at: Timestamp { secs: 0, nanos: 0 },
    };
    let editing = Some(CommentEditMode::Editing { chapter_href: "c.xhtml".to_string(), target });
    assert!(is_editing_this_comment(&editing, &c));
    assert!(!is_editing_this_comment(&Some(CommentEditMode::Creating), &c));
    assert!(!is_editing_this_comment(&None, &c));
}

#[test]
fn margins_stay_in_bounds() {
    let mut r = MarkdownTextReader::new();
    r.decrease_margin();
    assert_eq!(r.get_margin(), 0);
    for _ in 0..25 {
        r.increase_margin();
    }
    assert_eq!(r.get_margin(), 20);
    r.decrease_margin();
    assert_eq!(r.get_margin(), 19);
    r.set_margin(50);
    assert_eq!(r.get_margin(), 20);
    r.set_margin(7);
    assert_eq!(r.get_margin(), 7);
    assert_eq!(r.cache_generation, 29);
    r.handle_terminal_resize();
    r.invalidate_render_cache();
    assert_eq!(r.cache_generation, 31);
    r.toggle_raw_html();
    assert!(r.show_raw_html);
    r.set_raw_html("<p/>".to_string());
    assert_eq!(r.raw_html_content.as_deref(), Some("<p/>"));
}

fn book_with(href: &str, target: CommentTarget, content: &str) -> BookComments {
    let mut book = BookComments::empty();
    book.add_comment(Comment {
        chapter_href: href.to_string(),
        target,
        content: content.to_string(),
        updated_at: Timestamp { secs: 5, nanos: 0 },
    });
    book
}

#[test]
fn editing_starts_from_the_shown_comment() {
    let target = CommentTarget::Paragraph { paragraph_index: 1, word_range: None };
    let book = book_with("c.xhtml", target, "line one\nline two");
    let lines = vec![text_line("para", Some(1)), comment_line("c.xhtml", target)];
    let input = start_editing_comment(&book, &lines, "c.xhtml".to_string(), target).unwrap();
    assert_eq!(input.initial_lines, vec!["line one", "line two"]);
    assert_eq!(input.target_line, 1);
    assert_eq!(input.target_node_index, 1);
    assert!(matches!(input.edit_mode, CommentEditMode::Editing { .. }));
    let other = CommentTarget::Paragraph { paragraph_index: 2, word_range: None };
    assert!(start_editing_comment(&book, &lines, "c.xhtml".to_string(), other).is_none());
    let hidden = vec![text_line("para", Some(1))];
    assert!(start_editing_comment(&book, &hidden, "c.xhtml".to_string(), target).is_none());
}

#[test]
fn a_selection_starts_a_new_comment_or_an_edit() {
    let target = CommentTarget::Paragraph { paragraph_index: 1, word_range: None };
    let book = book_with("c.xhtml", target, "old");
    let lines = vec![text_line("Hello world", Some(4)), comment_line("c.xhtml", target)];
    assert!(start_comment_input(&book, &lines, None).is_none());
    let fresh = start_comment_input(&book, &lines, Some((pt(0, 0), pt(0, 5)))).unwrap();
    assert_eq!(fresh.target, CommentTarget::Paragraph { paragraph_index: 4, word_range: Some((0, 5)) });
    assert_eq!(fresh.target_line, 1);
    assert!(fresh.initial_lines.is_empty());
    assert!(matches!(fresh.edit_mode, CommentEditMode::Creating));
    let edit = start_comment_input(&book, &lines, Some((pt(0, 3), pt(1, 2)))).unwrap();
    assert_eq!(edit.initial_lines, vec!["old"]);
    assert_eq!(edit.target, target);
}

#[test]
fn saving_adds_updates_or_skips() {
    let target = CommentTarget::Paragraph { paragraph_index: 4, word_range: None };
    let mut book = BookComments::empty();
    let lines = vec![text_line("Hello world", Some(4))];
    let input = start_comment_input(&book, &lines, Some((pt(0, 0), pt(0, 11)))).unwrap();
    assert_eq!(input.target, target);
    let now = Timestamp { secs: 9, nanos: 0 };
    assert_eq!(save_comment(&mut book, &input, &vec!["  ".to_string()], Some("c.xhtml"), now), SaveOutcome::Skipped);
    assert!(book.get_all_comments().is_empty());
    assert_eq!(save_comment(&mut book, &input, &vec!["new".to_string()], None, now), SaveOutcome::Skipped);
    let text = vec!["first".to_string(), "second".to_string()];
    assert_eq!(save_comment(&mut book, &input, &text, Some("c.xhtml"), now), SaveOutcome::Added);
    assert_eq!(book.get_all_comments()[0].content, "first\nsecond");
    let mut shown = lines;
    shown.push(comment_line("c.xhtml", target));
    let edit = start_editing_comment(&book, &shown, "c.xhtml".to_string(), target).unwrap();
    let later = Timestamp { secs: 10, nanos: 0 };
    assert_eq!(save_comment(&mut book, &edit, &vec!["changed".to_string()], None, later), SaveOutcome::Updated(Ok(())));
    assert_eq!(book.get_all_comments()[0].content, "changed");
    assert_eq!(book.get_all_comments()[0].updated_at, later);
    book.delete_comment("c.xhtml", &target).unwrap();
    assert_eq!(
        save_comment(&mut book, &edit, &vec!["gone".to_string()], None, later),
        SaveOutcome::Updated(Err(CommentError::NotFound))
    );
}

#[test]
fn paragraph_comments_are_quoted_under_their_paragraph() {
    let target = CommentTarget::Paragraph { paragraph_index: 1, word_range: None };
    let c = Comment {
        chapter_href: "c.xhtml".to_string(),
        target,
        content: "hello world".to_string(),
        updated_at: Timestamp { secs: 0, nanos: 0 },
    };
    let rows = render_comment_as_quote(&c, &None, 12, 2).unwrap();
    let rows: Vec<(&str, &str)> = rows.iter().map(|(a, b)| (a.as_str(), b.as_str())).collect();
    assert_eq!(
        rows,
        vec![
            ("Note // 01-01-70 00:00", "Note // 01-01-70 00:00"),
            ("  > hello", "hello"),
            ("  > world", "world"),
            ("", ""),
        ]
    );
    let editing = Some(CommentEditMode::Editing { chapter_href: "c.xhtml".to_string(), target });
    assert_eq!(render_comment_as_quote(&c, &editing, 12, 2).unwrap().len(), 0);
    let mut code = c.clone();
    code.target = CommentTarget::CodeBlock { paragraph_index: 1, line_range: (0, 0) };
    assert_eq!(render_comment_as_quote(&code, &None, 12, 2).unwrap().len(), 0);
    let mut far = c.clone();
    far.updated_at = Timestamp { secs: i64::MAX, nanos: 0 };
    assert!(render_comment_as_quote(&far, &None, 12, 2).is_none());
}

#[test]
fn table_columns_ask_for_their_widest_cell() {
    let headers = vec!["Name".to_string(), "A much longer header".to_string()];
    let rows = vec![
        vec!["x".to_string(), "y".to_string(), "z".to_string()],
        vec!["**bold**".to_string()],
    ];
    assert_eq!(desired_column_widths(&headers, &rows), vec![8, 20, 8]);
    assert_eq!(desired_column_widths(&vec![], &vec![]), Vec::<usize>::new());
    assert_eq!(table_cell_space(40, 3), 36);
    assert_eq!(table_cell_space(3, 3), 0);
    assert_eq!(table_cell_space(10, 0), 8);
}

#[test]
fn deleting_the_selected_comment() {
    let target = CommentTarget::Paragraph { paragraph_index: 1, word_range: None };
    let mut book = book_with("c.xhtml", target, "remove me");
    let lines = vec![text_line("para", Some(1)), comment_line("c.xhtml", target)];
    let mut r = MarkdownTextReader::new();
    assert!(!r.delete_comment_at_selection(&mut book, &lines, pt(0, 0), pt(0, 2)));
    assert_eq!(book.get_all_comments().len(), 1);
    assert_eq!(r.cache_generation, 0);
    assert!(r.delete_comment_at_selection(&mut book, &lines, pt(0, 0), pt(1, 2)));
    assert!(book.get_all_comments().is_empty());
    assert_eq!(r.cache_generation, 1);
    r.delete_comment_by_location(&mut book, "c.xhtml", &target);
    assert_eq!(r.cache_generation, 2);
}

#[test]
fn chapter_comments_grouped_by_node() {
    let mut book = BookComments::empty();
    let entries = [
        ("c.xhtml", 2, None, "b", 1),
        ("c.xhtml", 1, None, "a", 2),
        ("d.xhtml", 1, None, "x", 3),
        ("c.xhtml", 2, Some((0, 3)), "c", 4),
    ];
    for (href, node, word_range, text, secs) in entries {
        book.add_comment(Comment {
            chapter_href: href.to_string(),
            target: CommentTarget::Paragraph { paragraph_index: node, word_range },
            content: text.to_string(),
            updated_at: Timestamp { secs, nanos: 0 },
        });
    }
    assert!(chapter_comments_by_node(&book, None).is_empty());
    let mut groups = chapter_comments_by_node(&book, Some("c.xhtml"));
    groups.sort_by_key(|g| g.0);
    assert_eq!(groups.len(), 2);
    assert_eq!(groups[0].0, 1);
    assert_eq!(groups[0].1.iter().map(|c| c.content.as_str()).collect::<Vec<_>>(), vec!["a"]);
    assert_eq!(groups[1].0, 2);
    assert_eq!(groups[1].1.iter().map(|c| c.content.as_str()).collect::<Vec<_>>(), vec!["b", "c"]);
    assert!(chapter_comments_by_node(&book, Some("e.xhtml")).is_empty());
}
