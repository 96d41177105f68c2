//! Layout of code blocks with the comments on their lines.
use bookokrat::code_block::{render_code_block, render_inline_code_comment, CodeBlockRow};
use bookokrat::comments::{Comment, CommentTarget, Timestamp};

fn code_comment(range: (usize, usize), content: &str) -> Comment {
    Comment {
        chapter_href: "ch.xhtml".to_string(),
        target: CommentTarget::CodeBlock { paragraph_index: 3, line_range: range },
        content: content.to_string(),
        updated_at: Timestamp { secs: 0, nanos: 0 },
    }
}

fn code_text(row: &CodeBlockRow) -> (&str, bool, Vec<(usize, usize)>) {
    match row {
        CodeBlockRow::Code { text, covered, fragments, .. } => {
            (text.as_str(), *covered, fragments.iter().map(|f| (f.start_column, f.end_column)).collect())
        }
        _ => panic!("expected a code row"),
    }
}

fn note(row: &CodeBlockRow) -> (&str, &str) {
    match row {
        CodeBlockRow::Note { prefix, segment, .. } => (prefix.as_str(), segment.as_str()),
        _ => panic!("expected a note row"),
    }
}

#[test]
fn plain_code_lines() {
    let rows = render_code_block("let a = 1;\nlet b = 2;", &[], Some(3), 40, 0, false);
    assert_eq!(rows.len(), 3);
    assert_eq!(code_text(&rows[0]), ("let a = 1;", false, vec![]));
    match &rows[1] {
        CodeBlockRow::Code { code_start, code_end, line_index, total_lines, .. } => {
            assert_eq!((*code_start, *code_end, *line_index, *total_lines), (0, 10, 1, 2));
        }
        _ => panic!("expected a code row"),
    }
    assert!(matches!(rows[2], CodeBlockRow::Blank));
}

#[test]
fn indentation_and_spacing() {
    let rows = render_code_block("x", &[], None, 40, 2, true);
    assert_eq!(rows.len(), 3);
    assert!(matches!(rows[0], CodeBlockRow::Blank));
    match &rows[1] {
        CodeBlockRow::Code { text, code_start, code_end, .. } => {
            assert_eq!(text, "    x");
            assert_eq!((*code_start, *code_end), (4, 5));
        }
        _ => panic!("expected a code row"),
    }
}

#[test]
fn an_empty_block_has_one_empty_line() {
    let rows = render_code_block("", &[], Some(0), 40, 0, false);
    assert_eq!(rows.len(), 2);
    assert_eq!(code_text(&rows[0]), ("", false, vec![]));
}

#[test]
fn a_short_comment_is_written_after_its_line() {
    let comments = vec![code_comment((0, 0), "note")];
    let rows = render_code_block("let a = 1;\nlet b = 2;", &comments, Some(3), 40, 0, false);
    assert_eq!(rows.len(), 3);
    assert_eq!(code_text(&rows[0]), ("let a = 1;  ⟵ note", true, vec![(10, 18)]));
    assert_eq!(code_text(&rows[1]), ("let b = 2;", false, vec![]));
}

#[test]
fn several_short_comments_share_the_line() {
    let comments = vec![code_comment((0, 0), "one"), code_comment((0, 0), "  two  \n")];
    let rows = render_code_block("x", &comments, Some(3), 40, 0, false);
    assert_eq!(code_text(&rows[0]), ("x  ⟵ one | ⟵ two", true, vec![(1, 8), (8, 16)]));
}

#[test]
fn short_comments_are_cut_to_the_width() {
    let comments = vec![code_comment((0, 0), "note")];
    let rows = render_code_block("let a = 1;", &comments, Some(3), 16, 0, false);
    assert_eq!(code_text(&rows[0]), ("let a = 1;  ⟵ n…", true, vec![(10, 16)]));
    let rows = render_code_block("let a = 1;", &comments, Some(3), 15, 0, false);
    assert_eq!(code_text(&rows[0]), ("let a = 1;  ⟵ …", true, vec![(10, 15)]));
    let rows = render_code_block("let a = 1;", &comments, Some(3), 12, 0, false);
    assert_eq!(code_text(&rows[0]), ("let a = 1;  ⟵ ", true, vec![(10, 14)]));
}

#[test]
fn a_blank_comment_reads_comment() {
    let comments = vec![code_comment((0, 0), "   ")];
    let rows = render_code_block("x", &comments, Some(3), 40, 0, false);
    assert_eq!(code_text(&rows[0]).0, "x  ⟵ (comment)");
}

#[test]
fn a_longer_comment_is_shown_under_its_last_line() {
    let comments = vec![code_comment((0, 1), "first\n\n\nsecond\n")];
    let rows = render_code_block("a\nb\nc", &comments, Some(3), 40, 1, false);
    assert_eq!(rows.len(), 7);
    assert_eq!(code_text(&rows[0]), ("  a", true, vec![]));
    assert_eq!(code_text(&rows[1]), ("  b", true, vec![]));
    assert_eq!(note(&rows[2]), ("  ⟵ ", "first"));
    assert_eq!(note(&rows[3]), ("     ", ""));
    assert_eq!(note(&rows[4]), ("     ", "second"));
    assert_eq!(code_text(&rows[5]), ("  c", false, vec![]));
    assert!(matches!(rows[6], CodeBlockRow::Blank));
}

#[test]
fn ranges_past_the_block_are_held_to_its_last_line() {
    let comments = vec![code_comment((9, 1), "wide\nnote")];
    let rows = render_code_block("a\nb\nc", &comments, Some(3), 40, 0, false);
    assert_eq!(code_text(&rows[0]), ("a", false, vec![]));
    assert_eq!(code_text(&rows[1]), ("b", true, vec![]));
    assert_eq!(code_text(&rows[2]), ("c", true, vec![]));
    assert_eq!(note(&rows[3]), ("⟵ ", "wide"));
    assert_eq!(note(&rows[4]), ("   ", "note"));
}

#[test]
fn long_comments_are_wrapped() {
    let c = code_comment((0, 2), "aaaa bbbb cccc dddd");
    let rows = render_inline_code_comment(&c, 14, 0);
    let lines: Vec<(&str, &str)> = rows.iter().map(note).collect();
    assert_eq!(lines, vec![("⟵ ", "aaaa bbbb"), ("   ", "cccc dddd")]);
    let empty = render_inline_code_comment(&code_comment((0, 2), " \n"), 40, 0);
    assert_eq!(empty.iter().map(note).collect::<Vec<_>>(), vec![("⟵ ", "(no content)")]);
}

#[test]
fn without_a_node_no_comment_is_shown() {
    let comments = vec![code_comment((0, 0), "hidden")];
    let rows = render_code_block("x", &comments, None, 40, 0, false);
    assert_eq!(code_text(&rows[0]), ("x", false, vec![]));
}
