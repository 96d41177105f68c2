//! The comments viewer: entries grouped from comments, chapters, keys.
use bookokrat::comments::{Comment, CommentTarget, Timestamp};
use bookokrat::widget::comments_viewer::{
    build_entries, chapter_basename, find_chapter_title, shorten_quote, estimate_entry_height, fallback_chapter_title, normalize_href,
    truncate_with_ellipsis, chapter_list_label, ChapterDisplay, CommentsViewer, CommentsViewerAction, ViewerFocus,
};
use bookokrat::widget::common::{Key, KeyPress, TocEntry};
use bookokrat::widget::entry_height::{
    calculate_entry_height_for_width, comment_header_text, wrap_text, wrapped_line_count,
};

fn comment(href: &str, target: CommentTarget, content: &str) -> Comment {
    Comment {
        chapter_href: href.to_string(),
        target,
        content: content.to_string(),
        updated_at: Timestamp { secs: 0, nanos: 0 },
    }
}

fn para(n: usize) -> CommentTarget {
    CommentTarget::Paragraph { paragraph_index: n, word_range: None }
}

fn code(n: usize, a: usize, b: usize) -> CommentTarget {
    CommentTarget::CodeBlock { paragraph_index: n, line_range: (a, b) }
}

fn chapter(title: &str, href: &str, count: usize) -> ChapterDisplay {
    ChapterDisplay { title: title.to_string(), href: Some(href.to_string()), depth: 0, comment_count: count }
}

fn ch(c: char) -> KeyPress {
    KeyPress { key: Key::Char(c), ctrl: false }
}

fn viewer() -> CommentsViewer {
    let comments = vec![
        comment("ch1.xhtml", para(0), "first"),
        comment("ch1.xhtml", para(3), "second"),
        comment("ch2.xhtml", code(1, 0, 2), "code a"),
        comment("ch2.xhtml", code(1, 4, 4), "code b"),
    ];
    let titles = vec!["One".to_string(), "One".to_string(), "Two".to_string(), "Two".to_string()];
    let quotes = vec!["q0".to_string(), "q3".to_string(), "c".to_string(), "c".to_string()];
    let entries = build_entries(&comments, &titles, &quotes);
    let chapters = vec![chapter("One", "ch1.xhtml", 2), chapter("Two", "ch2.xhtml", 2)];
    CommentsViewer::new(entries, chapters, Some("ch1.xhtml"))
}

#[test]
fn code_comments_share_an_entry() {
    let comments = vec![
        comment("ch2.xhtml", code(1, 0, 2), "code a"),
        comment("ch2.xhtml", para(2), "text"),
        comment("ch2.xhtml", code(1, 4, 4), "code b"),
    ];
    let titles = vec!["Two".to_string(); 3];
    let quotes = vec![String::new(); 3];
    let entries = build_entries(&comments, &titles, &quotes);
    assert_eq!(entries.len(), 2);
    assert!(entries[0].is_code_block());
    assert_eq!(entries[0].comment_count(), 2);
    assert_eq!(entries[0].comments()[1].content, "code b");
    assert_eq!(entries[1].primary_comment().content, "text");
    assert_eq!(entries[0].render_start_line, 0);
    assert_eq!(entries[0].render_end_line, estimate_entry_height(true, 1, "code a"));
}

#[test]
fn entry_heights() {
    assert_eq!(estimate_entry_height(true, 1, "one line"), 5);
    assert_eq!(estimate_entry_height(false, 2, "a\nb\nc"), 3 + 2 + 6 + 1);
}

#[test]
fn the_current_chapter_is_shown_first() {
    let v = viewer();
    assert_eq!(v.selected_chapter_index(), 0);
    assert_eq!(v.rendered_entries().len(), 2);
    assert_eq!(v.all_entries().len(), 3);
    assert_eq!(v.selected_index(), 0);
    assert_eq!(v.focus(), ViewerFocus::Comments);
    assert!(!v.is_global_search_mode());
}

#[test]
fn keys_move_and_jump() {
    let mut v = viewer();
    assert!(v.handle_key(ch('j'), false, false, false).is_none());
    assert_eq!(v.selected_index(), 1);
    v.handle_key(ch('j'), false, false, false);
    assert_eq!(v.selected_index(), 1);
    match v.handle_key(KeyPress { key: Key::Enter, ctrl: false }, false, false, false) {
        Some(CommentsViewerAction::JumpToComment { chapter_href, target }) => {
            assert_eq!(chapter_href, "ch1.xhtml");
            assert_eq!(target, para(3));
        }
        _ => panic!("expected a jump"),
    }
    v.handle_key(ch('k'), false, false, false);
    assert_eq!(v.selected_index(), 0);
    assert!(v.handle_key(ch('d'), false, false, false).is_none());
    assert!(matches!(
        v.handle_key(ch('d'), false, true, false),
        Some(CommentsViewerAction::DeleteSelectedComment)
    ));
    assert!(v.handle_key(KeyPress { key: Key::Esc, ctrl: false }, false, false, true).is_none());
    assert!(matches!(
        v.handle_key(KeyPress { key: Key::Esc, ctrl: false }, false, false, false),
        Some(CommentsViewerAction::Close)
    ));
}

#[test]
fn all_comments_mode_and_back() {
    let mut v = viewer();
    v.handle_key(ch('?'), false, false, false);
    assert!(v.is_global_search_mode());
    assert_eq!(v.rendered_entries().len(), 3);
    v.handle_key(ch('?'), false, false, false);
    assert!(!v.is_global_search_mode());
    assert_eq!(v.rendered_entries().len(), 2);
    assert_eq!(v.selected_chapter_index(), 0);
}

#[test]
fn focus_toggles_with_tab() {
    let mut v = viewer();
    v.handle_key(KeyPress { key: Key::Tab, ctrl: false }, false, false, false);
    assert_eq!(v.focus(), ViewerFocus::Chapters);
    v.handle_key(KeyPress { key: Key::Tab, ctrl: false }, false, false, false);
    assert_eq!(v.focus(), ViewerFocus::Comments);
}

#[test]
fn removing_the_selected_entry() {
    let mut v = viewer();
    v.handle_key(ch('j'), false, false, false);
    let removed = v.remove_selected_comment();
    assert_eq!(removed.len(), 1);
    assert_eq!(removed[0].content, "second");
    assert_eq!(v.rendered_entries().len(), 1);
    assert_eq!(v.all_entries().len(), 2);
    assert_eq!(v.selected_index(), 0);
}

#[test]
fn reference_helpers() {
    assert_eq!(normalize_href("text/ch1.xhtml#sec"), "text/ch1.xhtml");
    assert_eq!(normalize_href("ch1.xhtml"), "ch1.xhtml");
    assert_eq!(chapter_basename("OEBPS/text/ch1.xhtml#x"), "ch1.xhtml");
    assert_eq!(fallback_chapter_title("my_first-chapter.xhtml"), "my first chapter");
    assert_eq!(fallback_chapter_title("part-one/ch.html"), "part one");
    assert_eq!(truncate_with_ellipsis("abcdef", 4), "abc…");
    assert_eq!(truncate_with_ellipsis("ab", 4), "ab");
    assert_eq!(truncate_with_ellipsis("abc", 4), "abc…");
    assert_eq!(truncate_with_ellipsis("abc", 0), "");
}

#[test]
fn text_is_wrapped_line_by_line() {
    assert_eq!(wrap_text("aaaa bbbb cccc", 9), vec!["aaaa bbbb", "cccc"]);
    assert_eq!(wrap_text("one\r\n\ntwo", 20), vec!["one", "", "two"]);
    assert_eq!(wrap_text("", 20), vec![""]);
    assert_eq!(wrapped_line_count("abc def", 3), 2);
}

#[test]
fn comment_headers() {
    let comments = vec![comment("ch2.xhtml", code(1, 0, 2), "a"), comment("ch2.xhtml", code(1, 4, 4), "b")];
    let entries = build_entries(&comments, &vec!["T".to_string(); 2], &vec![String::new(); 2]);
    let e = &entries[0];
    assert_eq!(comment_header_text(e, 0, &e.comments[0]).unwrap(), "[1] Lines 1-3 // 01-01-70 00:00");
    assert_eq!(comment_header_text(e, 1, &e.comments[1]).unwrap(), "[2] Line 5 // 01-01-70 00:00");
    let single = build_entries(&comments[..1], &vec!["T".to_string()], &vec![String::new()]);
    let mut c = comment("ch1.xhtml", para(0), "x");
    c.updated_at = Timestamp { secs: 1_700_000_000, nanos: 0 };
    assert_eq!(comment_header_text(&single[0], 0, &c).unwrap(), "Note // 11-14-23 22:13");
    c.updated_at = Timestamp { secs: i64::MAX, nanos: 0 };
    assert_eq!(comment_header_text(&single[0], 0, &c), None);
}

#[test]
fn entry_heights_at_a_width() {
    let comments = vec![comment("ch1.xhtml", para(0), "hello\nworld")];
    let entries = build_entries(&comments, &vec!["One".to_string()], &vec!["quoted".to_string()]);
    assert_eq!(calculate_entry_height_for_width(&entries[0], 40, true), Some(1 + 1 + 1 + 2 + 1));
    assert_eq!(calculate_entry_height_for_width(&entries[0], 40, false), Some(1 + 1 + 2 + 1));
    let two = vec![comment("ch2.xhtml", code(1, 0, 0), "a"), comment("ch2.xhtml", code(1, 1, 1), "b")];
    let grouped = build_entries(&two, &vec!["Two".to_string(); 2], &vec!["q".to_string(); 2]);
    assert_eq!(calculate_entry_height_for_width(&grouped[0], 40, true), Some(1 + 1 + (1 + 1 + 1) + (1 + 1) + 1));
}

#[test]
fn layout_follows_the_wrapped_heights() {
    let mut v = viewer();
    assert!(v.recalculate_entry_layout(40, 100));
    let e = v.rendered_entries();
    assert_eq!((e[0].render_start_line, e[0].render_end_line), (0, 5));
    assert_eq!((e[1].render_start_line, e[1].render_end_line), (5, 9));
    assert_eq!(v.total_rendered_lines(), 9);
}

#[test]
fn quotes_are_cut_after_eighty_characters() {
    let long = "x".repeat(85);
    assert_eq!(shorten_quote(&long), format!("{}...", "x".repeat(80)));
    let exact = "y".repeat(80);
    assert_eq!(shorten_quote(&exact), exact);
}

#[test]
fn chapter_titles_come_from_the_table_of_contents() {
    let toc = vec![
        TocEntry::Chapter { title: "Intro".to_string(), href: "text/intro.xhtml".to_string() },
        TocEntry::Section {
            title: "Part".to_string(),
            href: None,
            children: vec![TocEntry::Chapter { title: "Deep".to_string(), href: "text/deep.xhtml".to_string() }],
        },
    ];
    assert_eq!(find_chapter_title("text/deep.xhtml", &toc), "Deep");
    assert_eq!(find_chapter_title("text/intro.xhtml", &toc), "Intro");
    assert_eq!(find_chapter_title("text/other-part.xhtml", &toc), "text");
    assert_eq!(find_chapter_title("other_part.html", &toc), "other_part");
}

#[test]
fn searchable_content_of_the_shown_entries() {
    let v = viewer();
    assert_eq!(v.collect_searchable_content(), vec!["One q0 first", "One q3 second"]);
    let comments = vec![comment("ch2.xhtml", code(1, 0, 0), "a"), comment("ch2.xhtml", code(1, 1, 1), "b")];
    let grouped = build_entries(&comments, &vec!["Two".to_string(); 2], &vec!["q".to_string(); 2]);
    let chapters = vec![chapter("Two", "ch2.xhtml", 2)];
    let w = CommentsViewer::new(grouped, chapters, Some("ch2.xhtml"));
    assert_eq!(w.collect_searchable_content(), vec!["Two q a b"]);
}

#[test]
fn a_search_match_selects_its_entry() {
    let mut v = viewer();
    v.jump_to_match(5);
    assert_eq!(v.selected_index(), 1);
    v.jump_to_match(0);
    assert_eq!(v.selected_index(), 0);
}

#[test]
fn chapter_list_labels() {
    let c = chapter("Intro", "a.xhtml", 3);
    assert_eq!(chapter_list_label(&c, 40), ("Intro".to_string(), " (3)".to_string()));
    let none = chapter("Intro", "a.xhtml", 0);
    assert_eq!(chapter_list_label(&none, 40).1, "  (0)");
    let deep = ChapterDisplay { title: "Deep".to_string(), href: None, depth: 6, comment_count: 12 };
    assert_eq!(chapter_list_label(&deep, 40), ("        Deep".to_string(), " (12)".to_string()));
    let long = chapter("A rather long chapter title", "b.xhtml", 1);
    assert_eq!(chapter_list_label(&long, 14).0, "A rather …");
    assert_eq!(chapter_list_label(&long, 3).0, "");
}

#[test]
fn other_keys_change_nothing() {
    let mut v = viewer();
    v.handle_key(ch('j'), false, false, false);
    let (sel, scroll, focus) = (v.selected_index(), v.scroll_offset(), v.focus());
    for c in ['/', 'n', 'N', 'x', 'u', 'g'] {
        assert!(v.handle_key(ch(c), false, false, false).is_none());
        assert_eq!((v.selected_index(), v.scroll_offset(), v.focus()), (sel, scroll, focus));
    }
}
