//! The help screen, the theme selector and the chapter statistics.
use bookokrat::theme::{current_theme_index, current_theme_name, ThemeRegistry};
use bookokrat::widget::book_stat::{
    calculate_screens, count_lines, find_resource_by_path, find_spine_index, toc_documents_of, BookStat,
    BookStatAction,
};
use bookokrat::widget::common::{is_outside, Key, KeyPress, PopupArea, TocEntry};
use bookokrat::widget::help_popup::{
    ansi_art_text, art_lines, cell_background, preprocess_custom_ansi, strip_sauce_metadata, to_color,
    CellColor, HelpPopup, HelpPopupAction, TermColor,
};
use bookokrat::widget::theme_selector::{ThemeSelector, ThemeSelectorAction};

fn ch(c: char) -> KeyPress {
    KeyPress { key: Key::Char(c), ctrl: false }
}

fn ctrl(c: char) -> KeyPress {
    KeyPress { key: Key::Char(c), ctrl: true }
}

fn key(k: Key) -> KeyPress {
    KeyPress { key: k, ctrl: false }
}

fn area(x: u16, y: u16, width: u16, height: u16) -> PopupArea {
    PopupArea { x, y, width, height }
}

#[test]
fn help_scrolls_within_its_lines() {
    let mut help = HelpPopup::new(30);
    help.scroll_up();
    assert_eq!(help.scroll_offset(), 0);
    help.handle_key(ch('j'), false);
    help.handle_key(ch('j'), false);
    assert_eq!(help.scroll_offset(), 2);
    help.handle_key(ch('G'), false);
    assert_eq!(help.scroll_offset(), 29);
    help.scroll_down();
    assert_eq!(help.scroll_offset(), 29);
    let (action, clear) = help.handle_key(ch('g'), true);
    assert!(action.is_none());
    assert!(clear);
    assert_eq!(help.scroll_offset(), 0);
}

#[test]
fn help_pages_by_half_its_height() {
    let mut help = HelpPopup::new(100);
    help.handle_key(ctrl('d'), false);
    assert_eq!(help.scroll_offset(), 10);
    help.set_popup_area(area(0, 0, 40, 20));
    help.handle_key(ctrl('d'), false);
    assert_eq!(help.scroll_offset(), 20);
    help.handle_key(ctrl('u'), false);
    assert_eq!(help.scroll_offset(), 10);
    help.handle_key(ctrl('u'), false);
    help.handle_key(ctrl('u'), false);
    assert_eq!(help.scroll_offset(), 0);
}

#[test]
fn help_closes_on_escape_and_question_mark() {
    let mut help = HelpPopup::new(5);
    assert!(matches!(help.handle_key(key(Key::Esc), false).0, Some(HelpPopupAction::Close)));
    assert!(matches!(help.handle_key(ch('?'), false).0, Some(HelpPopupAction::Close)));
    assert!(help.handle_key(ch('x'), false).0.is_none());
    assert!(help.handle_key(ch('g'), false).0.is_none());
}

#[test]
fn an_empty_help_screen_stays_at_the_top() {
    let mut help = HelpPopup::new(0);
    help.handle_key(ch('G'), false);
    help.handle_key(ch('j'), false);
    assert_eq!(help.scroll_offset(), 0);
}

#[test]
fn clicks_outside_a_popup() {
    let a = area(10, 5, 20, 10);
    assert!(!is_outside(Some(a), 10, 5));
    assert!(!is_outside(Some(a), 29, 14));
    assert!(is_outside(Some(a), 30, 14));
    assert!(is_outside(Some(a), 9, 6));
    assert!(is_outside(None, 0, 0));
    let mut help = HelpPopup::new(3);
    assert!(help.is_outside_popup_area(1, 1));
    help.set_popup_area(a);
    assert!(!help.is_outside_popup_area(12, 7));
}

fn sauce_file(body: &[u8], eof_mark: bool) -> Vec<u8> {
    let mut bytes = body.to_vec();
    if eof_mark {
        bytes.push(0x1A);
    }
    let mut record = b"SAUCE00".to_vec();
    record.resize(128, b' ');
    bytes.extend_from_slice(&record);
    bytes
}

#[test]
fn sauce_records_are_stripped() {
    let with_mark = sauce_file(b"ART", true);
    assert_eq!(strip_sauce_metadata(&with_mark), b"ART");
    let without_mark = sauce_file(b"ART", false);
    assert_eq!(strip_sauce_metadata(&without_mark), b"ART");
    let short = b"no record".to_vec();
    assert_eq!(strip_sauce_metadata(&short), b"no record");
    let mut other = vec![b'x'; 200];
    other[72] = b'S';
    assert_eq!(strip_sauce_metadata(&other).len(), 200);
}

#[test]
fn ansi_art_is_decoded_from_code_page_437() {
    assert_eq!(ansi_art_text(&[0x41, 0xB0, 0xDB]), "A░█");
    let art = sauce_file(&[0xC9, 0xCD, 0xBB], true);
    assert_eq!(ansi_art_text(&art), "╔═╗");
}

#[test]
fn art_colors() {
    assert_eq!(to_color(TermColor::Default), CellColor::Reset);
    assert_eq!(to_color(TermColor::Idx(0)), CellColor::Black);
    assert_eq!(to_color(TermColor::Idx(4)), CellColor::Rgb(0, 100, 255));
    assert_eq!(to_color(TermColor::Idx(15)), CellColor::White);
    assert_eq!(to_color(TermColor::Idx(16)), CellColor::Indexed(16));
    assert_eq!(to_color(TermColor::Rgb(1, 2, 3)), CellColor::Rgb(1, 2, 3));
    assert_eq!(cell_background(true, CellColor::Black), Some(CellColor::Black));
    assert_eq!(cell_background(false, CellColor::Rgb(0, 0, 0)), None);
    assert_eq!(cell_background(true, CellColor::Reset), None);
    assert_eq!(cell_background(false, CellColor::White), Some(CellColor::White));
}

#[test]
fn theme_selector_wraps_and_applies() {
    let mut registry = ThemeRegistry::new();
    let mut selector = ThemeSelector::new(&registry);
    assert_eq!(selector.selected(), Some(0));
    assert!(selector.handle_key(ch('k'), false, &mut registry).is_none());
    assert_eq!(selector.selected(), Some(3));
    selector.handle_key(ch('j'), false, &mut registry);
    assert_eq!(selector.selected(), Some(0));
    selector.handle_key(ch('j'), false, &mut registry);
    selector.handle_key(ch('j'), false, &mut registry);
    assert_eq!(selector.selected(), Some(2));
    let action = selector.handle_key(key(Key::Enter), false, &mut registry);
    assert!(matches!(action, Some(ThemeSelectorAction::ThemeChanged)));
    assert_eq!(current_theme_index(&registry), 2);
    assert_eq!(current_theme_name(&registry), "Kanagawa");
    let again = selector.handle_key(key(Key::Enter), false, &mut registry);
    assert!(matches!(again, Some(ThemeSelectorAction::Close)));
    assert!(matches!(
        selector.handle_key(key(Key::Esc), false, &mut registry),
        Some(ThemeSelectorAction::Close)
    ));
}

#[test]
fn theme_selector_jumps() {
    let mut registry = ThemeRegistry::new();
    let mut selector = ThemeSelector::new(&registry);
    selector.handle_key(ch('G'), false, &mut registry);
    assert_eq!(selector.selected(), Some(3));
    selector.handle_key(ch('g'), true, &mut registry);
    assert_eq!(selector.selected(), Some(0));
    selector.handle_key(ctrl('d'), false, &mut registry);
    assert_eq!(selector.selected(), Some(3));
    selector.handle_key(ctrl('u'), false, &mut registry);
    assert_eq!(selector.selected(), Some(0));
    assert_eq!(current_theme_index(&registry), 0);
}

#[test]
fn screens_count_wrapped_lines() {
    assert_eq!(calculate_screens("abc\n\nabcdef", 3, 2), 2);
    assert_eq!(calculate_screens("abc\n\nabcdef", 3, 4), 1);
    assert_eq!(calculate_screens("abcdefg", 3, 1), 3);
    assert_eq!(calculate_screens("", 3, 1), 0);
    assert_eq!(calculate_screens("abc", 0, 1), 0);
    assert_eq!(calculate_screens("abc", 3, 0), 0);
    assert_eq!(count_lines("a\r\nb\n"), 2);
    assert_eq!(count_lines(""), 0);
}

#[test]
fn chapter_statistics_and_jumps() {
    let mut stat = BookStat::new();
    let (width, lines) = stat.begin_stats((26, 12));
    assert_eq!((width, lines), (20, 4));
    stat.add_chapter_stat("One", "text", width, lines, 0, true);
    stat.add_chapter_stat("One, part two", "more\ntext\nhere\nnow\nend", width, lines, 1, false);
    stat.add_chapter_stat("Two", "x", width, lines, 2, true);
    stat.finish_stats();
    assert_eq!(stat.chapter_percentages(), vec![0, 75]);
    assert_eq!(stat.get_selected_chapter_index(), Some(0));
    assert!(!stat.is_visible());
    stat.show();
    assert!(stat.is_visible());
    assert!(stat.handle_key(ch('j'), false).is_none());
    assert_eq!(stat.get_selected_chapter_index(), Some(2));
    match stat.handle_key(key(Key::Enter), false) {
        Some(BookStatAction::JumpToChapter { chapter_index }) => assert_eq!(chapter_index, 2),
        _ => panic!("expected a jump"),
    }
    assert!(matches!(stat.handle_key(key(Key::Esc), false), Some(BookStatAction::Close)));
    stat.hide_popup();
    assert!(!stat.is_visible());
}

#[test]
fn popup_placement() {
    let p = BookStat::popup_area_in(area(0, 0, 100, 40));
    assert_eq!(p, area(10, 5, 80, 30));
    let small = BookStat::popup_area_in(area(0, 0, 50, 20));
    assert_eq!(small, area(5, 2, 40, 16));
}

#[test]
fn documents_of_the_table_of_contents() {
    let toc = vec![
        TocEntry::Chapter { title: "Intro".to_string(), href: "intro.xhtml".to_string() },
        TocEntry::Section {
            title: "Part".to_string(),
            href: None,
            children: vec![TocEntry::Chapter { title: "Deep".to_string(), href: "deep.xhtml#x".to_string() }],
        },
        TocEntry::Section { title: "Linked".to_string(), href: Some("linked.xhtml".to_string()), children: vec![] },
    ];
    let docs = toc_documents_of(&toc);
    let titles: Vec<(&str, bool)> = docs.iter().map(|d| (d.title.as_str(), d.is_top_level)).collect();
    assert_eq!(titles, vec![("Intro", true), ("Deep", false), ("Linked", true)]);
    let spine = vec![Some("OEBPS/intro.xhtml".to_string()), None, Some("OEBPS/deep.xhtml".to_string())];
    assert_eq!(find_spine_index(&spine, "deep.xhtml"), Some(2));
    assert_eq!(find_spine_index(&spine, "missing.xhtml"), None);
    let paths = vec!["OEBPS/intro.xhtml".to_string(), "OEBPS/deep.xhtml".to_string()];
    assert_eq!(find_resource_by_path(&paths, "intro.xhtml"), Some(0));
}

#[test]
fn custom_color_sequences_become_standard() {
    let input = "a\x1b[1;255;0;7tb\x1b[0;300;1;2tc";
    assert_eq!(preprocess_custom_ansi(input), "a\x1b[1m\x1b[38;2;255;0;7mb\x1b[38;2;0;1;2mc");
    assert_eq!(preprocess_custom_ansi("plain \x1b[2;1;1;1t"), "plain \x1b[2;1;1;1t");
    assert_eq!(preprocess_custom_ansi(""), "");
}

#[test]
fn art_cells_are_styled() {
    let lines = art_lines(b"AB\x1b[1;0;255;0tC", 2, 4);
    assert_eq!(lines.len(), 2);
    assert_eq!(lines[0].len(), 4);
    assert_eq!(lines[0][0].text, "A");
    assert_eq!(lines[0][0].fg, CellColor::Reset);
    assert_eq!(lines[0][0].bg, None);
    assert!(!lines[0][0].bold);
    assert_eq!(lines[0][2].text, "C");
    assert_eq!(lines[0][2].fg, CellColor::Rgb(0, 255, 0));
    assert!(lines[0][2].bold);
    assert_eq!(lines[0][3].text, " ");
    assert_eq!(lines[1][0].text, " ");
}
