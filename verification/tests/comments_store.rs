//! A book's comments: adding, updating, deleting and looking them up.
use bookokrat::comments::{book_hash, comments_file_name, BookComments, Comment, CommentError, CommentTarget, Timestamp};

fn at(secs: i64) -> Timestamp {
    Timestamp { secs, nanos: 0 }
}

fn create_paragraph_comment(chapter: &str, node: usize, content: &str) -> Comment {
    Comment {
        chapter_href: chapter.to_string(),
        target: CommentTarget::Paragraph { paragraph_index: node, word_range: None },
        content: content.to_string(),
        updated_at: at(1_700_000_000),
    }
}

fn create_code_comment(chapter: &str, node: usize, line_range: (usize, usize), content: &str) -> Comment {
    Comment {
        chapter_href: chapter.to_string(),
        target: CommentTarget::CodeBlock { paragraph_index: node, line_range },
        content: content.to_string(),
        updated_at: at(1_700_000_000),
    }
}

#[test]
fn test_add_and_get_comments() {
    let mut book_comments = BookComments::empty();

    let comment = create_paragraph_comment("chapter1.xhtml", 3, "Nice paragraph");
    book_comments.add_comment(comment.clone());

    let comments = book_comments.get_node_comments("chapter1.xhtml", 3);
    assert_eq!(comments.len(), 1);
    assert_eq!(comments[0].content, comment.content);
}

#[test]
fn test_update_comment() {
    let mut book_comments = BookComments::empty();

    let comment = create_paragraph_comment("chapter1.xhtml", 1, "Old text");
    book_comments.add_comment(comment.clone());

    let new_content = "Updated text".to_string();
    book_comments.update_comment("chapter1.xhtml", &comment.target, new_content.clone()).unwrap();

    let comments = book_comments.get_node_comments("chapter1.xhtml", 1);
    assert_eq!(comments[0].content, new_content);
}

#[test]
fn test_delete_comment() {
    let mut book_comments = BookComments::empty();

    let comment = create_paragraph_comment("chapter1.xhtml", 2, "Delete me");
    book_comments.add_comment(comment.clone());

    book_comments.delete_comment("chapter1.xhtml", &comment.target).unwrap();

    let comments = book_comments.get_node_comments("chapter1.xhtml", 2);
    assert!(comments.is_empty());
}

#[test]
fn test_code_block_comments() {
    let mut book_comments = BookComments::empty();

    let comment = create_code_comment("chapter2.xhtml", 5, (1, 3), "Highlight lines");
    book_comments.add_comment(comment.clone());

    let comments = book_comments.get_node_comments("chapter2.xhtml", 5);
    assert_eq!(comments.len(), 1);
    assert_eq!(comments[0].target.line_range(), Some((1, 3)));
}

#[test]
fn test_multiple_code_comments_same_line_range() {
    let mut book_comments = BookComments::empty();

    let comment_a = create_code_comment("chapter.xhtml", 2, (0, 0), "First note");
    let comment_b = create_code_comment("chapter.xhtml", 2, (0, 0), "Second note");

    book_comments.add_comment(comment_a.clone());
    book_comments.add_comment(comment_b.clone());

    let comments = book_comments.get_node_comments("chapter.xhtml", 2);
    assert_eq!(comments.len(), 2);
    assert_eq!(comments[0].content, "First note");
    assert_eq!(comments[1].content, "Second note");
}

#[test]
fn test_sorting_respects_targets() {
    let mut book_comments = BookComments::empty();

    let comment_a = create_paragraph_comment("chapter.xhtml", 1, "A");
    let comment_b = create_code_comment("chapter.xhtml", 1, (2, 4), "B");
    let comment_c = create_paragraph_comment("chapter.xhtml", 0, "C");

    book_comments.add_comment(comment_a);
    book_comments.add_comment(comment_b);
    book_comments.add_comment(comment_c);

    let all = book_comments.get_all_comments();
    assert_eq!(all[0].node_index(), 0);
    assert_eq!(all[1].node_index(), 1);
    assert!(all[1].is_paragraph_comment());
    assert!(matches!(all[2].target, CommentTarget::CodeBlock { .. }));
}

#[test]
fn paragraph_comment_replaces_the_one_at_its_location() {
    let mut book_comments = BookComments::empty();
    book_comments.add_comment(create_paragraph_comment("ch.xhtml", 4, "first"));
    book_comments.add_comment(create_paragraph_comment("ch.xhtml", 4, "second"));
    let comments = book_comments.get_node_comments("ch.xhtml", 4);
    assert_eq!(comments.len(), 1);
    assert_eq!(comments[0].content, "second");
}

#[test]
fn word_ranges_make_separate_locations() {
    let mut book_comments = BookComments::empty();
    let mut a = create_paragraph_comment("ch.xhtml", 4, "words");
    a.target = CommentTarget::Paragraph { paragraph_index: 4, word_range: Some((1, 2)) };
    book_comments.add_comment(a);
    book_comments.add_comment(create_paragraph_comment("ch.xhtml", 4, "whole"));
    let comments = book_comments.get_node_comments("ch.xhtml", 4);
    assert_eq!(comments.len(), 2);
    assert_eq!(comments[0].content, "whole");
    assert_eq!(comments[1].content, "words");
}

#[test]
fn update_of_a_missing_comment_is_refused() {
    let mut book_comments = BookComments::empty();
    book_comments.add_comment(create_paragraph_comment("ch.xhtml", 1, "kept"));
    let target = CommentTarget::Paragraph { paragraph_index: 9, word_range: None };
    let r = book_comments.update_comment("ch.xhtml", &target, "new".to_string());
    assert_eq!(r, Err(CommentError::NotFound));
    assert_eq!(CommentError::NotFound.message(), "Comment not found");
    assert_eq!(book_comments.get_all_comments().len(), 1);
    assert_eq!(book_comments.get_all_comments()[0].content, "kept");
}

#[test]
fn update_at_sets_content_and_time() {
    let mut book_comments = BookComments::empty();
    let c = create_paragraph_comment("ch.xhtml", 1, "old");
    book_comments.add_comment(c.clone());
    book_comments.update_comment_at("ch.xhtml", &c.target, "new".to_string(), at(42)).unwrap();
    let all = book_comments.get_all_comments();
    assert_eq!(all[0].content, "new");
    assert_eq!(all[0].updated_at, at(42));
}

#[test]
fn delete_of_a_missing_comment_is_refused() {
    let mut book_comments = BookComments::empty();
    let target = CommentTarget::CodeBlock { paragraph_index: 0, line_range: (0, 1) };
    assert_eq!(book_comments.delete_comment("x.xhtml", &target), Err(CommentError::NotFound));
}

#[test]
fn delete_removes_only_the_first_at_a_location() {
    let mut book_comments = BookComments::empty();
    book_comments.add_comment(create_code_comment("ch.xhtml", 2, (0, 0), "one"));
    book_comments.add_comment(create_code_comment("ch.xhtml", 2, (0, 0), "two"));
    let target = CommentTarget::CodeBlock { paragraph_index: 2, line_range: (0, 0) };
    book_comments.delete_comment("ch.xhtml", &target).unwrap();
    let comments = book_comments.get_node_comments("ch.xhtml", 2);
    assert_eq!(comments.len(), 1);
    assert_eq!(comments[0].content, "two");
}

#[test]
fn chapter_comments_are_those_of_the_chapter_in_order() {
    let mut book_comments = BookComments::empty();
    book_comments.add_comment(create_paragraph_comment("b.xhtml", 3, "b3"));
    book_comments.add_comment(create_paragraph_comment("a.xhtml", 1, "a1"));
    book_comments.add_comment(create_paragraph_comment("b.xhtml", 0, "b0"));
    let chapter = book_comments.get_chapter_comments("b.xhtml");
    let contents: Vec<&str> = chapter.iter().map(|c| c.content.as_str()).collect();
    assert_eq!(contents, vec!["b0", "b3"]);
}

#[test]
fn comment_locations_and_target_keys() {
    let c = create_code_comment("ch.xhtml", 7, (2, 5), "x");
    assert!(c.matches_location("ch.xhtml", &CommentTarget::CodeBlock { paragraph_index: 7, line_range: (2, 5) }));
    assert!(!c.matches_location("ch.xhtml", &CommentTarget::CodeBlock { paragraph_index: 7, line_range: (2, 6) }));
    assert!(!c.matches_location("other.xhtml", &c.target));
    assert_eq!(c.target.kind_order(), 1);
    assert_eq!(c.target.secondary_sort_key(), (2, 5));
    assert_eq!(c.target.word_range(), None);
    let p = CommentTarget::Paragraph { paragraph_index: 3, word_range: Some((4, 9)) };
    assert_eq!(p.kind_order(), 0);
    assert_eq!(p.secondary_sort_key(), (4, 9));
    assert_eq!(p.word_range(), Some((4, 9)));
    assert_eq!(p.line_range(), None);
    assert_eq!(p.node_index(), 3);
    let whole = CommentTarget::Paragraph { paragraph_index: 3, word_range: None };
    assert_eq!(whole.secondary_sort_key(), (0, 0));
}

#[test]
fn book_hash_is_md5_of_the_name() {
    assert_eq!(book_hash(""), "d41d8cd98f00b204e9800998ecf8427e");
    assert_eq!(book_hash("abc"), "900150983cd24fb0d6963f7d28e17f72");
    assert_eq!(comments_file_name("abc"), "book_900150983cd24fb0d6963f7d28e17f72.yaml");
}
