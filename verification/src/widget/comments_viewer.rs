//! The comments viewer: the book's comments grouped into entries, the chapter
//! list beside them, and the viewer's navigation.
use vstd::prelude::*;
use crate::comments::{Comment, CommentView, CommentTarget, target_node, comments_view};
use crate::text::{chars_of, text_eq, string_from_chars, push_all, repeat, repeat_chars, utf8_len, utf8_len_of};
use crate::widget::book_stat::{text_lines, ends_with, count_lines};
use crate::widget::common::{PopupArea, Key, KeyPress, TocEntry, outside_area, is_outside, is_char};
use crate::widget::entry_height::{entry_height, calculate_entry_height_for_width, decimal, decimal_exec};

verus! {

/// Index of the first `c` in `s`, or -1.
pub open spec fn first_index_of(s: Seq<char>, c: char) -> int
    decreases s.len(),
{
    if s.len() == 0 {
        -1
    } else if s[0] == c {
        0
    } else {
        let r = first_index_of(s.drop_first(), c);
        if r < 0 {
            -1
        } else {
            r + 1
        }
    }
}

/// Index of the last `c` in `s`, or -1.
pub open spec fn last_index_of(s: Seq<char>, c: char) -> int
    decreases s.len(),
{
    if s.len() == 0 {
        -1
    } else if s.last() == c {
        s.len() - 1
    } else {
        last_index_of(s.drop_last(), c)
    }
}

proof fn lemma_first_index_of(s: Seq<char>, c: char)
    ensures
        -1 <= first_index_of(s, c) < s.len(),
        first_index_of(s, c) >= 0 ==> s[first_index_of(s, c)] == c,
        forall|k: int|
            0 <= k < (if first_index_of(s, c) < 0 { s.len() as int } else { first_index_of(s, c) })
                ==> #[trigger] s[k] != c,
    decreases s.len(),
{
    if s.len() > 0 && s[0] != c {
        lemma_first_index_of(s.drop_first(), c);
        assert forall|k: int| 0 < k < s.len() implies s[k] == s.drop_first()[k - 1] by {}
    }
}

proof fn lemma_last_index_of(s: Seq<char>, c: char)
    ensures
        -1 <= last_index_of(s, c) < s.len(),
        last_index_of(s, c) >= 0 ==> s[last_index_of(s, c)] == c,
        forall|k: int| last_index_of(s, c) < k < s.len() ==> #[trigger] s[k] != c,
    decreases s.len(),
{
    if s.len() > 0 && s.last() != c {
        lemma_last_index_of(s.drop_last(), c);
        assert forall|k: int| 0 <= k < s.len() - 1 implies s[k] == s.drop_last()[k] by {}
    }
}

/// The reference without its fragment (what comes before the first `#`).
pub open spec fn href_without_fragment(href: Seq<char>) -> Seq<char> {
    if first_index_of(href, '#') < 0 {
        href
    } else {
        href.take(first_index_of(href, '#'))
    }
}

/// What comes before the first `/` (the whole text when there is none).
pub open spec fn before_first_slash(s: Seq<char>) -> Seq<char> {
    if first_index_of(s, '/') < 0 {
        s
    } else {
        s.take(first_index_of(s, '/'))
    }
}

/// What comes after the last `/` (the whole text when there is none).
pub open spec fn after_last_slash(s: Seq<char>) -> Seq<char> {
    if last_index_of(s, '/') < 0 {
        s
    } else {
        s.skip(last_index_of(s, '/') + 1)
    }
}

/// The text without every trailing repetition of `pat`.
pub open spec fn trim_suffix_all(s: Seq<char>, pat: Seq<char>) -> Seq<char>
    decreases s.len(),
{
    if pat.len() > 0 && ends_with(s, pat) {
        trim_suffix_all(s.take(s.len() - pat.len()), pat)
    } else {
        s
    }
}

pub open spec fn dashes_to_spaces(s: Seq<char>) -> Seq<char> {
    s.map_values(|c: char| if c == '-' || c == '_' { ' ' } else { c })
}

/// Position of the first `c`, when there is one.
fn find_char(s: &Vec<char>, c: char) -> (r: Option<usize>)
    ensures
        match r {
            Some(i) => i < s@.len() && first_index_of(s@, c) == i,
            None => first_index_of(s@, c) == -1,
        },
{
    proof {
        lemma_first_index_of(s@, c);
    }
    let mut k: usize = 0;
    while k < s.len()
        invariant
            k <= s@.len(),
            forall|j: int| 0 <= j < k ==> #[trigger] s@[j] != c,
            -1 <= first_index_of(s@, c) < s@.len(),
            first_index_of(s@, c) >= 0 ==> s@[first_index_of(s@, c)] == c,
            forall|j: int|
                0 <= j < (if first_index_of(s@, c) < 0 {
                    s@.len() as int
                } else {
                    first_index_of(s@, c)
                }) ==> #[trigger] s@[j] != c,
        decreases s@.len() - k,
    {
        if s[k] == c {
            return Some(k);
        }
        k += 1;
    }
    None
}

/// Position of the last `c`, when there is one.
fn rfind_char(s: &Vec<char>, c: char) -> (r: Option<usize>)
    ensures
        match r {
            Some(i) => i < s@.len() && last_index_of(s@, c) == i,
            None => last_index_of(s@, c) == -1,
        },
{
    proof {
        lemma_last_index_of(s@, c);
    }
    let mut k: usize = s.len();
    while k > 0
        invariant
            k <= s@.len(),
            forall|j: int| k <= j < s@.len() ==> #[trigger] s@[j] != c,
            -1 <= last_index_of(s@, c) < s@.len(),
            last_index_of(s@, c) >= 0 ==> s@[last_index_of(s@, c)] == c,
            forall|j: int| last_index_of(s@, c) < j < s@.len() ==> #[trigger] s@[j] != c,
        decreases k,
    {
        if s[k - 1] == c {
            return Some(k - 1);
        }
        k -= 1;
    }
    None
}

/// The reference without its fragment.
pub fn normalize_href(href: &str) -> (r: String)
    ensures
        r@ == href_without_fragment(href@),
{
    let chars = chars_of(href);
    match find_char(&chars, '#') {
        Some(i) => {
            let v = crate::text::slice_to_vec(chars.as_slice(), 0, i);
            string_from_chars(v.as_slice())
        },
        None => crate::text::to_string(href),
    }
}

/// The file name of a reference: what follows its last `/`, fragment removed.
pub fn chapter_basename(href: &str) -> (r: String)
    ensures
        r@ == after_last_slash(href_without_fragment(href@)),
{
    let normalized = normalize_href(href);
    let chars = chars_of(normalized.as_str());
    let n = chars.len();
    match rfind_char(&chars, '/') {
        Some(i) => {
            let v = crate::text::slice_to_vec(chars.as_slice(), i + 1, n);
            string_from_chars(v.as_slice())
        },
        None => normalized,
    }
}

fn trim_suffix_all_exec(s: Vec<char>, pat: &str) -> (r: Vec<char>)
    ensures
        r@ == trim_suffix_all(s@, pat@),
{
    let p = chars_of(pat);
    let mut cur = s;
    if p.len() == 0 {
        return cur;
    }
    while p.len() <= cur.len() && crate::text::occurs_at_exec(
        cur.as_slice(),
        p.as_slice(),
        cur.len() - p.len(),
    )
        invariant
            p@ == pat@,
            p@.len() > 0,
            trim_suffix_all(s@, pat@) == trim_suffix_all(cur@, pat@),
        decreases cur@.len(),
    {
        proof {
            let off = cur@.len() - p@.len();
            assert(cur@.skip(off) =~= cur@.subrange(off, off + p@.len()));
        }
        let n = cur.len() - p.len();
        cur = crate::text::slice_to_vec(cur.as_slice(), 0, n);
    }
    proof {
        if p@.len() <= cur@.len() {
            let off = cur@.len() - p@.len();
            assert(cur@.skip(off) =~= cur@.subrange(off, off + p@.len()));
        }
    }
    cur
}

/// A title for a chapter the table of contents does not name: the first
/// segment of its reference, without the `.xhtml` and `.html` endings, with
/// dashes and underscores as spaces.
pub open spec fn fallback_title(href: Seq<char>) -> Seq<char> {
    dashes_to_spaces(trim_suffix_all(trim_suffix_all(before_first_slash(href), ".xhtml"@), ".html"@))
}

pub fn fallback_chapter_title(href: &str) -> (r: String)
    ensures
        r@ == fallback_title(href@),
{
    let chars = chars_of(href);
    let first = match find_char(&chars, '/') {
        Some(i) => crate::text::slice_to_vec(chars.as_slice(), 0, i),
        None => chars,
    };
    let a = trim_suffix_all_exec(first, ".xhtml");
    let b = trim_suffix_all_exec(a, ".html");
    let mut out: Vec<char> = Vec::new();
    let mut k: usize = 0;
    while k < b.len()
        invariant
            k <= b@.len(),
            out@ == dashes_to_spaces(b@.take(k as int)),
        decreases b@.len() - k,
    {
        let c = b[k];
        out.push(
            if c == '-' || c == '_' {
                ' '
            } else {
                c
            },
        );
        proof {
            assert(dashes_to_spaces(b@.take(k + 1)) =~= dashes_to_spaces(b@.take(k as int)).push(
                if c == '-' || c == '_' {
                    ' '
                } else {
                    c
                },
            ));
        }
        k += 1;
    }
    proof {
        assert(b@.take(k as int) =~= b@);
    }
    string_from_chars(out.as_slice())
}

/// The text cut to `max_len` characters, the last of them an ellipsis, when
/// it is longer.
pub open spec fn truncated(text: Seq<char>, max_len: nat) -> Seq<char> {
    if max_len == 0 {
        Seq::empty()
    } else if text.len() < max_len - 1 {
        text
    } else {
        text.take(max_len - 1).push('…')
    }
}

pub fn truncate_with_ellipsis(text: &str, max_len: usize) -> (r: String)
    ensures
        r@ == truncated(text@, max_len as nat),
{
    if max_len == 0 {
        return String::new();
    }
    let chars = chars_of(text);
    if chars.len() < max_len - 1 {
        return crate::text::to_string(text);
    }
    let mut v = crate::text::slice_to_vec(chars.as_slice(), 0, max_len - 1);
    v.push('…');
    string_from_chars(v.as_slice())
}

/// A chapter's title indented by two spaces per level, for at most four levels.
pub open spec fn indented_title(c: ChapView) -> Seq<char> {
    repeat(' ', 2 * (if c.depth < 4 { c.depth } else { 4 })) + c.title
}

/// What the chapter list shows of a chapter in an area `area_width` columns
/// wide: its indented title, cut with an ellipsis to the width less four
/// columns when its UTF-8 length passes that, and its comment count.
pub open spec fn chapter_label(c: ChapView, area_width: u16) -> (Seq<char>, Seq<char>) {
    let max_width: nat = if area_width >= 4 {
        (area_width - 4) as nat
    } else {
        0
    };
    let t = indented_title(c);
    let title = if utf8_len(t) > max_width {
        truncated(t, max_width)
    } else {
        t
    };
    let count = if c.count == 0 {
        "  (0)"@
    } else {
        " ("@ + decimal(c.count) + ")"@
    };
    (title, count)
}

/// The title and the count that the chapter list shows of `chapter`.
pub fn chapter_list_label(chapter: &ChapterDisplay, area_width: u16) -> (r: (String, String))
    ensures
        (r.0@, r.1@) == chapter_label(chapter@, area_width),
{
    let levels = if chapter.depth < 4 {
        chapter.depth
    } else {
        4
    };
    let mut t = repeat_chars(' ', 2 * levels);
    let title_chars = chars_of(chapter.title.as_str());
    push_all(&mut t, title_chars.as_slice());
    let max_width: usize = if area_width >= 4 {
        (area_width - 4) as usize
    } else {
        0
    };
    let indented = string_from_chars(t.as_slice());
    let title = if utf8_len_of(t.as_slice()) > max_width {
        truncate_with_ellipsis(indented.as_str(), max_width)
    } else {
        indented
    };
    let count = if chapter.comment_count == 0 {
        crate::text::to_string("  (0)")
    } else {
        let mut c = chars_of(" (");
        let digits = decimal_exec(chapter.comment_count as u128);
        push_all(&mut c, digits.as_slice());
        let close = chars_of(")");
        push_all(&mut c, close.as_slice());
        string_from_chars(c.as_slice())
    };
    (title, count)
}

/// The title the table of contents gives the reference: the first heading
/// (nested ones searched where they stand) whose reference is exactly it.
pub open spec fn toc_title(items: Seq<TocEntry>, href: Seq<char>) -> Option<Seq<char>>
    decreases items, 0int,
{
    if items.len() == 0 {
        None
    } else {
        match toc_title(items.drop_last(), href) {
            Some(t) => Some(t),
            None => entry_title(items.last(), href),
        }
    }
}

pub open spec fn entry_title(item: TocEntry, href: Seq<char>) -> Option<Seq<char>>
    decreases item, 1int,
{
    match item {
        TocEntry::Chapter { title, href: h } => if h@ == href {
            Some(title@)
        } else {
            None
        },
        TocEntry::Section { title, href: h, children } => if h is Some && h.unwrap()@ == href {
            Some(title@)
        } else {
            toc_title(children@, href)
        },
    }
}

/// A comment's chapter title: the one the table of contents gives its
/// reference, else the reference's first segment without the `.xhtml` and
/// `.html` endings.
pub open spec fn chapter_title_for(items: Seq<TocEntry>, href: Seq<char>) -> Seq<char> {
    match toc_title(items, href) {
        Some(t) => t,
        None => trim_suffix_all(trim_suffix_all(before_first_slash(href), ".xhtml"@), ".html"@),
    }
}

fn search_toc(items: &Vec<TocEntry>, href: &str) -> (r: Option<String>)
    ensures
        match r {
            Some(t) => toc_title(items@, href@) == Some(t@),
            None => toc_title(items@, href@) is None,
        },
    decreases items,
{
    let mut k: usize = 0;
    proof {
        assert(items@.take(0) =~= Seq::<TocEntry>::empty());
    }
    while k < items.len()
        invariant
            k <= items@.len(),
            toc_title(items@.take(k as int), href@) is None,
        decreases items@.len() - k,
    {
        proof {
            assert(items@.take(k + 1).drop_last() =~= items@.take(k as int));
            assert(items@.take(k + 1).last() == items@[k as int]);
            lemma_toc_title_prefix(items@, k + 1, href@);
        }
        match &items[k] {
            TocEntry::Chapter { title, href: h } => {
                if text_eq(h.as_str(), href) {
                    proof {
                        assert(entry_title(items@[k as int], href@) == Some(title@));
                        assert(toc_title(items@.take(k + 1), href@) == Some(title@));
                    }
                    return Some(title.clone());
                }
            },
            TocEntry::Section { title, href: h, children } => {
                match h {
                    Some(hh) => {
                        if text_eq(hh.as_str(), href) {
                            proof {
                                assert(entry_title(items@[k as int], href@) == Some(title@));
                                assert(toc_title(items@.take(k + 1), href@) == Some(title@));
                            }
                            return Some(title.clone());
                        }
                    },
                    None => {},
                }
                proof {
                    assert(decreases_to!(items => items@));
                    assert(decreases_to!(items@ => items@[k as int]));
                }
                match search_toc(children, href) {
                    Some(t) => {
                        return Some(t);
                    },
                    None => {},
                }
            },
        }
        k += 1;
    }
    proof {
        assert(items@.take(k as int) =~= items@);
    }
    None
}

/// When a prefix of the headings has a title for the reference, so do the
/// headings, the same.
proof fn lemma_toc_title_prefix(items: Seq<TocEntry>, k: int, href: Seq<char>)
    requires
        0 <= k <= items.len(),
    ensures
        toc_title(items.take(k), href) is Some ==> toc_title(items, href) == toc_title(
            items.take(k),
            href,
        ),
    decreases items.len() - k,
{
    if k < items.len() {
        lemma_toc_title_prefix(items, k + 1, href);
        assert(items.take(k + 1).drop_last() =~= items.take(k));
    } else {
        assert(items.take(k) =~= items);
    }
}

/// The title of a comment's chapter.
pub fn find_chapter_title(chapter_href: &str, toc_items: &Vec<TocEntry>) -> (r: String)
    ensures
        r@ == chapter_title_for(toc_items@, chapter_href@),
{
    match search_toc(toc_items, chapter_href) {
        Some(t) => t,
        None => {
            let chars = chars_of(chapter_href);
            let first = match find_char(&chars, '/') {
                Some(i) => crate::text::slice_to_vec(chars.as_slice(), 0, i),
                None => chars,
            };
            let a = trim_suffix_all_exec(first, ".xhtml");
            let b = trim_suffix_all_exec(a, ".html");
            string_from_chars(b.as_slice())
        },
    }
}

/// A quote as an entry shows it: its first 80 characters followed by `...`
/// when it is longer.
pub open spec fn quote_excerpt(text: Seq<char>) -> Seq<char> {
    if text.len() > 80 {
        text.take(80) + "..."@
    } else {
        text
    }
}

/// Cuts a quoted paragraph to what an entry shows of it.
pub fn shorten_quote(text: &str) -> (r: String)
    ensures
        r@ == quote_excerpt(text@),
{
    let chars = chars_of(text);
    if chars.len() <= 80 {
        return crate::text::to_string(text);
    }
    let mut v = crate::text::slice_to_vec(chars.as_slice(), 0, 80);
    let dots = chars_of("...");
    push_all(&mut v, dots.as_slice());
    proof {
        reveal_strlit("...");
    }
    string_from_chars(v.as_slice())
}

/// The text a search looks in for an entry: its chapter title, its quote
/// and its comments, separated by spaces.
pub open spec fn searchable_text(e: EntryView) -> Seq<char> {
    e.chapter_title + seq![' '] + e.quoted_text + seq![' '] + crate::text::join(
        e.comments.map_values(|c: CommentView| c.content),
        seq![' '],
    )
}

fn searchable_entry(e: &CommentEntry) -> (r: String)
    ensures
        r@ == searchable_text(e@),
{
    let mut out = chars_of(e.chapter_title.as_str());
    out.push(' ');
    let q = chars_of(e.quoted_text.as_str());
    push_all(&mut out, q.as_slice());
    out.push(' ');
    let ghost head = out@;
    let ghost cs = e@.comments.map_values(|c: CommentView| c.content);
    let mut k: usize = 0;
    proof {
        assert(cs.take(0) =~= Seq::<Seq<char>>::empty());
        assert(out@ =~= head + crate::text::join(cs.take(0), seq![' ']));
    }
    while k < e.comments.len()
        invariant
            cs == e@.comments.map_values(|c: CommentView| c.content),
            cs.len() == e.comments@.len(),
            k <= cs.len(),
            out@ == head + crate::text::join(cs.take(k as int), seq![' ']),
        decreases cs.len() - k,
    {
        let ghost before = out@;
        if k > 0 {
            out.push(' ');
        }
        let body = chars_of(e.comments[k].content.as_str());
        push_all(&mut out, body.as_slice());
        proof {
            assert(cs[k as int] == e.comments@[k as int]@.content);
            let t = cs.take(k + 1);
            assert(t.drop_last() =~= cs.take(k as int));
            assert(t.last() == cs[k as int]);
            if k == 0 {
                assert(out@ =~= head + t[0]);
            } else {
                assert(out@ =~= head + (crate::text::join(cs.take(k as int), seq![' ']) + seq![' ']
                    + t.last()));
            }
        }
        k += 1;
    }
    proof {
        assert(cs.take(k as int) =~= cs);
    }
    string_from_chars(out.as_slice())
}

/// A line of the chapter list.
pub struct ChapterDisplay {
    pub title: String,
    pub href: Option<String>,
    pub depth: usize,
    pub comment_count: usize,
}

pub struct ChapView {
    pub title: Seq<char>,
    pub href: Option<Seq<char>>,
    pub depth: nat,
    pub count: nat,
}

pub open spec fn opt_text(o: Option<String>) -> Option<Seq<char>> {
    match o {
        Some(s) => Some(s@),
        None => None,
    }
}

impl View for ChapterDisplay {
    type V = ChapView;

    open spec fn view(&self) -> ChapView {
        ChapView {
            title: self.title@,
            href: opt_text(self.href),
            depth: self.depth as nat,
            count: self.comment_count as nat,
        }
    }
}

pub open spec fn chapters_view(s: Seq<ChapterDisplay>) -> Seq<ChapView> {
    s.map_values(|c: ChapterDisplay| c@)
}

pub open spec fn has_href(acc: Seq<ChapView>, h: Seq<char>) -> bool {
    exists|i: int| 0 <= i < acc.len() && (#[trigger] acc[i]).href == Some(h)
}

/// The list with a chapter for the reference, unless it already has one.
pub open spec fn add_chapter(acc: Seq<ChapView>, title: Seq<char>, h: Seq<char>) -> Seq<ChapView> {
    if has_href(acc, h) {
        acc
    } else {
        acc.push(ChapView { title, href: Some(h), depth: 0, count: 0 })
    }
}

/// The chapters of the table of contents in reading order, each reference
/// once: chapters, and sections with a reference, followed by their nested
/// headings.
pub open spec fn flatten_toc(acc: Seq<ChapView>, items: Seq<TocEntry>) -> Seq<ChapView>
    decreases items, 0int,
{
    if items.len() == 0 {
        acc
    } else {
        flatten_toc(flatten_entry(acc, items[0]), items.drop_first())
    }
}

pub open spec fn flatten_entry(acc: Seq<ChapView>, item: TocEntry) -> Seq<ChapView>
    decreases item, 1int,
{
    match item {
        TocEntry::Chapter { title, href } => add_chapter(acc, title@, href@),
        TocEntry::Section { title, href, children } => flatten_toc(
            match href {
                Some(h) => add_chapter(acc, title@, h@),
                None => acc,
            },
            children@,
        ),
    }
}

fn has_href_exec(chapters: &Vec<ChapterDisplay>, h: &str) -> (b: bool)
    ensures
        b == has_href(chapters_view(chapters@), h@),
{
    let ghost v = chapters_view(chapters@);
    let mut k: usize = 0;
    while k < chapters.len()
        invariant
            v == chapters_view(chapters@),
            k <= chapters@.len(),
            forall|j: int| 0 <= j < k ==> (#[trigger] v[j]).href != Some(h@),
        decreases chapters@.len() - k,
    {
        let hit = match &chapters[k].href {
            Some(x) => text_eq(x.as_str(), h),
            None => false,
        };
        if hit {
            proof {
                assert(v[k as int].href == Some(h@));
            }
            return true;
        }
        k += 1;
    }
    false
}

fn add_chapter_exec(chapters: &mut Vec<ChapterDisplay>, title: &String, h: &String)
    ensures
        chapters_view(final(chapters)@) == add_chapter(chapters_view(old(chapters)@), title@, h@),
{
    if !has_href_exec(chapters, h.as_str()) {
        let ghost prev = chapters@;
        chapters.push(
            ChapterDisplay { title: title.clone(), href: Some(h.clone()), depth: 0, comment_count: 0 },
        );
        proof {
            assert(chapters_view(chapters@) =~= chapters_view(prev).push(chapters@.last()@));
        }
    }
}

/// Appends the chapters of the table of contents.
pub fn flatten_toc_items(items: &Vec<TocEntry>, chapters: &mut Vec<ChapterDisplay>)
    ensures
        chapters_view(final(chapters)@) == flatten_toc(chapters_view(old(chapters)@), items@),
    decreases items,
{
    let ghost start = chapters_view(chapters@);
    let mut k: usize = 0;
    proof {
        assert(items@.skip(0) =~= items@);
    }
    while k < items.len()
        invariant
            k <= items@.len(),
            flatten_toc(start, items@) == flatten_toc(chapters_view(chapters@), items@.skip(k as int)),
        decreases items@.len() - k,
    {
        let ghost before = chapters_view(chapters@);
        proof {
            assert(items@.skip(k as int)[0] == items@[k as int]);
            assert(items@.skip(k as int).drop_first() =~= items@.skip(k + 1));
        }
        match &items[k] {
            TocEntry::Chapter { title, href } => {
                add_chapter_exec(chapters, title, href);
                proof {
                    assert(chapters_view(chapters@) == flatten_entry(before, items@[k as int]));
                }
            },
            TocEntry::Section { title, href, children } => {
                match href {
                    Some(h) => add_chapter_exec(chapters, title, h),
                    None => {},
                }
                let ghost mid = chapters_view(chapters@);
                proof {
                    assert(decreases_to!(items => items@));
                    assert(decreases_to!(items@ => items@[k as int]));
                    assert(flatten_entry(before, items@[k as int]) == flatten_toc(mid, children@));
                }
                flatten_toc_items(children, chapters);
            },
        }
        k += 1;
    }
    proof {
        assert(items@.skip(k as int) =~= Seq::<TocEntry>::empty());
    }
}

/// Lines of a text, at least one.
pub open spec fn shown_lines(text: Seq<char>) -> nat {
    if text_lines(text).len() > 1 {
        text_lines(text).len()
    } else {
        1
    }
}

/// Estimated height of an entry before it is laid out: the chapter line when
/// shown, the quote, a header and the content for each comment, a blank line.
pub open spec fn estimated_height(show_chapter_header: bool, comment_count: nat, content: Seq<char>) -> nat {
    (if show_chapter_header {
        1nat
    } else {
        0nat
    }) + shown_lines(content) + comment_count + comment_count * shown_lines(content) + 1
}

pub fn estimate_entry_height(show_chapter_header: bool, comment_count: usize, comment_content: &str) -> (h:
    usize)
    requires
        estimated_height(show_chapter_header, comment_count as nat, comment_content@) <= usize::MAX,
    ensures
        h == estimated_height(show_chapter_header, comment_count as nat, comment_content@),
{
    let n = count_lines(comment_content);
    let lines: usize = if n > 1 {
        n
    } else {
        1
    };
    let mut height: usize = 0;
    if show_chapter_header {
        height += 1;
    }
    height += lines;
    height += comment_count;
    height += comment_count * lines;
    height += 1;
    height
}

/// A group of comments shown together: one paragraph comment, or the
/// comments on one code block.
pub struct CommentEntry {
    pub chapter_title: String,
    pub chapter_href: String,
    pub quoted_text: String,
    pub comments: Vec<Comment>,
    pub render_start_line: usize,
    pub render_end_line: usize,
}

pub struct EntryView {
    pub chapter_title: Seq<char>,
    pub chapter_href: Seq<char>,
    pub quoted_text: Seq<char>,
    pub comments: Seq<CommentView>,
    pub start: nat,
    pub end: nat,
}

impl View for CommentEntry {
    type V = EntryView;

    open spec fn view(&self) -> EntryView {
        EntryView {
            chapter_title: self.chapter_title@,
            chapter_href: self.chapter_href@,
            quoted_text: self.quoted_text@,
            comments: comments_view(self.comments@),
            start: self.render_start_line as nat,
            end: self.render_end_line as nat,
        }
    }
}

pub open spec fn entries_view(s: Seq<CommentEntry>) -> Seq<EntryView> {
    s.map_values(|e: CommentEntry| e@)
}

impl CommentEntry {
    pub fn primary_comment(&self) -> (c: &Comment)
        requires
            self.comments@.len() > 0,
        ensures
            c@ == self@.comments[0],
    {
        &self.comments[0]
    }

    pub fn is_code_block(&self) -> (b: bool)
        requires
            self.comments@.len() > 0,
        ensures
            b == (self@.comments[0].target is CodeBlock),
    {
        !self.comments[0].is_paragraph_comment()
    }

    pub fn comment_count(&self) -> (n: usize)
        ensures
            n == self@.comments.len(),
    {
        self.comments.len()
    }

    pub fn comments(&self) -> (r: &[Comment])
        ensures
            comments_view(r@) == self@.comments,
    {
        self.comments.as_slice()
    }

    /// A copy of this entry.
    pub fn duplicate(&self) -> (r: CommentEntry)
        ensures
            r@ == self@,
    {
        let mut comments: Vec<Comment> = Vec::new();
        let mut k: usize = 0;
        while k < self.comments.len()
            invariant
                k <= self.comments@.len(),
                comments_view(comments@) == comments_view(self.comments@).take(k as int),
            decreases self.comments@.len() - k,
        {
            let ghost prev = comments@;
            comments.push(self.comments[k].duplicate());
            proof {
                assert(comments_view(comments@) =~= comments_view(prev).push(self.comments@[k as int]@));
                assert(comments_view(comments@) =~= comments_view(self.comments@).take(k + 1));
            }
            k += 1;
        }
        proof {
            assert(comments_view(self.comments@).take(k as int) =~= comments_view(self.comments@));
        }
        CommentEntry {
            chapter_title: self.chapter_title.clone(),
            chapter_href: self.chapter_href.clone(),
            quoted_text: self.quoted_text.clone(),
            comments,
            render_start_line: self.render_start_line,
            render_end_line: self.render_end_line,
        }
    }
}

/// The entry of the code block a comment is on: one opened by a comment on a
/// code block of the same chapter and node.
pub open spec fn groups_with(e: EntryView, c: CommentView) -> bool {
    e.comments.len() > 0 && e.comments[0].target is CodeBlock && e.comments[0].chapter_href
        == c.chapter_href && target_node(e.comments[0].target) == target_node(c.target)
}

pub open spec fn code_group(entries: Seq<EntryView>, c: CommentView) -> int
    decreases entries.len(),
{
    if entries.len() == 0 {
        -1
    } else {
        let r = code_group(entries.drop_last(), c);
        if r >= 0 {
            r
        } else if groups_with(entries.last(), c) {
            entries.len() - 1
        } else {
            -1
        }
    }
}

pub proof fn lemma_code_group(entries: Seq<EntryView>, c: CommentView)
    ensures
        -1 <= code_group(entries, c) < entries.len(),
        code_group(entries, c) >= 0 ==> groups_with(entries[code_group(entries, c)], c),
        forall|k: int|
            0 <= k < (if code_group(entries, c) < 0 {
                entries.len() as int
            } else {
                code_group(entries, c)
            }) ==> !groups_with(#[trigger] entries[k], c),
    decreases entries.len(),
{
    if entries.len() > 0 {
        lemma_code_group(entries.drop_last(), c);
        assert forall|k: int| 0 <= k < entries.len() - 1 implies entries[k] == entries.drop_last()[k] by {}
    }
}

/// Entries built so far, the chapter of the last new entry, and the line the
/// next entry starts at.
pub struct BuildState {
    pub entries: Seq<EntryView>,
    pub last_href: Option<Seq<char>>,
    pub line: nat,
}

/// One comment more: a comment on a code block joins the entry of its code
/// block; any other comment opens an entry of its own.
pub open spec fn build_step(st: BuildState, c: CommentView, title: Seq<char>, quote: Seq<char>) -> BuildState {
    if c.target is CodeBlock && code_group(st.entries, c) >= 0 {
        let i = code_group(st.entries, c);
        BuildState {
            entries: st.entries.update(i, EntryView { comments: st.entries[i].comments.push(c), ..st.entries[i] }),
            ..st
        }
    } else {
        let show = st.last_href != Some(c.chapter_href);
        let h = estimated_height(show, 1, c.content);
        BuildState {
            entries: st.entries.push(
                EntryView {
                    chapter_title: title,
                    chapter_href: c.chapter_href,
                    quoted_text: quote,
                    comments: seq![c],
                    start: st.line,
                    end: st.line + h,
                },
            ),
            last_href: Some(c.chapter_href),
            line: st.line + h,
        }
    }
}

pub open spec fn built_entries(cs: Seq<CommentView>, titles: Seq<Seq<char>>, quotes: Seq<Seq<char>>) -> BuildState
    decreases cs.len(),
{
    if cs.len() == 0 {
        BuildState { entries: Seq::empty(), last_href: None, line: 0 }
    } else {
        build_step(
            built_entries(cs.drop_last(), titles.drop_last(), quotes.drop_last()),
            cs.last(),
            titles.last(),
            quotes.last(),
        )
    }
}

/// The most lines the entries of the comments can take.
pub open spec fn height_budget(cs: Seq<CommentView>) -> nat
    decreases cs.len(),
{
    if cs.len() == 0 {
        0
    } else {
        height_budget(cs.drop_last()) + estimated_height(true, 1, cs.last().content)
    }
}

proof fn lemma_built_line(cs: Seq<CommentView>, titles: Seq<Seq<char>>, quotes: Seq<Seq<char>>)
    ensures
        built_entries(cs, titles, quotes).line <= height_budget(cs),
        forall|k: int|
            0 <= k < built_entries(cs, titles, quotes).entries.len() ==> (#[trigger] built_entries(
                cs,
                titles,
                quotes,
            ).entries[k]).comments.len() > 0,
    decreases cs.len(),
{
    if cs.len() > 0 {
        lemma_built_line(cs.drop_last(), titles.drop_last(), quotes.drop_last());
        let st = built_entries(cs.drop_last(), titles.drop_last(), quotes.drop_last());
        lemma_code_group(st.entries, cs.last());
        let r = built_entries(cs, titles, quotes);
        assert forall|k: int| 0 <= k < r.entries.len() implies (#[trigger] r.entries[k]).comments.len()
            > 0 by {
            if k < st.entries.len() {
                assert(st.entries[k].comments.len() > 0);
            }
        }
    }
}

fn code_group_exec(entries: &Vec<CommentEntry>, c: &Comment) -> (r: Option<usize>)
    requires
        forall|k: int| 0 <= k < entries@.len() ==> (#[trigger] entries@[k]).comments@.len() > 0,
    ensures
        match r {
            Some(i) => i < entries@.len() && code_group(entries_view(entries@), c@) == i,
            None => code_group(entries_view(entries@), c@) == -1,
        },
{
    let ghost v = entries_view(entries@);
    proof {
        lemma_code_group(v, c@);
    }
    let mut k: usize = 0;
    while k < entries.len()
        invariant
            v == entries_view(entries@),
            k <= entries@.len(),
            forall|j: int| 0 <= j < entries@.len() ==> (#[trigger] entries@[j]).comments@.len() > 0,
            forall|j: int| 0 <= j < k ==> !groups_with(#[trigger] v[j], c@),
            -1 <= code_group(v, c@) < v.len(),
            code_group(v, c@) >= 0 ==> groups_with(v[code_group(v, c@)], c@),
            forall|j: int|
                0 <= j < (if code_group(v, c@) < 0 {
                    v.len() as int
                } else {
                    code_group(v, c@)
                }) ==> !groups_with(#[trigger] v[j], c@),
        decreases entries@.len() - k,
    {
        let first = &entries[k].comments[0];
        let hit = !first.is_paragraph_comment() && text_eq(
            first.chapter_href.as_str(),
            c.chapter_href.as_str(),
        ) && first.node_index() == c.node_index();
        proof {
            assert(v[k as int].comments[0] == first@);
        }
        if hit {
            return Some(k);
        }
        k += 1;
    }
    None
}

/// Groups the comments, in their order, into entries: the comments on one
/// code block share an entry; every other comment has its own. `titles` and
/// `quotes` give each comment's chapter title and quoted text.
/// Every comment of the entry is on the entry's chapter, and an entry holds
/// more than one comment only on a code block: every comment is then on the
/// code block node of the first.
pub open spec fn entry_holds_its_chapter(e: EntryView) -> bool {
    forall|m: int|
        0 <= m < e.comments.len() ==> {
            &&& (#[trigger] e.comments[m]).chapter_href == e.chapter_href
            &&& m > 0 ==> e.comments[0].target is CodeBlock && e.comments[m].target is CodeBlock
                && target_node(e.comments[m].target) == target_node(e.comments[0].target)
        }
}

/// Every comment of a built entry belongs to the entry's chapter, and the
/// comments of an entry that opened on a code block are all on that chapter's
/// code block node: comments of different chapters never share an entry.
pub proof fn law_entry_comments_in_chapter(cs: Seq<CommentView>, titles: Seq<Seq<char>>, quotes: Seq<Seq<char>>)
    ensures
        forall|k: int|
            0 <= k < built_entries(cs, titles, quotes).entries.len() ==> entry_holds_its_chapter(
                #[trigger] built_entries(cs, titles, quotes).entries[k],
            ),
    decreases cs.len(),
{
    if cs.len() > 0 {
        let st = built_entries(cs.drop_last(), titles.drop_last(), quotes.drop_last());
        let c = cs.last();
        law_entry_comments_in_chapter(cs.drop_last(), titles.drop_last(), quotes.drop_last());
        lemma_built_line(cs.drop_last(), titles.drop_last(), quotes.drop_last());
        lemma_code_group(st.entries, c);
        let r = built_entries(cs, titles, quotes);
        assert forall|k: int| 0 <= k < r.entries.len() implies entry_holds_its_chapter(
            #[trigger] r.entries[k],
        ) by {
            if k < st.entries.len() {
                let old_e = st.entries[k];
                assert(entry_holds_its_chapter(old_e));
                assert(old_e.comments.len() > 0);
                assert(old_e.comments[0].chapter_href == old_e.chapter_href);
            }
        }
    }
}

pub fn build_entries(comments: &[Comment], titles: &Vec<String>, quotes: &Vec<String>) -> (r: Vec<
    CommentEntry,
>)
    requires
        titles@.len() == comments@.len(),
        quotes@.len() == comments@.len(),
        height_budget(comments_view(comments@)) <= usize::MAX,
    ensures
        entries_view(r@) == built_entries(
            comments_view(comments@),
            titles@.map_values(|t: String| t@),
            quotes@.map_values(|q: String| q@),
        ).entries,
{
    let ghost cs = comments_view(comments@);
    let ghost ts = titles@.map_values(|t: String| t@);
    let ghost qs = quotes@.map_values(|q: String| q@);
    let mut entries: Vec<CommentEntry> = Vec::new();
    let mut last_href: Option<String> = None;
    let mut line: usize = 0;
    let n = comments.len();
    let mut k: usize = 0;
    proof {
        assert(cs.take(0) =~= Seq::<CommentView>::empty());
        assert(entries_view(entries@) =~= Seq::<EntryView>::empty());
    }
    while k < n
        invariant
            n == comments@.len(),
            titles@.len() == n,
            quotes@.len() == n,
            cs == comments_view(comments@),
            ts == titles@.map_values(|t: String| t@),
            qs == quotes@.map_values(|q: String| q@),
            height_budget(cs) <= usize::MAX,
            k <= n,
            entries_view(entries@) == built_entries(
                cs.take(k as int),
                ts.take(k as int),
                qs.take(k as int),
            ).entries,
            opt_text(last_href) == built_entries(cs.take(k as int), ts.take(k as int), qs.take(k as int)).last_href,
            line == built_entries(cs.take(k as int), ts.take(k as int), qs.take(k as int)).line,
            forall|j: int| 0 <= j < entries@.len() ==> (#[trigger] entries@[j]).comments@.len() > 0,
        decreases n - k,
    {
        let ghost st = built_entries(cs.take(k as int), ts.take(k as int), qs.take(k as int));
        proof {
            assert(cs.take(k + 1).drop_last() =~= cs.take(k as int));
            assert(ts.take(k + 1).drop_last() =~= ts.take(k as int));
            assert(qs.take(k + 1).drop_last() =~= qs.take(k as int));
            assert(cs.take(k + 1).last() == comments@[k as int]@);
            assert(ts.take(k + 1).last() == titles@[k as int]@);
            assert(qs.take(k + 1).last() == quotes@[k as int]@);
            lemma_built_line(cs.take(k + 1), ts.take(k + 1), qs.take(k + 1));
            lemma_budget_prefix(cs, k + 1);
        }
        let c = &comments[k];
        let group = if c.is_paragraph_comment() {
            None
        } else {
            code_group_exec(&entries, c)
        };
        match group {
            Some(i) => {
                let ghost prev = entries@;
                let mut e = entries.remove(i);
                let ghost e_comments = e.comments@;
                e.comments.push(c.duplicate());
                proof {
                    assert(comments_view(e.comments@) =~= comments_view(e_comments).push(c@));
                    assert(e@ == EntryView {
                        comments: st.entries[i as int].comments.push(c@),
                        ..st.entries[i as int]
                    });
                }
                entries.insert(i, e);
                proof {
                    assert(entries@ =~= prev.update(i as int, entries@[i as int]));
                    assert(entries_view(entries@) =~= st.entries.update(
                        i as int,
                        EntryView { comments: st.entries[i as int].comments.push(c@), ..st.entries[i as int] },
                    ));
                    assert forall|j: int| 0 <= j < entries@.len() implies (#[trigger] entries@[j]).comments@.len()
                        > 0 by {
                        if j != i {
                            assert(entries@[j] == prev[j]);
                        }
                    }
                }
            },
            None => {
                let show = match &last_href {
                    Some(prev) => !text_eq(prev.as_str(), c.chapter_href.as_str()),
                    None => true,
                };
                let height = estimate_entry_height(show, 1, c.content.as_str());
                let start = line;
                let end = line + height;
                let mut cv: Vec<Comment> = Vec::new();
                cv.push(c.duplicate());
                let ghost prev = entries@;
                entries.push(
                    CommentEntry {
                        chapter_title: titles[k].clone(),
                        chapter_href: c.chapter_href.clone(),
                        quoted_text: quotes[k].clone(),
                        comments: cv,
                        render_start_line: start,
                        render_end_line: end,
                    },
                );
                proof {
                    assert(comments_view(cv@) =~= seq![c@]);
                    assert(entries_view(entries@) =~= entries_view(prev).push(entries@.last()@));
                }
                line = end;
                last_href = Some(c.chapter_href.clone());
            },
        }
        k += 1;
    }
    proof {
        assert(cs.take(n as int) =~= cs);
        assert(ts.take(n as int) =~= ts);
        assert(qs.take(n as int) =~= qs);
    }
    entries
}

proof fn lemma_budget_prefix(cs: Seq<CommentView>, k: int)
    requires
        0 <= k <= cs.len(),
    ensures
        height_budget(cs.take(k)) <= height_budget(cs),
    decreases cs.len() - k,
{
    if k < cs.len() {
        lemma_budget_prefix(cs, k + 1);
        assert(cs.take(k + 1).drop_last() =~= cs.take(k));
    } else {
        assert(cs.take(k) =~= cs);
    }
}

/// Number of entries of the chapter.
pub open spec fn entry_count(entries: Seq<EntryView>, h: Seq<char>) -> nat
    decreases entries.len(),
{
    if entries.len() == 0 {
        0
    } else {
        entry_count(entries.drop_last(), h) + if entries.last().chapter_href == h {
            1nat
        } else {
            0nat
        }
    }
}

proof fn lemma_entry_count_le(entries: Seq<EntryView>, h: Seq<char>)
    ensures
        entry_count(entries, h) <= entries.len(),
    decreases entries.len(),
{
    if entries.len() > 0 {
        lemma_entry_count_le(entries.drop_last(), h);
    }
}

/// Chapters of entries that the table of contents does not list, each once,
/// in the order of their first entry.
pub open spec fn unmatched_hrefs(toc: Seq<ChapView>, entries: Seq<EntryView>) -> Seq<Seq<char>>
    decreases entries.len(),
{
    if entries.len() == 0 {
        Seq::empty()
    } else {
        let u = unmatched_hrefs(toc, entries.drop_last());
        let h = entries.last().chapter_href;
        if has_href(toc, h) || u.contains(h) {
            u
        } else {
            u.push(h)
        }
    }
}

pub open spec fn counted(toc: Seq<ChapView>, entries: Seq<EntryView>) -> Seq<ChapView> {
    toc.map_values(
        |c: ChapView|
            ChapView {
                count: match c.href {
                    Some(h) => entry_count(entries, h),
                    None => 0,
                },
                ..c
            },
    )
}

pub open spec fn extra_chapters(u: Seq<Seq<char>>, entries: Seq<EntryView>) -> Seq<ChapView> {
    u.map_values(
        |h: Seq<char>|
            ChapView { title: fallback_title(h), href: Some(h), depth: 0, count: entry_count(entries, h) },
    )
}

/// The chapter list: the chapters of the table of contents with their
/// number of entries, then the other chapters that have entries; a single
/// `Chapters` line when there is nothing.
pub open spec fn chapter_index(toc_items: Seq<TocEntry>, entries: Seq<EntryView>) -> Seq<ChapView> {
    let toc = flatten_toc(Seq::empty(), toc_items);
    let all = counted(toc, entries) + extra_chapters(unmatched_hrefs(toc, entries), entries);
    if all.len() == 0 {
        seq![ChapView { title: "Chapters"@, href: None, depth: 0, count: 0 }]
    } else {
        all
    }
}

fn count_entries(entries: &Vec<CommentEntry>, h: &str) -> (n: usize)
    ensures
        n == entry_count(entries_view(entries@), h@),
{
    let ghost v = entries_view(entries@);
    let mut n: usize = 0;
    let mut k: usize = 0;
    proof {
        assert(v.take(0) =~= Seq::<EntryView>::empty());
    }
    while k < entries.len()
        invariant
            v == entries_view(entries@),
            k <= entries@.len(),
            n == entry_count(v.take(k as int), h@),
        decreases entries@.len() - k,
    {
        proof {
            assert(v.take(k + 1).drop_last() =~= v.take(k as int));
            lemma_entry_count_le(v.take(k as int), h@);
        }
        if text_eq(entries[k].chapter_href.as_str(), h) {
            n += 1;
        }
        k += 1;
    }
    proof {
        assert(v.take(k as int) =~= v);
    }
    n
}

fn contains_text(u: &Vec<String>, h: &str) -> (b: bool)
    ensures
        b == u@.map_values(|s: String| s@).contains(h@),
{
    let ghost v = u@.map_values(|s: String| s@);
    let mut k: usize = 0;
    while k < u.len()
        invariant
            v == u@.map_values(|s: String| s@),
            k <= u@.len(),
            forall|j: int| 0 <= j < k ==> #[trigger] v[j] != h@,
        decreases u@.len() - k,
    {
        if text_eq(u[k].as_str(), h) {
            proof {
                assert(v[k as int] == h@);
            }
            return true;
        }
        k += 1;
    }
    false
}

/// The chapter list of the viewer.
pub fn build_chapter_index(toc_items: &Vec<TocEntry>, entries: &Vec<CommentEntry>) -> (r: Vec<
    ChapterDisplay,
>)
    ensures
        chapters_view(r@) == chapter_index(toc_items@, entries_view(entries@)),
{
    let ghost ev = entries_view(entries@);
    let mut chapters: Vec<ChapterDisplay> = Vec::new();
    proof {
        assert(chapters_view(chapters@) =~= Seq::<ChapView>::empty());
    }
    flatten_toc_items(toc_items, &mut chapters);
    let ghost toc = chapters_view(chapters@);
    let mut unmatched: Vec<String> = Vec::new();
    let mut k: usize = 0;
    proof {
        assert(ev.take(0) =~= Seq::<EntryView>::empty());
        assert(unmatched@.map_values(|s: String| s@) =~= Seq::<Seq<char>>::empty());
    }
    while k < entries.len()
        invariant
            ev == entries_view(entries@),
            toc == chapters_view(chapters@),
            k <= entries@.len(),
            unmatched@.map_values(|s: String| s@) == unmatched_hrefs(toc, ev.take(k as int)),
        decreases entries@.len() - k,
    {
        proof {
            assert(ev.take(k + 1).drop_last() =~= ev.take(k as int));
            assert(ev.take(k + 1).last() == entries@[k as int]@);
        }
        let h = &entries[k].chapter_href;
        if !has_href_exec(&chapters, h.as_str()) && !contains_text(&unmatched, h.as_str()) {
            let ghost prev = unmatched@;
            unmatched.push(h.clone());
            proof {
                assert(unmatched@.map_values(|s: String| s@) =~= prev.map_values(|s: String| s@).push(
                    h@,
                ));
            }
        }
        k += 1;
    }
    proof {
        assert(ev.take(k as int) =~= ev);
    }
    let ghost u = unmatched@.map_values(|s: String| s@);
    let n = chapters.len();
    let mut i: usize = 0;
    while i < n
        invariant
            ev == entries_view(entries@),
            n == toc.len(),
            n == chapters@.len(),
            i <= n,
            forall|j: int| 0 <= j < i ==> #[trigger] chapters_view(chapters@)[j] == counted(toc, ev)[j],
            forall|j: int| i <= j < n ==> #[trigger] chapters_view(chapters@)[j] == toc[j],
        decreases n - i,
    {
        let ghost old_i = chapters_view(chapters@)[i as int];
        proof {
            assert(old_i == toc[i as int]);
            assert(old_i == chapters@[i as int]@);
        }
        let count = match &chapters[i].href {
            Some(h) => count_entries(entries, h.as_str()),
            None => 0,
        };
        proof {
            assert(count as nat == match old_i.href {
                Some(h) => entry_count(ev, h),
                None => 0,
            });
        }
        let ghost prev = chapters@;
        chapters[i].comment_count = count;
        proof {
            assert(chapters@[i as int]@ == ChapView { count: count as nat, ..old_i });
            assert forall|j: int| 0 <= j < n && j != i implies chapters@[j] == prev[j] by {}
            assert(chapters_view(chapters@)[i as int] == counted(toc, ev)[i as int]);
            assert forall|j: int| 0 <= j < i + 1 implies #[trigger] chapters_view(chapters@)[j]
                == counted(toc, ev)[j] by {
                if j < i {
                    assert(chapters@[j] == prev[j]);
                    assert(chapters_view(prev)[j] == counted(toc, ev)[j]);
                }
            }
            assert forall|j: int| i + 1 <= j < n implies #[trigger] chapters_view(chapters@)[j]
                == toc[j] by {
                assert(chapters@[j] == prev[j]);
                assert(chapters_view(prev)[j] == toc[j]);
            }
        }
        i += 1;
    }
    proof {
        assert(chapters_view(chapters@) =~= counted(toc, ev));
    }
    let mut m: usize = 0;
    while m < unmatched.len()
        invariant
            ev == entries_view(entries@),
            u == unmatched@.map_values(|s: String| s@),
            m <= unmatched@.len(),
            chapters_view(chapters@) == counted(toc, ev) + extra_chapters(u, ev).take(m as int),
        decreases unmatched@.len() - m,
    {
        let h = &unmatched[m];
        let title = fallback_chapter_title(h.as_str());
        let count = count_entries(entries, h.as_str());
        let ghost prev = chapters@;
        chapters.push(ChapterDisplay { title, href: Some(h.clone()), depth: 0, comment_count: count });
        proof {
            assert(chapters_view(chapters@) =~= chapters_view(prev).push(chapters@.last()@));
            assert(extra_chapters(u, ev).take(m + 1) =~= extra_chapters(u, ev).take(m as int).push(
                extra_chapters(u, ev)[m as int],
            ));
        }
        m += 1;
    }
    proof {
        assert(extra_chapters(u, ev).take(m as int) =~= extra_chapters(u, ev));
    }
    if chapters.len() == 0 {
        let ghost prev = chapters@;
        chapters.push(
            ChapterDisplay {
                title: String::from_str("Chapters"),
                href: None,
                depth: 0,
                comment_count: 0,
            },
        );
        proof {
            assert(chapters_view(chapters@) =~= seq![
                ChapView { title: "Chapters"@, href: None, depth: 0, count: 0 },
            ]);
        }
    }
    chapters
}

/// Index of the first chapter that passes the test.
pub open spec fn first_where(s: Seq<ChapView>, p: spec_fn(ChapView) -> bool) -> Option<int>
    decreases s.len(),
{
    if s.len() == 0 {
        None
    } else if p(s[0]) {
        Some(0)
    } else {
        match first_where(s.drop_first(), p) {
            Some(i) => Some(i + 1),
            None => None,
        }
    }
}

pub proof fn lemma_first_where(s: Seq<ChapView>, p: spec_fn(ChapView) -> bool)
    ensures
        match first_where(s, p) {
            Some(i) => 0 <= i < s.len() && p(s[i]) && forall|j: int| 0 <= j < i ==> !p(#[trigger] s[j]),
            None => forall|j: int| 0 <= j < s.len() ==> !p(#[trigger] s[j]),
        },
    decreases s.len(),
{
    if s.len() > 0 {
        lemma_first_where(s.drop_first(), p);
        assert forall|j: int| 0 < j < s.len() implies s[j] == s.drop_first()[j - 1] by {}
    }
}

pub open spec fn same_document(target: Seq<char>) -> spec_fn(ChapView) -> bool {
    |c: ChapView|
        c.href matches Some(h) && href_without_fragment(h) == href_without_fragment(target)
}

pub open spec fn same_file_name(target: Seq<char>) -> spec_fn(ChapView) -> bool {
    |c: ChapView|
        c.href matches Some(h) && after_last_slash(href_without_fragment(h)) == after_last_slash(
            href_without_fragment(target),
        )
}

pub open spec fn has_comments() -> spec_fn(ChapView) -> bool {
    |c: ChapView| c.count > 0
}

/// The chapter to start on: the current chapter's line, found by reference,
/// else by file name; else the first chapter with comments; else the first.
pub open spec fn initial_index(chapters: Seq<ChapView>, current: Option<Seq<char>>) -> int {
    let fallback = match first_where(chapters, has_comments()) {
        Some(i) => i,
        None => 0,
    };
    match current {
        Some(t) => match first_where(chapters, same_document(t)) {
            Some(i) => i,
            None => match first_where(chapters, same_file_name(t)) {
                Some(i) => i,
                None => fallback,
            },
        },
        None => fallback,
    }
}

fn first_where_exec(chapters: &Vec<ChapterDisplay>, target: &str, mode: u8) -> (r: Option<usize>)
    requires
        mode < 3,
    ensures
        ({
            let p = if mode == 0 {
                same_document(target@)
            } else if mode == 1 {
                same_file_name(target@)
            } else {
                has_comments()
            };
            match first_where(chapters_view(chapters@), p) {
                Some(i) => r matches Some(k) && k as int == i,
                None => r is None,
            }
        }),
{
    let ghost v = chapters_view(chapters@);
    let ghost p = if mode == 0 {
        same_document(target@)
    } else if mode == 1 {
        same_file_name(target@)
    } else {
        has_comments()
    };
    proof {
        lemma_first_where(v, p);
    }
    let key = if mode == 0 {
        normalize_href(target)
    } else {
        chapter_basename(target)
    };
    let mut k: usize = 0;
    while k < chapters.len()
        invariant
            v == chapters_view(chapters@),
            mode < 3,
            p == (if mode == 0 {
                same_document(target@)
            } else if mode == 1 {
                same_file_name(target@)
            } else {
                has_comments()
            }),
            mode == 0 ==> key@ == href_without_fragment(target@),
            mode == 1 ==> key@ == after_last_slash(href_without_fragment(target@)),
            k <= chapters@.len(),
            forall|j: int| 0 <= j < k ==> !p(#[trigger] v[j]),
            match first_where(v, p) {
                Some(i) => 0 <= i < v.len() && p(v[i]) && forall|j: int|
                    0 <= j < i ==> !p(#[trigger] v[j]),
                None => forall|j: int| 0 <= j < v.len() ==> !p(#[trigger] v[j]),
            },
        decreases chapters@.len() - k,
    {
        let c = &chapters[k];
        let hit = if mode == 2 {
            c.comment_count > 0
        } else {
            match &c.href {
                Some(h) => {
                    let hk = if mode == 0 {
                        normalize_href(h.as_str())
                    } else {
                        chapter_basename(h.as_str())
                    };
                    text_eq(hk.as_str(), key.as_str())
                },
                None => false,
            }
        };
        proof {
            assert(v[k as int] == c@);
        }
        if hit {
            proof {
                assert(p(v[k as int]));
                match first_where(v, p) {
                    Some(i) => {
                        if i < k {
                            assert(!p(v[i]));
                        }
                    },
                    None => {},
                }
            }
            return Some(k);
        }
        k += 1;
    }
    None
}

/// The chapter line the viewer starts on.
pub fn initial_chapter_index(current_href: Option<&str>, chapters: &Vec<ChapterDisplay>) -> (r: usize)
    ensures
        r == initial_index(
            chapters_view(chapters@),
            match current_href {
                Some(t) => Some(t@),
                None => None,
            },
        ),
{
    if let Some(target) = current_href {
        if let Some(idx) = first_where_exec(chapters, target, 0) {
            return idx;
        }
        if let Some(idx) = first_where_exec(chapters, target, 1) {
            return idx;
        }
    }
    match first_where_exec(chapters, "", 2) {
        Some(i) => i,
        None => 0,
    }
}

pub enum CommentsViewerAction {
    JumpToComment { chapter_href: String, target: CommentTarget },
    DeleteSelectedComment,
    Close,
}

/// Which pane of the viewer takes the keys.
#[derive(Clone, Copy, PartialEq, Eq, Debug, Structural)]
pub enum ViewerFocus {
    Chapters,
    Comments,
}

/// The whole state of the viewer.
pub struct ViewerView {
    pub all: Seq<EntryView>,
    pub rendered: Seq<EntryView>,
    pub scroll: usize,
    pub selected: usize,
    pub popup: Option<PopupArea>,
    pub last_position: Option<(usize, usize)>,
    pub total_lines: usize,
    pub chapters: Seq<ChapView>,
    pub chapter_scroll: usize,
    pub selected_chapter: usize,
    pub focus: ViewerFocus,
    pub positions: Seq<(Seq<char>, (usize, usize))>,
    pub chapter_area: Option<PopupArea>,
    pub comments_area: Option<PopupArea>,
    pub global: bool,
    pub saved_chapter: usize,
    pub global_position: Option<(usize, usize)>,
}

pub open spec fn sat_sub(a: int, b: int) -> int {
    if a > b {
        a - b
    } else {
        0
    }
}

pub open spec fn min_int(a: int, b: int) -> int {
    if a < b {
        a
    } else {
        b
    }
}

/// The reference of the selected chapter, outside the all-comments mode.
pub open spec fn current_key(v: ViewerView) -> Option<Seq<char>> {
    if v.global {
        None
    } else if v.selected_chapter < v.chapters.len() {
        v.chapters[v.selected_chapter as int].href
    } else {
        None
    }
}

/// The position saved for a chapter.
pub open spec fn position_of(positions: Seq<(Seq<char>, (usize, usize))>, key: Seq<char>) -> Option<
    (usize, usize),
>
    decreases positions.len(),
{
    if positions.len() == 0 {
        None
    } else if positions[0].0 == key {
        Some(positions[0].1)
    } else {
        position_of(positions.drop_first(), key)
    }
}

/// The saved positions with the chapter's position set.
pub open spec fn with_position(
    positions: Seq<(Seq<char>, (usize, usize))>,
    key: Seq<char>,
    p: (usize, usize),
) -> Seq<(Seq<char>, (usize, usize))>
    decreases positions.len(),
{
    if positions.len() == 0 {
        seq![(key, p)]
    } else if positions[0].0 == key {
        positions.update(0, (key, p))
    } else {
        seq![positions[0]] + with_position(positions.drop_first(), key, p)
    }
}

/// The state scrolled and selected at a saved position, kept inside the
/// lines and entries there are.
pub open spec fn at_position(v: ViewerView, p: (usize, usize)) -> ViewerView {
    ViewerView {
        scroll: min_int(p.0 as int, sat_sub(v.total_lines as int, 1)) as usize,
        selected: min_int(p.1 as int, sat_sub(v.rendered.len() as int, 1)) as usize,
        ..v
    }
}

/// Goes back to the position saved for the current view: the all-comments
/// position, the chapter's position, or the last position.
pub open spec fn restored(v: ViewerView) -> ViewerView {
    if v.global {
        match v.global_position {
            Some(p) => at_position(v, p),
            None => v,
        }
    } else {
        let chapter_pos = match current_key(v) {
            Some(k) => position_of(v.positions, k),
            None => None,
        };
        match chapter_pos {
            Some(p) => at_position(v, p),
            None => match v.last_position {
                Some(p) => at_position(v, p),
                None => v,
            },
        }
    }
}

/// Saves the position for the current view.
pub open spec fn saved(v: ViewerView) -> ViewerView {
    let p = (v.scroll, v.selected);
    if v.global {
        ViewerView { global_position: Some(p), ..v }
    } else {
        match current_key(v) {
            Some(k) => ViewerView { positions: with_position(v.positions, k, p), ..v },
            None => ViewerView { last_position: Some(p), ..v },
        }
    }
}

/// The entries of the selected chapter (all of them in the all-comments
/// mode), from the top.
pub open spec fn with_visible_entries(v: ViewerView) -> ViewerView {
    let rendered = if v.global {
        v.all
    } else {
        match current_key(v) {
            Some(h) => v.all.filter(|e: EntryView| e.chapter_href == h),
            None => Seq::empty(),
        }
    };
    ViewerView { rendered, scroll: 0, selected: 0, total_lines: 0, ..v }
}

pub open spec fn chapter_selected(v: ViewerView, new_index: int) -> ViewerView {
    if v.global || new_index >= v.chapters.len() || new_index == v.selected_chapter {
        v
    } else {
        restored(
            with_visible_entries(ViewerView { selected_chapter: new_index as usize, ..saved(v) }),
        )
    }
}

pub open spec fn global_toggled(v: ViewerView) -> ViewerView {
    if v.global {
        restored(
            with_visible_entries(
                ViewerView {
                    global: false,
                    selected_chapter: min_int(
                        v.saved_chapter as int,
                        sat_sub(v.chapters.len() as int, 1),
                    ) as usize,
                    ..v
                },
            ),
        )
    } else {
        let s = saved(v);
        restored(
            ViewerView {
                saved_chapter: v.selected_chapter,
                global: true,
                focus: ViewerFocus::Comments,
                rendered: v.all,
                scroll: 0,
                selected: 0,
                total_lines: 0,
                ..s
            },
        )
    }
}

/// Lines a page of chapters scrolls: the drawn height, five before.
pub open spec fn chapter_page(v: ViewerView) -> int {
    match v.chapter_area {
        Some(a) => if a.height > 0 {
            a.height as int
        } else {
            5
        },
        None => 5,
    }
}

/// Height of the comments' text area: the drawn height less its border, 20
/// before the first drawing.
pub open spec fn content_height(v: ViewerView) -> int {
    match v.comments_area {
        Some(a) => sat_sub(a.height as int, 2),
        None => 20,
    }
}

/// Scrolls so that the selected entry is in view.
pub open spec fn scrolled_to_selected(v: ViewerView) -> ViewerView {
    if v.selected < v.rendered.len() {
        let e = v.rendered[v.selected as int];
        let h = content_height(v);
        let s1 = if e.start < v.scroll {
            e.start as int
        } else if e.end > v.scroll + h {
            sat_sub(e.end as int, h)
        } else {
            v.scroll as int
        };
        ViewerView { scroll: min_int(s1, sat_sub(v.total_lines as int, h)) as usize, ..v }
    } else {
        v
    }
}

pub open spec fn moved_next(v: ViewerView) -> ViewerView {
    if v.rendered.len() == 0 {
        v
    } else {
        scrolled_to_selected(
            ViewerView {
                selected: min_int(v.selected + 1, v.rendered.len() - 1) as usize,
                ..v
            },
        )
    }
}

pub open spec fn moved_previous(v: ViewerView) -> ViewerView {
    if v.rendered.len() == 0 {
        v
    } else {
        scrolled_to_selected(ViewerView { selected: sat_sub(v.selected as int, 1) as usize, ..v })
    }
}

/// The viewer's invariant: the selection lies on an entry, or at the top
/// when there is none, and the chapter selection stays in the list.
pub open spec fn viewer_wf(v: ViewerView) -> bool {
    &&& (v.rendered.len() > 0 ==> v.selected < v.rendered.len())
    &&& (v.rendered.len() == 0 ==> v.selected == 0)
}

pub struct CommentsViewer {
    all_entries: Vec<CommentEntry>,
    rendered_entries: Vec<CommentEntry>,
    scroll_offset: usize,
    selected_index: usize,
    last_popup_area: Option<PopupArea>,
    last_position: Option<(usize, usize)>,
    total_rendered_lines: usize,
    chapters: Vec<ChapterDisplay>,
    chapter_scroll_offset: usize,
    selected_chapter_index: usize,
    focus: ViewerFocus,
    chapter_positions: Vec<(String, (usize, usize))>,
    last_chapter_area: Option<PopupArea>,
    last_comments_area: Option<PopupArea>,
    global_search_mode: bool,
    saved_chapter_index: usize,
    global_position: Option<(usize, usize)>,
}

pub open spec fn positions_view(p: Seq<(String, (usize, usize))>) -> Seq<(Seq<char>, (usize, usize))> {
    p.map_values(|e: (String, (usize, usize))| (e.0@, e.1))
}

impl View for CommentsViewer {
    type V = ViewerView;

    closed spec fn view(&self) -> ViewerView {
        ViewerView {
            all: entries_view(self.all_entries@),
            rendered: entries_view(self.rendered_entries@),
            scroll: self.scroll_offset,
            selected: self.selected_index,
            popup: self.last_popup_area,
            last_position: self.last_position,
            total_lines: self.total_rendered_lines,
            chapters: chapters_view(self.chapters@),
            chapter_scroll: self.chapter_scroll_offset,
            selected_chapter: self.selected_chapter_index,
            focus: self.focus,
            positions: positions_view(self.chapter_positions@),
            chapter_area: self.last_chapter_area,
            comments_area: self.last_comments_area,
            global: self.global_search_mode,
            saved_chapter: self.saved_chapter_index,
            global_position: self.global_position,
        }
    }
}

fn clone_entries(entries: &Vec<CommentEntry>) -> (r: Vec<CommentEntry>)
    ensures
        entries_view(r@) == entries_view(entries@),
{
    let mut out: Vec<CommentEntry> = Vec::new();
    let mut k: usize = 0;
    while k < entries.len()
        invariant
            k <= entries@.len(),
            entries_view(out@) == entries_view(entries@).take(k as int),
        decreases entries@.len() - k,
    {
        let ghost prev = out@;
        out.push(entries[k].duplicate());
        proof {
            assert(entries_view(out@) =~= entries_view(prev).push(entries@[k as int]@));
            assert(entries_view(out@) =~= entries_view(entries@).take(k + 1));
        }
        k += 1;
    }
    proof {
        assert(entries_view(entries@).take(k as int) =~= entries_view(entries@));
    }
    out
}

fn entries_of_chapter(entries: &Vec<CommentEntry>, href: &str) -> (r: Vec<CommentEntry>)
    ensures
        entries_view(r@) == entries_view(entries@).filter(|e: EntryView| e.chapter_href == href@),
{
    let ghost v = entries_view(entries@);
    let ghost pred = |e: EntryView| e.chapter_href == href@;
    let mut out: Vec<CommentEntry> = Vec::new();
    let mut k: usize = 0;
    proof {
        reveal(Seq::filter);
        assert(v.take(0).filter(pred) =~= Seq::<EntryView>::empty());
        assert(entries_view(out@) =~= Seq::<EntryView>::empty());
    }
    while k < entries.len()
        invariant
            v == entries_view(entries@),
            pred == (|e: EntryView| e.chapter_href == href@),
            k <= entries@.len(),
            entries_view(out@) == v.take(k as int).filter(pred),
        decreases entries@.len() - k,
    {
        proof {
            assert(v.take(k + 1) =~= v.take(k as int).push(v[k as int]));
            v.take(k as int).lemma_filter_push(v[k as int], pred);
        }
        if text_eq(entries[k].chapter_href.as_str(), href) {
            let ghost prev = out@;
            out.push(entries[k].duplicate());
            proof {
                assert(entries_view(out@) =~= entries_view(prev).push(v[k as int]));
            }
        }
        k += 1;
    }
    proof {
        assert(v.take(k as int) =~= v);
    }
    out
}

fn position_lookup(positions: &Vec<(String, (usize, usize))>, key: &str) -> (r: Option<(usize, usize)>)
    ensures
        r == position_of(positions_view(positions@), key@),
{
    let ghost v = positions_view(positions@);
    let mut k: usize = 0;
    proof {
        assert(v.skip(0) =~= v);
    }
    while k < positions.len()
        invariant
            v == positions_view(positions@),
            k <= positions@.len(),
            position_of(v, key@) == position_of(v.skip(k as int), key@),
        decreases positions@.len() - k,
    {
        proof {
            assert(v.skip(k as int)[0] == v[k as int]);
            assert(v.skip(k as int).drop_first() =~= v.skip(k + 1));
        }
        if text_eq(positions[k].0.as_str(), key) {
            return Some(positions[k].1);
        }
        k += 1;
    }
    None
}

fn position_store(positions: &mut Vec<(String, (usize, usize))>, key: &String, p: (usize, usize))
    ensures
        positions_view(final(positions)@) == with_position(positions_view(old(positions)@), key@, p),
{
    let ghost v = positions_view(positions@);
    let mut k: usize = 0;
    proof {
        assert(v.skip(0) =~= v);
        assert(v.take(0) =~= Seq::<(Seq<char>, (usize, usize))>::empty());
    }
    while k < positions.len()
        invariant
            v == positions_view(positions@),
            v == positions_view(old(positions)@),
            k <= positions@.len(),
            forall|j: int| 0 <= j < k ==> (#[trigger] v[j]).0 != key@,
            with_position(v, key@, p) == v.take(k as int) + with_position(v.skip(k as int), key@, p),
        decreases positions@.len() - k,
    {
        proof {
            assert(v.skip(k as int)[0] == v[k as int]);
            assert(v.skip(k as int).drop_first() =~= v.skip(k + 1));
        }
        if text_eq(positions[k].0.as_str(), key.as_str()) {
            let ghost prev = positions@;
            positions.set(k, (key.clone(), p));
            proof {
                assert(v[k as int].0 == key@);
                assert(v.skip(k as int)[0].0 == key@);
                assert(with_position(v.skip(k as int), key@, p) == v.skip(k as int).update(
                    0,
                    (key@, p),
                ));
                assert(positions_view(positions@) =~= v.take(k as int) + v.skip(k as int).update(
                    0,
                    (key@, p),
                ));
                assert(positions_view(positions@) =~= v.take(k as int) + with_position(
                    v.skip(k as int),
                    key@,
                    p,
                ));
            }
            return;
        }
        proof {
            assert(v.take(k + 1) =~= v.take(k as int) + seq![v[k as int]]);
        }
        k += 1;
    }
    let ghost prev = positions@;
    positions.push((key.clone(), p));
    proof {
        assert(v.take(k as int) =~= v);
        assert(positions_view(positions@) =~= v + seq![(key@, p)]);
    }
}

impl CommentsViewer {
    /// The viewer's state, through its invariant.
    pub closed spec fn wf(&self) -> bool {
        viewer_wf(self@)
    }

    /// What a search looks in, entry by shown entry.
    pub fn collect_searchable_content(&self) -> (r: Vec<String>)
        ensures
            r@.len() == self@.rendered.len(),
            forall|i: int| 0 <= i < r@.len() ==> #[trigger] r@[i]@ == searchable_text(self@.rendered[i]),
    {
        let mut out: Vec<String> = Vec::new();
        let mut k: usize = 0;
        while k < self.rendered_entries.len()
            invariant
                k <= self.rendered_entries@.len(),
                out@.len() == k,
                forall|i: int| 0 <= i < k ==> #[trigger] out@[i]@ == searchable_text(self@.rendered[i]),
            decreases self.rendered_entries@.len() - k,
        {
            let t = searchable_entry(&self.rendered_entries[k]);
            proof {
                assert(self.rendered_entries@[k as int]@ == self@.rendered[k as int]);
            }
            out.push(t);
            k += 1;
        }
        out
    }

    /// Whether the selection lies on a shown entry (or at the top when none
    /// is shown).
    pub fn selection_in_range(&self) -> (b: bool)
        ensures
            b == self.wf(),
    {
        if self.rendered_entries.len() > 0 {
            self.selected_index < self.rendered_entries.len()
        } else {
            self.selected_index == 0
        }
    }

    fn current_chapter_key(&self) -> (r: Option<String>)
        ensures
            opt_text(r) == current_key(self@),
    {
        if self.global_search_mode {
            None
        } else if self.selected_chapter_index < self.chapters.len() {
            match &self.chapters[self.selected_chapter_index].href {
                Some(h) => Some(h.clone()),
                None => None,
            }
        } else {
            None
        }
    }

    fn apply_position(&mut self, p: (usize, usize))
        ensures
            final(self)@ == at_position(old(self)@, p),
    {
        let max_scroll = self.total_rendered_lines.saturating_sub(1);
        let max_sel = self.rendered_entries.len().saturating_sub(1);
        self.scroll_offset = if p.0 < max_scroll {
            p.0
        } else {
            max_scroll
        };
        self.selected_index = if p.1 < max_sel {
            p.1
        } else {
            max_sel
        };
    }

    /// Goes back to the position saved for the current view.
    pub fn restore_position(&mut self)
        ensures
            final(self)@ == restored(old(self)@),
    {
        if self.global_search_mode {
            if let Some(p) = self.global_position {
                self.apply_position(p);
            }
            return;
        }
        let found = match self.current_chapter_key() {
            Some(key) => position_lookup(&self.chapter_positions, key.as_str()),
            None => None,
        };
        match found {
            Some(p) => self.apply_position(p),
            None => {
                if let Some(p) = self.last_position {
                    self.apply_position(p);
                }
            },
        }
    }

    /// Saves the position of the current view.
    pub fn save_position(&mut self)
        ensures
            final(self)@ == saved(old(self)@),
    {
        let p = (self.scroll_offset, self.selected_index);
        if self.global_search_mode {
            self.global_position = Some(p);
        } else {
            match self.current_chapter_key() {
                Some(key) => {
                    position_store(&mut self.chapter_positions, &key, p);
                },
                None => {
                    self.last_position = Some(p);
                },
            }
        }
    }

    fn update_visible_entries(&mut self)
        ensures
            final(self)@ == with_visible_entries(old(self)@),
    {
        if self.global_search_mode {
            self.rendered_entries = clone_entries(&self.all_entries);
        } else {
            match self.current_chapter_key() {
                Some(href) => {
                    self.rendered_entries = entries_of_chapter(&self.all_entries, href.as_str());
                },
                None => {
                    self.rendered_entries = Vec::new();
                    proof {
                        assert(entries_view(self.rendered_entries@) =~= Seq::<EntryView>::empty());
                    }
                },
            }
        }
        self.scroll_offset = 0;
        self.selected_index = 0;
        self.total_rendered_lines = 0;
    }

    fn select_chapter(&mut self, new_index: usize)
        ensures
            final(self)@ == chapter_selected(old(self)@, new_index as int),
    {
        if self.global_search_mode || new_index >= self.chapters.len() || new_index
            == self.selected_chapter_index {
            return;
        }
        self.save_position();
        self.selected_chapter_index = new_index;
        self.update_visible_entries();
        self.restore_position();
    }

    fn toggle_focus(&mut self)
        ensures
            final(self)@ == (ViewerView {
                focus: if old(self)@.focus == ViewerFocus::Chapters {
                    ViewerFocus::Comments
                } else {
                    ViewerFocus::Chapters
                },
                ..old(self)@
            }),
    {
        self.focus = match self.focus {
            ViewerFocus::Chapters => ViewerFocus::Comments,
            ViewerFocus::Comments => ViewerFocus::Chapters,
        };
    }

    /// Switches between the comments of one chapter and all comments.
    pub fn toggle_global_search_mode(&mut self)
        ensures
            final(self)@ == global_toggled(old(self)@),
    {
        if self.global_search_mode {
            self.global_search_mode = false;
            let last = self.chapters.len().saturating_sub(1);
            self.selected_chapter_index = if self.saved_chapter_index < last {
                self.saved_chapter_index
            } else {
                last
            };
            self.update_visible_entries();
            self.restore_position();
        } else {
            self.save_position();
            self.saved_chapter_index = self.selected_chapter_index;
            self.global_search_mode = true;
            self.focus = ViewerFocus::Comments;
            self.rendered_entries = clone_entries(&self.all_entries);
            self.scroll_offset = 0;
            self.selected_index = 0;
            self.total_rendered_lines = 0;
            self.restore_position();
        }
    }

    fn move_chapter_down(&mut self)
        ensures
            final(self)@ == if !old(self)@.global && old(self)@.selected_chapter + 1
                < old(self)@.chapters.len() {
                chapter_selected(old(self)@, old(self)@.selected_chapter + 1)
            } else {
                old(self)@
            },
    {
        if self.global_search_mode {
            return;
        }
        if self.selected_chapter_index < self.chapters.len() && self.selected_chapter_index + 1
            < self.chapters.len() {
            self.select_chapter(self.selected_chapter_index + 1);
        }
    }

    fn move_chapter_up(&mut self)
        ensures
            final(self)@ == if !old(self)@.global && old(self)@.selected_chapter > 0 {
                chapter_selected(old(self)@, old(self)@.selected_chapter - 1)
            } else {
                old(self)@
            },
    {
        if self.global_search_mode {
            return;
        }
        if self.selected_chapter_index > 0 {
            self.select_chapter(self.selected_chapter_index - 1);
        }
    }

    fn chapter_page_size(&self) -> (n: usize)
        ensures
            n == chapter_page(self@),
    {
        match self.last_chapter_area {
            Some(a) => if a.height > 0 {
                a.height as usize
            } else {
                5
            },
            None => 5,
        }
    }

    fn page_chapters_down(&mut self)
        ensures
            final(self)@ == if old(self)@.global {
                old(self)@
            } else {
                chapter_selected(
                    old(self)@,
                    min_int(
                        old(self)@.selected_chapter + chapter_page(old(self)@),
                        sat_sub(old(self)@.chapters.len() as int, 1),
                    ),
                )
            },
    {
        if self.global_search_mode {
            return;
        }
        let page = self.chapter_page_size();
        let last = self.chapters.len().saturating_sub(1);
        let target = if self.selected_chapter_index < last && page < last - self.selected_chapter_index {
            self.selected_chapter_index + page
        } else {
            last
        };
        self.select_chapter(target);
    }

    fn page_chapters_up(&mut self)
        ensures
            final(self)@ == if old(self)@.global {
                old(self)@
            } else {
                chapter_selected(
                    old(self)@,
                    sat_sub(old(self)@.selected_chapter as int, chapter_page(old(self)@)),
                )
            },
    {
        if self.global_search_mode {
            return;
        }
        let page = self.chapter_page_size();
        let target = self.selected_chapter_index.saturating_sub(page);
        self.select_chapter(target);
    }

    fn comments_content_height(&self) -> (n: usize)
        ensures
            n == content_height(self@),
    {
        match self.last_comments_area {
            Some(a) => a.height.saturating_sub(2) as usize,
            None => 20,
        }
    }

    fn scroll_to_selected(&mut self)
        ensures
            final(self)@ == scrolled_to_selected(old(self)@),
    {
        if self.selected_index < self.rendered_entries.len() {
            let start = self.rendered_entries[self.selected_index].render_start_line;
            let end = self.rendered_entries[self.selected_index].render_end_line;
            let h = self.comments_content_height();
            let s1 = if start < self.scroll_offset {
                start
            } else if end > self.scroll_offset && end - self.scroll_offset > h {
                end.saturating_sub(h)
            } else {
                self.scroll_offset
            };
            let max_scroll = self.total_rendered_lines.saturating_sub(h);
            self.scroll_offset = if s1 < max_scroll {
                s1
            } else {
                max_scroll
            };
        }
    }

    /// Selects the next entry.
    pub fn next(&mut self)
        ensures
            final(self)@ == moved_next(old(self)@),
    {
        if self.rendered_entries.len() == 0 {
            return;
        }
        let last = self.rendered_entries.len() - 1;
        self.selected_index = if self.selected_index < last {
            self.selected_index + 1
        } else {
            last
        };
        self.scroll_to_selected();
    }

    /// Selects the previous entry.
    pub fn previous(&mut self)
        ensures
            final(self)@ == moved_previous(old(self)@),
    {
        if self.rendered_entries.len() == 0 {
            return;
        }
        self.selected_index = self.selected_index.saturating_sub(1);
        self.scroll_to_selected();
    }
}

/// Up to `n` moves down in the entries, stopping at the last one.
pub open spec fn repeat_next(v: ViewerView, n: nat) -> ViewerView
    decreases n,
{
    if n == 0 || v.rendered.len() == 0 || v.selected >= v.rendered.len() - 1 {
        v
    } else {
        repeat_next(moved_next(v), (n - 1) as nat)
    }
}

/// Up to `n` moves up in the entries, stopping at the first one.
pub open spec fn repeat_previous(v: ViewerView, n: nat) -> ViewerView
    decreases n,
{
    if n == 0 || v.selected == 0 {
        v
    } else {
        repeat_previous(moved_previous(v), (n - 1) as nat)
    }
}

pub open spec fn chapter_moved(v: ViewerView, down: bool) -> ViewerView {
    if down {
        if !v.global && v.selected_chapter + 1 < v.chapters.len() {
            chapter_selected(v, v.selected_chapter + 1)
        } else {
            v
        }
    } else {
        if !v.global && v.selected_chapter > 0 {
            chapter_selected(v, v.selected_chapter - 1)
        } else {
            v
        }
    }
}

pub open spec fn repeat_chapter_moves(v: ViewerView, down: bool, n: nat) -> ViewerView
    decreases n,
{
    if n == 0 {
        v
    } else {
        repeat_chapter_moves(chapter_moved(v, down), down, (n - 1) as nat)
    }
}

pub open spec fn entry_moved(v: ViewerView, down: bool) -> ViewerView {
    if down {
        moved_next(v)
    } else {
        moved_previous(v)
    }
}

pub open spec fn repeat_entry_moves(v: ViewerView, down: bool, n: nat) -> ViewerView
    decreases n,
{
    if n == 0 {
        v
    } else {
        repeat_entry_moves(entry_moved(v, down), down, (n - 1) as nat)
    }
}

pub open spec fn in_columns(area: Option<PopupArea>, column: u16) -> bool {
    area matches Some(a) && column >= a.x && column < a.x + a.width
}

pub open spec fn in_area(area: Option<PopupArea>, x: u16, y: u16) -> bool {
    area matches Some(a) && x >= a.x && x < a.x + a.width && y >= a.y && y < a.y + a.height
}

/// The state after a scroll of the mouse wheel over the viewer (at most ten
/// steps): over the chapters it moves the chapter selection, over the
/// comments the entry selection.
pub open spec fn wheel_scrolled(v: ViewerView, column: u16, amount: int) -> ViewerView {
    let steps: nat = if amount >= 10 || amount <= -10 {
        10
    } else if amount < 0 {
        (-amount) as nat
    } else {
        amount as nat
    };
    let down = amount > 0;
    if amount == 0 {
        v
    } else if in_columns(v.chapter_area, column) {
        let w = ViewerView { focus: ViewerFocus::Chapters, ..v };
        if w.global {
            w
        } else {
            repeat_chapter_moves(w, down, steps)
        }
    } else if in_columns(v.comments_area, column) {
        let w = ViewerView { focus: ViewerFocus::Comments, ..v };
        if w.rendered.len() == 0 {
            w
        } else {
            repeat_entry_moves(w, down, steps)
        }
    } else {
        v
    }
}

/// Index of the first entry whose lines hold the line.
pub open spec fn entry_at_line(entries: Seq<EntryView>, line: int) -> Option<int>
    decreases entries.len(),
{
    if entries.len() == 0 {
        None
    } else if entries[0].start <= line < entries[0].end {
        Some(0)
    } else {
        match entry_at_line(entries.drop_first(), line) {
            Some(i) => Some(i + 1),
            None => None,
        }
    }
}

/// The state after a click: in the chapter list it selects the clicked
/// chapter; in the comments it selects the clicked entry.
pub open spec fn clicked(v: ViewerView, x: u16, y: u16) -> ViewerView {
    if in_area(v.chapter_area, x, y) {
        let a = v.chapter_area->0;
        let w = ViewerView { focus: ViewerFocus::Chapters, ..v };
        let target = v.chapter_scroll + (y - a.y);
        if !w.global && target < w.chapters.len() {
            chapter_selected(w, target)
        } else {
            w
        }
    } else if in_area(v.comments_area, x, y) {
        let a = v.comments_area->0;
        let w = ViewerView { focus: ViewerFocus::Comments, ..v };
        match entry_at_line(w.rendered, v.scroll + (y - a.y)) {
            Some(i) => ViewerView { selected: i as usize, ..w },
            None => w,
        }
    } else {
        v
    }
}

/// A click selects an entry exactly when it falls on one in the comments.
pub open spec fn click_selects_entry(v: ViewerView, x: u16, y: u16) -> bool {
    !in_area(v.chapter_area, x, y) && in_area(v.comments_area, x, y) && entry_at_line(
        v.rendered,
        v.scroll + (y - v.comments_area->0.y),
    ) is Some
}

pub open spec fn same_entry(a: EntryView, b: EntryView) -> bool {
    a.chapter_href == b.chapter_href && a.comments == b.comments
}

pub open spec fn first_entry_like(s: Seq<EntryView>, e: EntryView) -> Option<int>
    decreases s.len(),
{
    if s.len() == 0 {
        None
    } else if same_entry(s[0], e) {
        Some(0)
    } else {
        match first_entry_like(s.drop_first(), e) {
            Some(i) => Some(i + 1),
            None => None,
        }
    }
}

/// The state after the selected entry is removed from the view, from all
/// entries, and from its chapter's count.
pub open spec fn entry_removed(v: ViewerView) -> ViewerView {
    if v.rendered.len() == 0 {
        v
    } else {
        let e = v.rendered[v.selected as int];
        let rendered = v.rendered.remove(v.selected as int);
        let all = match first_entry_like(v.all, e) {
            Some(i) => v.all.remove(i),
            None => v.all,
        };
        let chapters = match first_where(v.chapters, |c: ChapView| c.href == Some(e.chapter_href)) {
            Some(i) => v.chapters.update(
                i,
                ChapView { count: sat_sub(v.chapters[i].count as int, 1) as nat, ..v.chapters[i] },
            ),
            None => v.chapters,
        };
        let selected = if v.selected >= rendered.len() && rendered.len() > 0 {
            (rendered.len() - 1) as usize
        } else {
            v.selected
        };
        let end = if rendered.len() > 0 {
            rendered.last().end as int
        } else {
            0
        };
        ViewerView {
            rendered,
            all,
            chapters,
            selected,
            total_lines: 0,
            scroll: min_int(v.scroll as int, end) as usize,
            ..v
        }
    }
}

/// Entry lines laid out from the heights of the entries, one after another.
pub open spec fn laid_out(entries: Seq<EntryView>, heights: Seq<usize>, start: nat) -> Seq<EntryView>
    decreases entries.len(),
{
    if entries.len() == 0 {
        Seq::empty()
    } else {
        seq![EntryView { start: start, end: start + heights[0] as nat, ..entries[0] }] + laid_out(
            entries.drop_first(),
            heights.drop_first(),
            start + heights[0] as nat,
        )
    }
}

pub open spec fn sum_heights(h: Seq<usize>) -> nat
    decreases h.len(),
{
    if h.len() == 0 {
        0
    } else {
        h[0] as nat + sum_heights(h.drop_first())
    }
}

/// Whether entry `i` shows its chapter's title: the first entry and each
/// entry of another chapter than the one before.
pub open spec fn shows_chapter_header(entries: Seq<EntryView>, i: int) -> bool {
    i == 0 || entries[i - 1].chapter_href != entries[i].chapter_href
}

/// The height of each shown entry at the width, the chapter title shown on
/// the first entry of each chapter.
pub open spec fn layout_heights(es: Seq<EntryView>, width: usize) -> Seq<Option<nat>> {
    Seq::new(es.len() as nat, |i: int| entry_height(es[i], width, shows_chapter_header(es, i)))
}

pub open spec fn height_fits(h: Option<nat>) -> bool {
    match h {
        Some(x) => x <= usize::MAX,
        None => false,
    }
}

/// Every entry's height can be counted.
pub open spec fn heights_known(es: Seq<EntryView>, width: usize) -> bool {
    forall|i: int| 0 <= i < es.len() ==> height_fits(#[trigger] layout_heights(es, width)[i])
}

pub open spec fn known_heights(es: Seq<EntryView>, width: usize) -> Seq<usize> {
    Seq::new(
        es.len() as nat,
        |i: int|
            match layout_heights(es, width)[i] {
                Some(h) => h as usize,
                None => 0usize,
            },
    )
}

pub proof fn lemma_sum_heights_push(s: Seq<usize>, x: usize)
    ensures
        sum_heights(s.push(x)) == sum_heights(s) + x,
    decreases s.len(),
{
    if s.len() > 0 {
        assert(s.push(x).drop_first() =~= s.drop_first().push(x));
        assert(s.push(x)[0] == s[0]);
        lemma_sum_heights_push(s.drop_first(), x);
        assert(sum_heights(s.push(x)) == s[0] + sum_heights(s.drop_first().push(x)));
    } else {
        let t = s.push(x);
        assert(t.drop_first() =~= Seq::<usize>::empty());
        assert(sum_heights(t.drop_first()) == 0);
        assert(t[0] == x);
        assert(sum_heights(t) == t[0] + sum_heights(t.drop_first()));
    }
}

pub proof fn lemma_sum_heights_prefix(s: Seq<usize>, k: int)
    requires
        0 <= k <= s.len(),
    ensures
        sum_heights(s.take(k)) <= sum_heights(s),
    decreases s.len() - k,
{
    if k < s.len() {
        lemma_sum_heights_prefix(s, k + 1);
        assert(s.take(k + 1) =~= s.take(k).push(s[k]));
        lemma_sum_heights_push(s.take(k), s[k]);
    } else {
        assert(s.take(k) =~= s);
    }
}

pub open spec fn with_layout(v: ViewerView, content_width: nat, content_height: nat, heights: Seq<usize>) -> ViewerView {
    if v.rendered.len() == 0 {
        ViewerView { total_lines: 0, scroll: 0, ..v }
    } else if content_width == 0 {
        v
    } else {
        let total = sum_heights(heights);
        ViewerView {
            rendered: laid_out(v.rendered, heights, 0),
            total_lines: total as usize,
            scroll: min_int(v.scroll as int, sat_sub(total as int, content_height as int)) as usize,
            ..v
        }
    }
}

fn comments_equal(a: &Vec<Comment>, b: &Vec<Comment>) -> (r: bool)
    ensures
        r == (comments_view(a@) == comments_view(b@)),
{
    if a.len() != b.len() {
        proof {
            assert(comments_view(a@).len() != comments_view(b@).len());
        }
        return false;
    }
    let mut k: usize = 0;
    while k < a.len()
        invariant
            a@.len() == b@.len(),
            k <= a@.len(),
            forall|j: int| 0 <= j < k ==> a@[j]@ == b@[j]@,
        decreases a@.len() - k,
    {
        let x = &a[k];
        let y = &b[k];
        let same = text_eq(x.chapter_href.as_str(), y.chapter_href.as_str()) && x.target == y.target
            && text_eq(x.content.as_str(), y.content.as_str()) && x.updated_at == y.updated_at;
        if !same {
            proof {
                assert(comments_view(a@)[k as int] != comments_view(b@)[k as int]);
            }
            return false;
        }
        k += 1;
    }
    proof {
        assert(comments_view(a@) =~= comments_view(b@));
    }
    true
}

impl CommentsViewer {
    /// A viewer of the entries with their chapter list, on the current
    /// chapter when it is listed.
    pub fn new(entries: Vec<CommentEntry>, chapters: Vec<ChapterDisplay>, current_chapter_href: Option<&str>) -> (r:
        Self)
        ensures
            r.wf(),
            r@ == restored(
                with_visible_entries(
                    ViewerView {
                        all: entries_view(entries@),
                        rendered: Seq::empty(),
                        scroll: 0,
                        selected: 0,
                        popup: None,
                        last_position: Some((0usize, 0usize)),
                        total_lines: 0,
                        chapters: chapters_view(chapters@),
                        chapter_scroll: 0,
                        selected_chapter: initial_index(
                            chapters_view(chapters@),
                            match current_chapter_href {
                                Some(t) => Some(t@),
                                None => None,
                            },
                        ) as usize,
                        focus: ViewerFocus::Comments,
                        positions: Seq::empty(),
                        chapter_area: None,
                        comments_area: None,
                        global: false,
                        saved_chapter: initial_index(
                            chapters_view(chapters@),
                            match current_chapter_href {
                                Some(t) => Some(t@),
                                None => None,
                            },
                        ) as usize,
                        global_position: None,
                    },
                ),
            ),
    {
        let initial = initial_chapter_index(current_chapter_href, &chapters);
        let mut viewer = CommentsViewer {
            all_entries: entries,
            rendered_entries: Vec::new(),
            scroll_offset: 0,
            selected_index: 0,
            last_popup_area: None,
            last_position: Some((0, 0)),
            total_rendered_lines: 0,
            chapters,
            chapter_scroll_offset: 0,
            selected_chapter_index: initial,
            focus: ViewerFocus::Comments,
            chapter_positions: Vec::new(),
            last_chapter_area: None,
            last_comments_area: None,
            global_search_mode: false,
            saved_chapter_index: initial,
            global_position: None,
        };
        proof {
            assert(entries_view(viewer.rendered_entries@) =~= Seq::<EntryView>::empty());
            assert(positions_view(viewer.chapter_positions@) =~= Seq::<(Seq<char>, (usize, usize))>::empty());
        }
        viewer.update_visible_entries();
        viewer.restore_position();
        viewer
    }

    pub fn selected_index(&self) -> (r: usize)
        ensures
            r == self@.selected,
    {
        self.selected_index
    }

    pub fn scroll_offset(&self) -> (r: usize)
        ensures
            r == self@.scroll,
    {
        self.scroll_offset
    }

    pub fn focus(&self) -> (r: ViewerFocus)
        ensures
            r == self@.focus,
    {
        self.focus
    }

    pub fn is_global_search_mode(&self) -> (r: bool)
        ensures
            r == self@.global,
    {
        self.global_search_mode
    }

    pub fn selected_chapter_index(&self) -> (r: usize)
        ensures
            r == self@.selected_chapter,
    {
        self.selected_chapter_index
    }

    pub fn chapter_scroll_offset(&self) -> (r: usize)
        ensures
            r == self@.chapter_scroll,
    {
        self.chapter_scroll_offset
    }

    pub fn chapters(&self) -> (r: &Vec<ChapterDisplay>)
        ensures
            chapters_view(r@) == self@.chapters,
    {
        &self.chapters
    }

    pub fn rendered_entries(&self) -> (r: &Vec<CommentEntry>)
        ensures
            entries_view(r@) == self@.rendered,
    {
        &self.rendered_entries
    }

    pub fn all_entries(&self) -> (r: &Vec<CommentEntry>)
        ensures
            entries_view(r@) == self@.all,
    {
        &self.all_entries
    }

    pub fn total_rendered_lines(&self) -> (r: usize)
        ensures
            r == self@.total_lines,
    {
        self.total_rendered_lines
    }

    /// Records where the popup, the chapter list and the comments were drawn.
    pub fn record_areas(&mut self, popup: PopupArea, chapter_area: PopupArea, comments_area: PopupArea)
        ensures
            final(self)@ == (ViewerView {
                popup: Some(popup),
                chapter_area: Some(chapter_area),
                comments_area: Some(comments_area),
                ..old(self)@
            }),
    {
        self.last_popup_area = Some(popup);
        self.last_chapter_area = Some(chapter_area);
        self.last_comments_area = Some(comments_area);
    }

    /// Scrolls the chapter list so that the selected chapter is among the
    /// `visible_height` lines shown.
    pub fn update_chapter_scroll(&mut self, visible_height: usize)
        requires
            visible_height > 0,
        ensures
            final(self)@ == (ViewerView {
                chapter_scroll: if old(self)@.selected_chapter < old(self)@.chapter_scroll {
                    old(self)@.selected_chapter
                } else if old(self)@.selected_chapter >= old(self)@.chapter_scroll + visible_height {
                    (old(self)@.selected_chapter + 1 - visible_height) as usize
                } else {
                    old(self)@.chapter_scroll
                },
                ..old(self)@
            }),
    {
        if self.selected_chapter_index < self.chapter_scroll_offset {
            self.chapter_scroll_offset = self.selected_chapter_index;
        } else if self.selected_chapter_index - self.chapter_scroll_offset >= visible_height {
            self.chapter_scroll_offset = self.selected_chapter_index - (visible_height - 1);
        }
    }

    /// For each shown entry, whether it shows its chapter's title.
    pub fn chapter_header_flags(&self) -> (r: Vec<bool>)
        ensures
            r@.len() == self@.rendered.len(),
            forall|i: int| 0 <= i < r@.len() ==> #[trigger] r@[i] == shows_chapter_header(self@.rendered, i),
    {
        let ghost v = entries_view(self.rendered_entries@);
        let mut out: Vec<bool> = Vec::new();
        let mut i: usize = 0;
        while i < self.rendered_entries.len()
            invariant
                v == entries_view(self.rendered_entries@),
                i <= self.rendered_entries@.len(),
                out@.len() == i,
                forall|j: int| 0 <= j < i ==> #[trigger] out@[j] == shows_chapter_header(v, j),
            decreases self.rendered_entries@.len() - i,
        {
            let show = i == 0 || !text_eq(
                self.rendered_entries[i - 1].chapter_href.as_str(),
                self.rendered_entries[i].chapter_href.as_str(),
            );
            out.push(show);
            i += 1;
        }
        out
    }

    /// Lays the shown entries out one after another at the content width,
    /// each as high as its wrapped text, and keeps the scroll inside; tells
    /// whether it could (it cannot when a comment's time cannot be written or
    /// the heights pass `usize::MAX`; the layout then stays).
    pub fn recalculate_entry_layout(&mut self, content_width: usize, content_height: usize) -> (applied: bool)
        ensures
            applied == (old(self)@.rendered.len() == 0 || content_width == 0 || (heights_known(
                old(self)@.rendered,
                content_width,
            ) && sum_heights(known_heights(old(self)@.rendered, content_width)) <= usize::MAX)),
            applied ==> final(self)@ == with_layout(
                old(self)@,
                content_width as nat,
                content_height as nat,
                known_heights(old(self)@.rendered, content_width),
            ),
            !applied ==> final(self)@ == old(self)@,
    {
        let ghost v = self@.rendered;
        let ghost kh = known_heights(v, content_width);
        let n = self.rendered_entries.len();
        let mut heights: Vec<usize> = Vec::new();
        if n == 0 || content_width == 0 {
            let mut k: usize = 0;
            while k < n
                invariant
                    k <= n,
                    heights@.len() == k,
                    sum_heights(heights@) == 0,
                decreases n - k,
            {
                proof {
                    lemma_sum_heights_push(heights@, 0);
                }
                heights.push(0);
                k += 1;
            }
            self.apply_entry_layout(content_width, content_height, &heights);
            return true;
        }
        let mut total: usize = 0;
        let mut i: usize = 0;
        proof {
            assert(heights@ =~= kh.take(0));
        }
        while i < n
            invariant
                v == self@.rendered,
                v == old(self)@.rendered,
                self@ == old(self)@,
                n == v.len(),
                n > 0,
                content_width > 0,
                kh == known_heights(v, content_width),
                i <= n,
                heights@ == kh.take(i as int),
                total == sum_heights(heights@),
                forall|j: int| 0 <= j < i ==> height_fits(#[trigger] layout_heights(v, content_width)[j]),
            decreases n - i,
        {
            let show = if i == 0 {
                true
            } else {
                !text_eq(
                    self.rendered_entries[i - 1].chapter_href.as_str(),
                    self.rendered_entries[i].chapter_href.as_str(),
                )
            };
            proof {
                assert(self.rendered_entries@[i as int]@ == v[i as int]);
                if i > 0 {
                    assert(self.rendered_entries@[i - 1]@ == v[i - 1]);
                }
                assert(show == shows_chapter_header(v, i as int));
            }
            let h = match calculate_entry_height_for_width(&self.rendered_entries[i], content_width, show) {
                Some(h) => h,
                None => {
                    proof {
                        assert(!height_fits(layout_heights(v, content_width)[i as int]));
                    }
                    return false;
                },
            };
            proof {
                assert(layout_heights(v, content_width)[i as int] == Some(h as nat));
                assert(kh[i as int] == h);
                assert(kh.take(i + 1) =~= kh.take(i as int).push(h));
                lemma_sum_heights_push(heights@, h);
            }
            if total > usize::MAX - h {
                proof {
                    lemma_sum_heights_prefix(kh, i + 1);
                }
                return false;
            }
            heights.push(h);
            total = total + h;
            i += 1;
        }
        proof {
            assert(kh.take(n as int) =~= kh);
        }
        self.apply_entry_layout(content_width, content_height, &heights);
        true
    }

    /// Lays the entries out one after another with the given heights.
    pub fn apply_entry_layout(&mut self, content_width: usize, content_height: usize, heights: &Vec<usize>)
        requires
            heights@.len() == old(self)@.rendered.len(),
            sum_heights(heights@) <= usize::MAX,
        ensures
            final(self)@ == with_layout(old(self)@, content_width as nat, content_height as nat, heights@),
    {
        if self.rendered_entries.len() == 0 {
            self.total_rendered_lines = 0;
            self.scroll_offset = 0;
            return;
        }
        if content_width == 0 {
            return;
        }
        let ghost v = entries_view(self.rendered_entries@);
        let mut current: usize = 0;
        let mut i: usize = 0;
        let n = self.rendered_entries.len();
        proof {
            assert(v.skip(0) =~= v);
            assert(heights@.skip(0) =~= heights@);
            assert(v.take(0) =~= Seq::<EntryView>::empty());
        }
        while i < n
            invariant
                n == self.rendered_entries@.len(),
                n == heights@.len(),
                v.len() == n,
                v == old(self)@.rendered,
                content_width > 0,
                self@ == (ViewerView { rendered: entries_view(self.rendered_entries@), ..old(self)@ }),
                i <= n,
                sum_heights(heights@) <= usize::MAX,
                current + sum_heights(heights@.skip(i as int)) == sum_heights(heights@),
                laid_out(v, heights@, 0) == entries_view(self.rendered_entries@).take(i as int)
                    + laid_out(v.skip(i as int), heights@.skip(i as int), current as nat),
                entries_view(self.rendered_entries@).skip(i as int) == v.skip(i as int),
            decreases n - i,
        {
            proof {
                assert(heights@.skip(i as int)[0] == heights@[i as int]);
                assert(heights@.skip(i as int).drop_first() =~= heights@.skip(i + 1));
                assert(v.skip(i as int).drop_first() =~= v.skip(i + 1));
                assert(v.skip(i as int)[0] == v[i as int]);
            }
            let h = heights[i];
            let ghost prev = self.rendered_entries@;
            let mut e = self.rendered_entries.remove(i);
            e.render_start_line = current;
            e.render_end_line = current + h;
            self.rendered_entries.insert(i, e);
            proof {
                assert(entries_view(prev).skip(i as int)[0] == v[i as int]);
                assert(entries_view(self.rendered_entries@).take(i + 1) =~= entries_view(prev).take(
                    i as int,
                ).push(EntryView { start: current as nat, end: (current + h) as nat, ..v[i as int] }));
                assert(entries_view(self.rendered_entries@).skip(i + 1) =~= entries_view(prev).skip(
                    i + 1,
                ));
                assert(entries_view(prev).skip(i + 1) =~= entries_view(prev).skip(i as int).drop_first());
            }
            current = current + h;
            i += 1;
        }
        proof {
            assert(heights@.skip(n as int) =~= Seq::<usize>::empty());
            assert(v.skip(n as int) =~= Seq::<EntryView>::empty());
            assert(entries_view(self.rendered_entries@).take(n as int) =~= entries_view(
                self.rendered_entries@,
            ));
            assert(laid_out(v, heights@, 0) =~= entries_view(self.rendered_entries@));
        }
        self.total_rendered_lines = current;
        let max_scroll = current.saturating_sub(content_height);
        if self.scroll_offset > max_scroll {
            self.scroll_offset = max_scroll;
        }
    }

    /// Check if the given coordinates are outside the popup area
    pub fn is_outside_popup_area(&self, x: u16, y: u16) -> (b: bool)
        ensures
            b == outside_area(self@.popup, x, y),
    {
        is_outside(self.last_popup_area, x, y)
    }

    /// The selected entry, if any.
    pub fn selected_comment(&self) -> (r: Option<&CommentEntry>)
        ensures
            match r {
                Some(e) => self@.selected < self@.rendered.len() && e@ == self@.rendered[self@.selected as int],
                None => self@.selected >= self@.rendered.len(),
            },
    {
        if self.selected_index < self.rendered_entries.len() {
            Some(&self.rendered_entries[self.selected_index])
        } else {
            None
        }
    }

    /// Selects the entry at the index (the last when past the end).
    pub fn jump_to_match(&mut self, match_index: usize)
        ensures
            final(self)@ == scrolled_to_selected(
                ViewerView {
                    selected: min_int(match_index as int, sat_sub(old(self)@.rendered.len() as int, 1))
                        as usize,
                    ..old(self)@
                },
            ),
    {
        let last = self.rendered_entries.len().saturating_sub(1);
        self.selected_index = if match_index < last {
            match_index
        } else {
            last
        };
        self.scroll_to_selected();
    }
}

impl CommentsViewer {
    fn repeat_chapter_moves_exec(&mut self, down: bool, steps: usize)
        ensures
            final(self)@ == repeat_chapter_moves(old(self)@, down, steps as nat),
    {
        let ghost start = self@;
        let mut n: usize = 0;
        while n < steps
            invariant
                n <= steps,
                repeat_chapter_moves(start, down, steps as nat) == repeat_chapter_moves(
                    self@,
                    down,
                    (steps - n) as nat,
                ),
            decreases steps - n,
        {
            if down {
                self.move_chapter_down();
            } else {
                self.move_chapter_up();
            }
            n += 1;
        }
    }

    fn repeat_entry_moves_exec(&mut self, down: bool, steps: usize)
        ensures
            final(self)@ == repeat_entry_moves(old(self)@, down, steps as nat),
    {
        let ghost start = self@;
        let mut n: usize = 0;
        while n < steps
            invariant
                n <= steps,
                repeat_entry_moves(start, down, steps as nat) == repeat_entry_moves(
                    self@,
                    down,
                    (steps - n) as nat,
                ),
            decreases steps - n,
        {
            if down {
                self.next();
            } else {
                self.previous();
            }
            n += 1;
        }
    }

    /// Scrolls with the mouse wheel over the column; tells whether the wheel
    /// was over the viewer.
    pub fn handle_mouse_scroll(&mut self, column: u16, scroll_amount: i32) -> (handled: bool)
        requires
            scroll_amount != i32::MIN,
        ensures
            final(self)@ == wheel_scrolled(old(self)@, column, scroll_amount as int),
            handled == (scroll_amount == 0 || in_columns(old(self)@.chapter_area, column) || in_columns(
                old(self)@.comments_area,
                column,
            )),
    {
        if scroll_amount == 0 {
            return true;
        }
        let magnitude: i32 = if scroll_amount < 0 {
            -scroll_amount
        } else {
            scroll_amount
        };
        let steps: usize = if magnitude > 10 {
            10
        } else {
            magnitude as usize
        };
        let down = scroll_amount > 0;
        if let Some(a) = self.last_chapter_area {
            if column >= a.x && (column as u32) < a.x as u32 + a.width as u32 {
                self.focus = ViewerFocus::Chapters;
                if !self.global_search_mode {
                    self.repeat_chapter_moves_exec(down, steps);
                }
                return true;
            }
        }
        if let Some(a) = self.last_comments_area {
            if column >= a.x && (column as u32) < a.x as u32 + a.width as u32 {
                self.focus = ViewerFocus::Comments;
                if self.rendered_entries.len() == 0 {
                    return true;
                }
                self.repeat_entry_moves_exec(down, steps);
                return true;
            }
        }
        false
    }

    fn entry_at_line_exec(&self, line: u128) -> (r: Option<usize>)
        ensures
            match entry_at_line(self@.rendered, line as int) {
                Some(i) => r matches Some(k) && k as int == i,
                None => r is None,
            },
    {
        let ghost v = self@.rendered;
        let mut k: usize = 0;
        proof {
            assert(v.skip(0) =~= v);
        }
        while k < self.rendered_entries.len()
            invariant
                v == entries_view(self.rendered_entries@),
                k <= self.rendered_entries@.len(),
                entry_at_line(v, line as int) == match entry_at_line(v.skip(k as int), line as int) {
                    Some(i) => Some(i + k),
                    None => None::<int>,
                },
            decreases self.rendered_entries@.len() - k,
        {
            proof {
                assert(v.skip(k as int)[0] == v[k as int]);
                assert(v.skip(k as int).drop_first() =~= v.skip(k + 1));
            }
            let e = &self.rendered_entries[k];
            if (e.render_start_line as u128) <= line && line < (e.render_end_line as u128) {
                return Some(k);
            }
            k += 1;
        }
        proof {
            assert(v.skip(k as int).len() == 0);
        }
        None
    }

    /// Handles a click; tells whether it selected an entry.
    pub fn handle_mouse_click(&mut self, x: u16, y: u16) -> (hit: bool)
        ensures
            final(self)@ == clicked(old(self)@, x, y),
            hit == click_selects_entry(old(self)@, x, y),
    {
        if let Some(a) = self.last_chapter_area {
            if x >= a.x && (x as u32) < a.x as u32 + a.width as u32 && y >= a.y && (y as u32) < a.y as u32
                + a.height as u32 {
                self.focus = ViewerFocus::Chapters;
                let rel = (y - a.y) as usize;
                if !self.global_search_mode && self.chapter_scroll_offset < self.chapters.len() && rel
                    < self.chapters.len() - self.chapter_scroll_offset {
                    self.select_chapter(self.chapter_scroll_offset + rel);
                }
                return false;
            }
        }
        if let Some(a) = self.last_comments_area {
            if x >= a.x && (x as u32) < a.x as u32 + a.width as u32 && y >= a.y && (y as u32) < a.y as u32
                + a.height as u32 {
                self.focus = ViewerFocus::Comments;
                let line: u128 = self.scroll_offset as u128 + (y - a.y) as u128;
                match self.entry_at_line_exec(line) {
                    Some(i) => {
                        self.selected_index = i;
                        return true;
                    },
                    None => {
                        return false;
                    },
                }
            }
        }
        false
    }

    /// Removes the selected entry from the view, from all entries and from
    /// its chapter's count; gives its comments.
    pub fn remove_selected_comment(&mut self) -> (removed: Vec<Comment>)
        requires
            old(self).wf(),
        ensures
            final(self)@ == entry_removed(old(self)@),
            final(self).wf(),
            old(self)@.rendered.len() > 0 ==> comments_view(removed@) == old(self)@.rendered[old(
                self,
            )@.selected as int].comments,
            old(self)@.rendered.len() == 0 ==> removed@.len() == 0,
    {
        let ghost v = self@;
        if self.rendered_entries.len() == 0 {
            return Vec::new();
        }
        let removed = self.rendered_entries.remove(self.selected_index);
        proof {
            assert(entries_view(self.rendered_entries@) =~= v.rendered.remove(v.selected as int));
        }
        let idx = find_entry_like(&self.all_entries, &removed);
        match idx {
            Some(i) => {
                let _gone = self.all_entries.remove(i);
                proof {
                    assert(entries_view(self.all_entries@) =~= v.all.remove(i as int));
                }
            },
            None => {},
        }
        let ghost cv = chapters_view(self.chapters@);
        match find_chapter_of(&self.chapters, removed.chapter_href.as_str()) {
            Some(c) => {
                let old_count = self.chapters[c].comment_count;
                self.chapters[c].comment_count = old_count.saturating_sub(1);
                proof {
                    assert(chapters_view(self.chapters@) =~= cv.update(
                        c as int,
                        ChapView { count: sat_sub(cv[c as int].count as int, 1) as nat, ..cv[c as int] },
                    ));
                }
            },
            None => {},
        }
        let len = self.rendered_entries.len();
        if self.selected_index >= len && len > 0 {
            self.selected_index = len - 1;
        }
        self.total_rendered_lines = 0;
        let end = if len > 0 {
            self.rendered_entries[len - 1].render_end_line
        } else {
            0
        };
        if self.scroll_offset > end {
            self.scroll_offset = end;
        }
        removed.comments
    }
}

fn find_entry_like(entries: &Vec<CommentEntry>, e: &CommentEntry) -> (r: Option<usize>)
    ensures
        r matches Some(k) ==> k < entries@.len(),
        match first_entry_like(entries_view(entries@), e@) {
            Some(i) => r matches Some(k) && k as int == i,
            None => r is None,
        },
{
    let ghost v = entries_view(entries@);
    let mut k: usize = 0;
    proof {
        assert(v.skip(0) =~= v);
    }
    while k < entries.len()
        invariant
            v == entries_view(entries@),
            k <= entries@.len(),
            first_entry_like(v, e@) == match first_entry_like(v.skip(k as int), e@) {
                Some(i) => Some(i + k),
                None => None::<int>,
            },
        decreases entries@.len() - k,
    {
        proof {
            assert(v.skip(k as int)[0] == v[k as int]);
            assert(v.skip(k as int).drop_first() =~= v.skip(k + 1));
        }
        if text_eq(entries[k].chapter_href.as_str(), e.chapter_href.as_str()) && comments_equal(
            &entries[k].comments,
            &e.comments,
        ) {
            return Some(k);
        }
        k += 1;
    }
    proof {
        assert(v.skip(k as int).len() == 0);
    }
    None
}

fn find_chapter_of(chapters: &Vec<ChapterDisplay>, href: &str) -> (r: Option<usize>)
    ensures
        r matches Some(k) ==> k < chapters@.len(),
        match first_where(chapters_view(chapters@), |c: ChapView| c.href == Some(href@)) {
            Some(i) => r matches Some(k) && k as int == i,
            None => r is None,
        },
{
    let ghost v = chapters_view(chapters@);
    let ghost pred = |c: ChapView| c.href == Some(href@);
    proof {
        lemma_first_where(v, pred);
    }
    let mut k: usize = 0;
    while k < chapters.len()
        invariant
            v == chapters_view(chapters@),
            pred == (|c: ChapView| c.href == Some(href@)),
            k <= chapters@.len(),
            forall|j: int| 0 <= j < k ==> !pred(#[trigger] v[j]),
            match first_where(v, pred) {
                Some(i) => 0 <= i < v.len() && pred(v[i]) && forall|j: int|
                    0 <= j < i ==> !pred(#[trigger] v[j]),
                None => forall|j: int| 0 <= j < v.len() ==> !pred(#[trigger] v[j]),
            },
        decreases chapters@.len() - k,
    {
        let hit = match &chapters[k].href {
            Some(h) => text_eq(h.as_str(), href),
            None => false,
        };
        proof {
            assert(v[k as int] == chapters@[k as int]@);
        }
        if hit {
            proof {
                assert(pred(v[k as int]));
                match first_where(v, pred) {
                    Some(i) => {
                        if i < k {
                            assert(!pred(v[i]));
                        }
                    },
                    None => {},
                }
            }
            return Some(k);
        }
        k += 1;
    }
    None
}

pub open spec fn after_h(v: ViewerView) -> ViewerView {
    ViewerView { focus: ViewerFocus::Comments, ..chapter_moved(v, false) }
}

pub open spec fn after_l(v: ViewerView) -> ViewerView {
    ViewerView { focus: ViewerFocus::Comments, ..chapter_moved(v, true) }
}

pub open spec fn after_j(v: ViewerView) -> ViewerView {
    if v.focus == ViewerFocus::Chapters {
        chapter_moved(v, true)
    } else {
        moved_next(v)
    }
}

pub open spec fn after_k(v: ViewerView) -> ViewerView {
    if v.focus == ViewerFocus::Chapters {
        chapter_moved(v, false)
    } else {
        moved_previous(v)
    }
}

pub open spec fn after_ctrl_d(v: ViewerView) -> ViewerView {
    if v.focus == ViewerFocus::Chapters {
        if v.global {
            v
        } else {
            chapter_selected(
                v,
                min_int(v.selected_chapter + chapter_page(v), sat_sub(v.chapters.len() as int, 1)),
            )
        }
    } else {
        repeat_next(v, (content_height(v) / 2) as nat)
    }
}

pub open spec fn after_ctrl_u(v: ViewerView) -> ViewerView {
    if v.focus == ViewerFocus::Chapters {
        if v.global {
            v
        } else {
            chapter_selected(v, sat_sub(v.selected_chapter as int, chapter_page(v)))
        }
    } else {
        repeat_previous(v, (content_height(v) / 2) as nat)
    }
}

pub open spec fn after_gg(v: ViewerView) -> ViewerView {
    if v.focus == ViewerFocus::Chapters {
        chapter_selected(v, 0)
    } else if v.rendered.len() > 0 {
        ViewerView { selected: 0, scroll: 0, ..v }
    } else {
        v
    }
}

pub open spec fn after_upper_g(v: ViewerView) -> ViewerView {
    if v.focus == ViewerFocus::Chapters {
        if v.chapters.len() > 0 {
            chapter_selected(v, v.chapters.len() - 1)
        } else {
            v
        }
    } else if v.rendered.len() > 0 {
        scrolled_to_selected(ViewerView { selected: (v.rendered.len() - 1) as usize, ..v })
    } else {
        v
    }
}

impl CommentsViewer {
    pub fn handle_h(&mut self)
        ensures
            final(self)@ == after_h(old(self)@),
    {
        self.move_chapter_up();
        self.focus = ViewerFocus::Comments;
    }

    pub fn handle_l(&mut self)
        ensures
            final(self)@ == after_l(old(self)@),
    {
        self.move_chapter_down();
        self.focus = ViewerFocus::Comments;
    }

    pub fn handle_j(&mut self)
        ensures
            final(self)@ == after_j(old(self)@),
    {
        match self.focus {
            ViewerFocus::Chapters => self.move_chapter_down(),
            ViewerFocus::Comments => self.next(),
        }
    }

    pub fn handle_k(&mut self)
        ensures
            final(self)@ == after_k(old(self)@),
    {
        match self.focus {
            ViewerFocus::Chapters => self.move_chapter_up(),
            ViewerFocus::Comments => self.previous(),
        }
    }

    fn can_move_next(&self) -> (b: bool)
        ensures
            b == !(self@.rendered.len() == 0 || self@.selected >= self@.rendered.len() - 1),
    {
        self.rendered_entries.len() > 0 && self.selected_index < self.rendered_entries.len() - 1
    }

    /// Half a page down: the next chapters' page, or half the drawn height
    /// of entries.
    pub fn handle_ctrl_d(&mut self)
        ensures
            final(self)@ == after_ctrl_d(old(self)@),
    {
        match self.focus {
            ViewerFocus::Chapters => self.page_chapters_down(),
            ViewerFocus::Comments => {
                let half = self.comments_content_height() / 2;
                let ghost start = self@;
                let mut n: usize = 0;
                while n < half && self.can_move_next()
                    invariant
                        n <= half,
                        repeat_next(start, half as nat) == repeat_next(self@, (half - n) as nat),
                    decreases half - n,
                {
                    self.next();
                    n += 1;
                }
            },
        }
    }

    /// Half a page up.
    pub fn handle_ctrl_u(&mut self)
        ensures
            final(self)@ == after_ctrl_u(old(self)@),
    {
        match self.focus {
            ViewerFocus::Chapters => self.page_chapters_up(),
            ViewerFocus::Comments => {
                let half = self.comments_content_height() / 2;
                let ghost start = self@;
                let mut n: usize = 0;
                while n < half && self.selected_index != 0
                    invariant
                        n <= half,
                        repeat_previous(start, half as nat) == repeat_previous(self@, (half - n) as nat),
                    decreases half - n,
                {
                    self.previous();
                    n += 1;
                }
            },
        }
    }

    pub fn handle_gg(&mut self)
        ensures
            final(self)@ == after_gg(old(self)@),
    {
        match self.focus {
            ViewerFocus::Chapters => self.select_chapter(0),
            ViewerFocus::Comments => {
                if self.rendered_entries.len() > 0 {
                    self.selected_index = 0;
                    self.scroll_offset = 0;
                }
            },
        }
    }

    pub fn handle_upper_g(&mut self)
        ensures
            final(self)@ == after_upper_g(old(self)@),
    {
        match self.focus {
            ViewerFocus::Chapters => {
                if self.chapters.len() > 0 {
                    self.select_chapter(self.chapters.len() - 1);
                }
            },
            ViewerFocus::Comments => {
                if self.rendered_entries.len() > 0 {
                    self.selected_index = self.rendered_entries.len() - 1;
                    self.scroll_to_selected();
                }
            },
        }
    }

    /// Handles a key: `j`/`k`/`h`/`l`, Tab, `gg`, `G`, Ctrl+`d`/Ctrl+`u`
    /// move; `?` switches to all comments; `dd` asks to delete the selected
    /// entry; Esc closes unless a search is shown; Enter jumps to the selected
    /// entry. Every other key, `/`, `n` and `N` among them, changes nothing
    /// and asks for nothing: this viewer has no search of its own.
    pub fn handle_key(&mut self, key: KeyPress, completes_gg: bool, completes_dd: bool, search_active: bool) -> (r:
        Option<CommentsViewerAction>)
        ensures
            is_char(key, 'j') ==> final(self)@ == after_j(old(self)@) && r is None,
            is_char(key, 'k') ==> final(self)@ == after_k(old(self)@) && r is None,
            key.key == Key::Tab ==> final(self)@ == (ViewerView {
                focus: if old(self)@.focus == ViewerFocus::Chapters {
                    ViewerFocus::Comments
                } else {
                    ViewerFocus::Chapters
                },
                ..old(self)@
            }) && r is None,
            is_char(key, 'h') ==> final(self)@ == after_h(old(self)@) && r is None,
            is_char(key, 'l') ==> final(self)@ == after_l(old(self)@) && r is None,
            is_char(key, 'g') && completes_gg ==> final(self)@ == after_gg(old(self)@) && r is None,
            is_char(key, 'G') ==> final(self)@ == after_upper_g(old(self)@) && r is None,
            is_char(key, 'd') && key.ctrl ==> final(self)@ == after_ctrl_d(old(self)@) && r is None,
            is_char(key, 'u') && key.ctrl ==> final(self)@ == after_ctrl_u(old(self)@) && r is None,
            is_char(key, '?') ==> final(self)@ == global_toggled(old(self)@) && r is None,
            is_char(key, 'd') && !key.ctrl ==> final(self)@ == old(self)@ && (r is Some <==> completes_dd)
                && (completes_dd ==> r matches Some(CommentsViewerAction::DeleteSelectedComment)),
            key.key == Key::Esc ==> final(self)@ == old(self)@ && (r is Some <==> !search_active) && (
            !search_active ==> r matches Some(CommentsViewerAction::Close)),
            key.key == Key::Enter ==> final(self)@ == old(self)@ && (r is Some <==> (old(self)@.selected
                < old(self)@.rendered.len() && old(self)@.rendered[old(self)@.selected as int].comments.len()
                > 0)),
            key.key == Key::Enter ==> (r matches Some(
                CommentsViewerAction::JumpToComment { chapter_href, target },
            ) ==> chapter_href@ == old(self)@.rendered[old(self)@.selected as int].chapter_href && target
                == old(self)@.rendered[old(self)@.selected as int].comments[0].target),
            !viewer_key(key, completes_gg) ==> final(self)@ == old(self)@ && r is None,
    {
        if key.key == Key::Char('j') {
            self.handle_j();
            None
        } else if key.key == Key::Char('k') {
            self.handle_k();
            None
        } else if key.key == Key::Tab {
            self.toggle_focus();
            None
        } else if key.key == Key::Char('h') {
            self.handle_h();
            None
        } else if key.key == Key::Char('l') {
            self.handle_l();
            None
        } else if key.key == Key::Char('g') && completes_gg {
            self.handle_gg();
            None
        } else if key.key == Key::Char('G') {
            self.handle_upper_g();
            None
        } else if key.key == Key::Char('d') && key.ctrl {
            self.handle_ctrl_d();
            None
        } else if key.key == Key::Char('u') && key.ctrl {
            self.handle_ctrl_u();
            None
        } else if key.key == Key::Char('?') {
            self.toggle_global_search_mode();
            None
        } else if key.key == Key::Char('d') {
            if completes_dd {
                Some(CommentsViewerAction::DeleteSelectedComment)
            } else {
                None
            }
        } else if key.key == Key::Esc {
            if search_active {
                None
            } else {
                Some(CommentsViewerAction::Close)
            }
        } else if key.key == Key::Enter {
            if self.selected_index < self.rendered_entries.len() {
                let e = &self.rendered_entries[self.selected_index];
                if e.comments.len() > 0 {
                    Some(
                        CommentsViewerAction::JumpToComment {
                            chapter_href: e.chapter_href.clone(),
                            target: e.comments[0].target,
                        },
                    )
                } else {
                    None
                }
            } else {
                None
            }
        } else {
            None
        }
    }
}

/// Whether the viewer acts on a key: a movement, `?`, `d`, Esc or Enter.
pub open spec fn viewer_key(key: KeyPress, completes_gg: bool) -> bool {
    ||| is_char(key, 'j')
    ||| is_char(key, 'k')
    ||| key.key == Key::Tab
    ||| is_char(key, 'h')
    ||| is_char(key, 'l')
    ||| (is_char(key, 'g') && completes_gg)
    ||| is_char(key, 'G')
    ||| (is_char(key, 'u') && key.ctrl)
    ||| is_char(key, '?')
    ||| is_char(key, 'd')
    ||| key.key == Key::Esc
    ||| key.key == Key::Enter
}

proof fn lemma_position_of_with(positions: Seq<(Seq<char>, (usize, usize))>, key: Seq<char>, p: (usize, usize), other: Seq<char>)
    ensures
        position_of(with_position(positions, key, p), key) == Some(p),
        other != key ==> position_of(with_position(positions, key, p), other) == position_of(positions, other),
    decreases positions.len(),
{
    let w = with_position(positions, key, p);
    if positions.len() > 0 && positions[0].0 != key {
        lemma_position_of_with(positions.drop_first(), key, p, other);
        assert(w[0] == positions[0]);
        assert(w.drop_first() =~= with_position(positions.drop_first(), key, p));
        if other != key {
            if positions[0].0 == other {
                assert(position_of(w, other) == Some(w[0].1));
            } else {
                assert(position_of(w, other) == position_of(w.drop_first(), other));
            }
        }
    } else if positions.len() > 0 {
        assert(w[0] == (key, p));
        assert(w.drop_first() =~= positions.drop_first());
        if other != key {
            assert(position_of(w, other) == position_of(w.drop_first(), other));
        }
    } else {
        assert(w[0] == (key, p));
        assert(w.drop_first() =~= Seq::<(Seq<char>, (usize, usize))>::empty());
        if other != key {
            assert(position_of(w, other) == position_of(w.drop_first(), other));
        }
    }
}

/// Saving keeps the current position where restoring looks it up: for a
/// chapter under its reference (other chapters keep theirs), for all
/// comments as the all-comments position, else as the last position.
pub proof fn law_saved_position_is_found(v: ViewerView, other: Seq<char>)
    ensures
        ({
            let s = saved(v);
            let p = (v.scroll, v.selected);
            &&& v.global ==> s.global_position == Some(p)
            &&& !v.global && current_key(v) is Some ==> position_of(s.positions, current_key(v)->0)
                == Some(p) && (other != current_key(v)->0 ==> position_of(s.positions, other)
                == position_of(v.positions, other))
            &&& !v.global && current_key(v) is None ==> s.last_position == Some(p)
            &&& s.rendered == v.rendered && s.selected == v.selected && s.scroll == v.scroll
        }),
{
    if !v.global && current_key(v) is Some {
        lemma_position_of_with(v.positions, current_key(v)->0, (v.scroll, v.selected), other);
    }
}

/// Restoring puts the selection on an entry, or at the top when there is
/// none, and keeps the scroll within the laid-out lines.
pub proof fn law_restore_keeps_selection_in_range(v: ViewerView)
    requires
        viewer_wf(v),
    ensures
        viewer_wf(restored(v)),
        restored(v).scroll <= v.scroll || restored(v).scroll <= sat_sub(v.total_lines as int, 1),
{
}

/// Every move keeps the selection on an entry.
pub proof fn law_moves_keep_selection_in_range(v: ViewerView, x: u16, y: u16)
    requires
        viewer_wf(v),
    ensures
        viewer_wf(moved_next(v)),
        viewer_wf(moved_previous(v)),
        viewer_wf(with_visible_entries(v)),
        viewer_wf(entry_removed(v)),
        viewer_wf(clicked(v, x, y)) || clicked(v, x, y) == chapter_selected(
            ViewerView { focus: ViewerFocus::Chapters, ..v },
            v.chapter_scroll + (y - v.chapter_area->0.y),
        ),
{
    lemma_entry_at_line(v.rendered, v.scroll + (y - v.comments_area->0.y));
}

proof fn lemma_entry_at_line(entries: Seq<EntryView>, line: int)
    ensures
        entry_at_line(entries, line) matches Some(i) ==> 0 <= i < entries.len(),
    decreases entries.len(),
{
    if entries.len() > 0 {
        lemma_entry_at_line(entries.drop_first(), line);
    }
}

} // verus!
