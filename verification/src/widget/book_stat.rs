//! Chapter statistics: how many screens each chapter takes, and the popup
//! that lists them.
use vstd::prelude::*;
use crate::text::{chars_of, text_eq};
use crate::widget::common::{PopupArea, Key, KeyPress, TocEntry, outside_area, is_outside, is_char};

verus! {

/// Index of the first newline, or -1.
pub open spec fn first_newline(s: Seq<char>) -> int
    decreases s.len(),
{
    if s.len() == 0 {
        -1
    } else if s[0] == '\n' {
        0
    } else {
        let r = first_newline(s.drop_first());
        if r < 0 {
            -1
        } else {
            r + 1
        }
    }
}

pub proof fn lemma_first_newline(s: Seq<char>)
    ensures
        -1 <= first_newline(s) < s.len(),
        first_newline(s) >= 0 ==> s[first_newline(s)] == '\n',
        forall|k: int|
            0 <= k < (if first_newline(s) < 0 { s.len() as int } else { first_newline(s) })
                ==> #[trigger] s[k] != '\n',
    decreases s.len(),
{
    if s.len() > 0 && s[0] != '\n' {
        lemma_first_newline(s.drop_first());
        assert forall|k: int| 0 < k < s.len() implies s[k] == s.drop_first()[k - 1] by {}
    }
}

/// The text's lines as `str::lines` gives them: split at each newline, a
/// carriage return before a newline dropped, no line after a final newline.
pub open spec fn text_lines(s: Seq<char>) -> Seq<Seq<char>>
    decreases s.len(),
{
    if s.len() == 0 {
        Seq::empty()
    } else {
        proof {
            lemma_first_newline(s);
        }
        let i = first_newline(s);
        if i < 0 {
            seq![s]
        } else {
            let l = s.take(i);
            let line = if l.len() > 0 && l.last() == '\r' {
                l.drop_last()
            } else {
                l
            };
            seq![line] + text_lines(s.skip(i + 1))
        }
    }
}

/// `n / d` rounded up.
pub open spec fn div_ceil(n: nat, d: nat) -> nat {
    if n % d != 0 {
        n / d + 1
    } else {
        n / d
    }
}

/// Rows a line takes when wrapped at `width` characters (at least one).
pub open spec fn line_rows(line: Seq<char>, width: nat) -> nat {
    if line.len() == 0 {
        1
    } else {
        div_ceil(line.len(), width)
    }
}

pub open spec fn total_rows(lines: Seq<Seq<char>>, width: nat) -> nat
    decreases lines.len(),
{
    if lines.len() == 0 {
        0
    } else {
        line_rows(lines[0], width) + total_rows(lines.drop_first(), width)
    }
}

/// Screens the text fills, `lines_per_screen` rows of `width` characters each.
pub open spec fn screens_of(text: Seq<char>, width: nat, lines_per_screen: nat) -> nat {
    if lines_per_screen == 0 || width == 0 {
        0
    } else {
        div_ceil(total_rows(text_lines(text), width), lines_per_screen)
    }
}

proof fn lemma_div_ceil_le(n: nat, d: nat)
    requires
        d >= 1,
        n >= 1,
    ensures
        div_ceil(n, d) <= n,
{
    vstd::arithmetic::div_mod::lemma_fundamental_div_mod(n as int, d as int);
    vstd::arithmetic::div_mod::lemma_mod_bound(n as int, d as int);
    let q = n / d;
    let r = n % d;
    assert(n == d * q + r);
    assert(q <= d * q) by (nonlinear_arith)
        requires
            d >= 1,
            q >= 0,
    ;
}

pub proof fn lemma_first_newline_at(s: Seq<char>, m: int)
    requires
        0 <= m <= s.len(),
        forall|k: int| 0 <= k < m ==> #[trigger] s[k] != '\n',
        m < s.len() ==> s[m] == '\n',
    ensures
        first_newline(s) == if m < s.len() { m } else { -1 },
    decreases s.len(),
{
    if s.len() > 0 && m > 0 {
        assert forall|k: int| 0 <= k < m - 1 implies #[trigger] s.drop_first()[k] != '\n' by {
            assert(s.drop_first()[k] == s[k + 1]);
        }
        lemma_first_newline_at(s.drop_first(), m - 1);
    }
}

/// Number of screens needed to show the text at the given width.
pub fn calculate_screens(text: &str, width: usize, lines_per_screen: usize) -> (n: usize)
    ensures
        n == screens_of(text@, width as nat, lines_per_screen as nat),
{
    if lines_per_screen == 0 || width == 0 {
        return 0;
    }
    let chars = chars_of(text);
    let n = chars.len();
    let ghost s = chars@;
    let mut pos: usize = 0;
    let mut total: usize = 0;
    proof {
        assert(s.skip(0) =~= s);
    }
    while pos < n
        invariant
            n == s.len(),
            s == chars@,
            s == text@,
            width >= 1,
            pos <= n,
            total <= pos,
            total_rows(text_lines(s), width as nat) == total + total_rows(
                text_lines(s.skip(pos as int)),
                width as nat,
            ),
        decreases n - pos,
    {
        let mut j = pos;
        while j < n && chars[j] != '\n'
            invariant
                n == chars@.len(),
                pos <= j <= n,
                forall|k: int| pos <= k < j ==> #[trigger] chars@[k] != '\n',
            decreases n - j,
        {
            j += 1;
        }
        let len: usize = if j < n && j > pos && chars[j - 1] == '\r' {
            j - pos - 1
        } else {
            j - pos
        };
        proof {
            if len > 0 {
                lemma_div_ceil_le(len as nat, width as nat);
            }
        }
        let rows: usize = if len == 0 {
            1
        } else if len % width != 0 {
            len / width + 1
        } else {
            len / width
        };
        proof {
            let t = s.skip(pos as int);
            assert forall|k: int| 0 <= k < j - pos implies #[trigger] t[k] != '\n' by {
                assert(t[k] == s[pos + k]);
            }
            if j < n {
                assert(t[j - pos] == s[j as int]);
            }
            lemma_first_newline_at(t, j - pos);
            if len > 0 {
                lemma_div_ceil_le(len as nat, width as nat);
            }
            let line = if j < n {
                let l = t.take(j - pos);
                if l.len() > 0 && l.last() == '\r' {
                    l.drop_last()
                } else {
                    l
                }
            } else {
                t
            };
            assert(line.len() == len);
            assert(line_rows(line, width as nat) == rows);
            if j < n {
                assert(t.skip(j - pos + 1) =~= s.skip(j + 1));
                assert(text_lines(t) == seq![line] + text_lines(s.skip(j + 1)));
                assert((seq![line] + text_lines(s.skip(j + 1))).drop_first() =~= text_lines(
                    s.skip(j + 1),
                ));
            } else {
                assert(text_lines(t) == seq![line]);
                assert(seq![line].drop_first() =~= Seq::<Seq<char>>::empty());
                assert(s.skip(n as int) =~= Seq::<char>::empty());
            }
        }
        total = total + rows;
        pos = if j < n {
            j + 1
        } else {
            n
        };
    }
    proof {
        assert(s.skip(pos as int) =~= Seq::<char>::empty());
        if total > 0 {
            lemma_div_ceil_le(total as nat, lines_per_screen as nat);
        }
    }
    if total % lines_per_screen != 0 {
        total / lines_per_screen + 1
    } else {
        total / lines_per_screen
    }
}

/// A text has no more lines than characters.
pub proof fn lemma_text_lines_len(s: Seq<char>)
    ensures
        text_lines(s).len() <= s.len(),
    decreases s.len(),
{
    if s.len() > 0 {
        lemma_first_newline(s);
        let i = first_newline(s);
        if i >= 0 {
            lemma_text_lines_len(s.skip(i + 1));
        }
    }
}

/// The number of lines of the text (`str::lines().count()`).
pub fn count_lines(text: &str) -> (n: usize)
    ensures
        n == text_lines(text@).len(),
{
    let chars = chars_of(text);
    let n = chars.len();
    let ghost s = chars@;
    let mut pos: usize = 0;
    let mut total: usize = 0;
    proof {
        assert(s.skip(0) =~= s);
    }
    while pos < n
        invariant
            n == s.len(),
            s == chars@,
            s == text@,
            pos <= n,
            total <= pos,
            text_lines(s).len() == total + text_lines(s.skip(pos as int)).len(),
        decreases n - pos,
    {
        let mut j = pos;
        while j < n && chars[j] != '\n'
            invariant
                n == chars@.len(),
                pos <= j <= n,
                forall|k: int| pos <= k < j ==> #[trigger] chars@[k] != '\n',
            decreases n - j,
        {
            j += 1;
        }
        proof {
            let t = s.skip(pos as int);
            assert forall|k: int| 0 <= k < j - pos implies #[trigger] t[k] != '\n' by {
                assert(t[k] == s[pos + k]);
            }
            if j < n {
                assert(t[j - pos] == s[j as int]);
            }
            lemma_first_newline_at(t, j - pos);
            if j < n {
                assert(t.skip(j - pos + 1) =~= s.skip(j + 1));
            } else {
                assert(s.skip(n as int) =~= Seq::<char>::empty());
            }
        }
        total = total + 1;
        pos = if j < n {
            j + 1
        } else {
            n
        };
    }
    proof {
        assert(s.skip(pos as int) =~= Seq::<char>::empty());
    }
    total
}

/// Screens of one chapter of the book.
pub struct ChapterStat {
    pub title: String,
    pub screens: usize,
    /// The chapter's index in the book's spine.
    pub chapter_index: usize,
    /// Whether this is a top-level chapter or a nested section.
    pub is_top_level: bool,
}

pub struct StatView {
    pub title: Seq<char>,
    pub screens: nat,
    pub chapter_index: nat,
    pub is_top_level: bool,
}

impl View for ChapterStat {
    type V = StatView;

    open spec fn view(&self) -> StatView {
        StatView {
            title: self.title@,
            screens: self.screens as nat,
            chapter_index: self.chapter_index as nat,
            is_top_level: self.is_top_level,
        }
    }
}

pub open spec fn stats_view(s: Seq<ChapterStat>) -> Seq<StatView> {
    s.map_values(|c: ChapterStat| c@)
}

/// Index of the last top-level chapter, or -1.
pub open spec fn last_top_level(s: Seq<StatView>) -> int
    decreases s.len(),
{
    if s.len() == 0 {
        -1
    } else if s.last().is_top_level {
        s.len() - 1
    } else {
        last_top_level(s.drop_last())
    }
}

pub proof fn lemma_last_top_level(s: Seq<StatView>)
    ensures
        -1 <= last_top_level(s) < s.len(),
        last_top_level(s) >= 0 ==> s[last_top_level(s)].is_top_level,
        forall|k: int| last_top_level(s) < k < s.len() ==> !(#[trigger] s[k]).is_top_level,
    decreases s.len(),
{
    if s.len() > 0 && !s.last().is_top_level {
        lemma_last_top_level(s.drop_last());
        assert forall|k: int| 0 <= k < s.len() - 1 implies s[k] == s.drop_last()[k] by {}
    }
}

/// The statistics after a chapter of `screens` screens: a top-level chapter
/// gets a line of its own, a nested section adds its screens to the last
/// top-level chapter (and is dropped when there is none).
pub open spec fn with_chapter(
    s: Seq<StatView>,
    title: Seq<char>,
    screens: nat,
    chapter_index: nat,
    is_top_level: bool,
) -> Seq<StatView> {
    if is_top_level {
        s.push(StatView { title, screens, chapter_index, is_top_level })
    } else if last_top_level(s) >= 0 {
        let i = last_top_level(s);
        s.update(i, StatView { screens: s[i].screens + screens, ..s[i] })
    } else {
        s
    }
}

pub enum BookStatAction {
    JumpToChapter { chapter_index: usize },
    Close,
}

/// A document to count: its title, its reference, and whether it is a
/// top-level heading.
pub struct TocDocument {
    pub title: String,
    pub href: String,
    pub is_top_level: bool,
}

pub struct DocView {
    pub title: Seq<char>,
    pub href: Seq<char>,
    pub is_top_level: bool,
}

impl View for TocDocument {
    type V = DocView;

    open spec fn view(&self) -> DocView {
        DocView { title: self.title@, href: self.href@, is_top_level: self.is_top_level }
    }
}

pub open spec fn docs_view(s: Seq<TocDocument>) -> Seq<DocView> {
    s.map_values(|d: TocDocument| d@)
}

/// The documents the headings lead to, in order: a chapter or a section with
/// a reference gives its document; a section without one gives the documents
/// of its nested headings, which are no longer top-level.
pub open spec fn toc_documents(items: Seq<TocEntry>, is_top_level: bool) -> Seq<DocView>
    decreases items, 0int,
{
    if items.len() == 0 {
        Seq::empty()
    } else {
        toc_documents(items.drop_last(), is_top_level) + entry_documents(
            items.last(),
            is_top_level,
        )
    }
}

pub open spec fn entry_documents(item: TocEntry, is_top_level: bool) -> Seq<DocView>
    decreases item, 1int,
{
    match item {
        TocEntry::Chapter { title, href } => seq![
            DocView { title: title@, href: href@, is_top_level },
        ],
        TocEntry::Section { title, href, children } => match href {
            Some(h) => seq![DocView { title: title@, href: h@, is_top_level }],
            None => toc_documents(children@, false),
        },
    }
}

/// Appends the documents the headings lead to.
pub fn collect_documents(items: &Vec<TocEntry>, is_top_level: bool, out: &mut Vec<TocDocument>)
    ensures
        docs_view(final(out)@) == docs_view(old(out)@) + toc_documents(items@, is_top_level),
    decreases items,
{
    let ghost start = docs_view(out@);
    let mut k: usize = 0;
    proof {
        assert(items@.take(0) =~= Seq::<TocEntry>::empty());
        assert(docs_view(out@) =~= start + Seq::<DocView>::empty());
    }
    while k < items.len()
        invariant
            k <= items@.len(),
            docs_view(out@) == start + toc_documents(items@.take(k as int), is_top_level),
        decreases items@.len() - k,
    {
        let ghost before = docs_view(out@);
        proof {
            assert(items@.take(k + 1).drop_last() =~= items@.take(k as int));
            assert(items@.take(k + 1).last() == items@[k as int]);
        }
        match &items[k] {
            TocEntry::Chapter { title, href } => {
                let ghost prev = out@;
                out.push(TocDocument { title: title.clone(), href: href.clone(), is_top_level });
                proof {
                    assert(docs_view(out@) =~= docs_view(prev).push(out@.last()@));
                    assert(entry_documents(items@[k as int], is_top_level) =~= seq![out@.last()@]);
                    assert(docs_view(out@) =~= start + toc_documents(items@.take(k + 1), is_top_level));
                }
            },
            TocEntry::Section { title, href, children } => match href {
                Some(h) => {
                    let ghost prev = out@;
                    out.push(TocDocument { title: title.clone(), href: h.clone(), is_top_level });
                    proof {
                        assert(docs_view(out@) =~= docs_view(prev).push(out@.last()@));
                        assert(entry_documents(items@[k as int], is_top_level) =~= seq![
                            out@.last()@,
                        ]);
                        assert(docs_view(out@) =~= start + toc_documents(
                            items@.take(k + 1),
                            is_top_level,
                        ));
                    }
                },
                None => {
                    proof {
                        assert(decreases_to!(items => items@));
                        assert(decreases_to!(items@ => items@[k as int]));
                        assert(entry_documents(items@[k as int], is_top_level) == toc_documents(
                            children@,
                            false,
                        ));
                    }
                    collect_documents(children, false, out);
                    proof {
                        assert(docs_view(out@) =~= start + toc_documents(
                            items@.take(k + 1),
                            is_top_level,
                        ));
                    }
                },
            },
        }
        k += 1;
    }
    proof {
        assert(items@.take(k as int) =~= items@);
    }
}

/// The documents of a table of contents, in reading order.
pub fn toc_documents_of(items: &Vec<TocEntry>) -> (r: Vec<TocDocument>)
    ensures
        docs_view(r@) == toc_documents(items@, true),
{
    let mut out: Vec<TocDocument> = Vec::new();
    proof {
        assert(docs_view(out@) =~= Seq::<DocView>::empty());
    }
    collect_documents(items, true, &mut out);
    proof {
        assert(Seq::<DocView>::empty() + toc_documents(items@, true) =~= toc_documents(items@, true));
    }
    out
}

pub open spec fn ends_with(a: Seq<char>, b: Seq<char>) -> bool {
    b.len() <= a.len() && a.skip(a.len() - b.len()) == b
}

fn ends_with_exec(a: &str, b: &str) -> (r: bool)
    ensures
        r == ends_with(a@, b@),
{
    let x = chars_of(a);
    let y = chars_of(b);
    if y.len() > x.len() {
        return false;
    }
    let off = x.len() - y.len();
    proof {
        assert(x@.skip(off as int) =~= x@.subrange(off as int, off + y@.len()));
    }
    crate::text::occurs_at_exec(x.as_slice(), y.as_slice(), off)
}

/// The spine document of a reference: the first one whose path ends with the
/// reference or that the reference ends with. A spine entry without a
/// resource has no path.
pub open spec fn spine_match(paths: Seq<Option<Seq<char>>>, href: Seq<char>) -> Option<int>
    decreases paths.len(),
{
    if paths.len() == 0 {
        None
    } else if (paths[0] matches Some(p) && (ends_with(p, href) || ends_with(href, p))) {
        Some(0)
    } else {
        match spine_match(paths.drop_first(), href) {
            Some(i) => Some(i + 1),
            None => None,
        }
    }
}

pub open spec fn opt_paths(paths: Seq<Option<String>>) -> Seq<Option<Seq<char>>> {
    paths.map_values(
        |p: Option<String>|
            match p {
                Some(s) => Some(s@),
                None => None,
            },
    )
}

/// Index in the spine of the document a reference leads to.
pub fn find_spine_index(spine_paths: &Vec<Option<String>>, href: &str) -> (r: Option<usize>)
    ensures
        match spine_match(opt_paths(spine_paths@), href@) {
            Some(i) => r matches Some(k) && k as int == i,
            None => r is None,
        },
{
    let ghost v = opt_paths(spine_paths@);
    let mut k: usize = 0;
    proof {
        assert(v.skip(0) =~= v);
    }
    while k < spine_paths.len()
        invariant
            v == opt_paths(spine_paths@),
            k <= spine_paths@.len(),
            spine_match(v, href@) == match spine_match(v.skip(k as int), href@) {
                Some(i) => Some(i + k),
                None => None::<int>,
            },
        decreases spine_paths@.len() - k,
    {
        proof {
            assert(v.skip(k as int).drop_first() =~= v.skip(k + 1));
            assert(v.skip(k as int)[0] == v[k as int]);
        }
        let hit = match &spine_paths[k] {
            Some(p) => ends_with_exec(p.as_str(), href) || ends_with_exec(href, p.as_str()),
            None => false,
        };
        if hit {
            return Some(k);
        }
        k += 1;
    }
    proof {
        assert(v.skip(k as int).len() == 0);
    }
    None
}

/// The resource a reference names when the spine has none: the first whose
/// path is the reference or ends with it.
pub open spec fn resource_match(paths: Seq<Seq<char>>, href: Seq<char>) -> Option<int>
    decreases paths.len(),
{
    if paths.len() == 0 {
        None
    } else if paths[0] == href || ends_with(paths[0], href) {
        Some(0)
    } else {
        match resource_match(paths.drop_first(), href) {
            Some(i) => Some(i + 1),
            None => None,
        }
    }
}

/// Index of the resource, among `paths`, that a reference names.
pub fn find_resource_by_path(paths: &Vec<String>, href: &str) -> (r: Option<usize>)
    ensures
        match resource_match(paths@.map_values(|p: String| p@), href@) {
            Some(i) => r matches Some(k) && k as int == i,
            None => r is None,
        },
{
    let ghost v = paths@.map_values(|p: String| p@);
    let mut k: usize = 0;
    proof {
        assert(v.skip(0) =~= v);
    }
    while k < paths.len()
        invariant
            v == paths@.map_values(|p: String| p@),
            k <= paths@.len(),
            resource_match(v, href@) == match resource_match(v.skip(k as int), href@) {
                Some(i) => Some(i + k),
                None => None::<int>,
            },
        decreases paths@.len() - k,
    {
        proof {
            assert(v.skip(k as int).drop_first() =~= v.skip(k + 1));
            assert(v.skip(k as int)[0] == v[k as int]);
        }
        if text_eq(paths[k].as_str(), href) || ends_with_exec(paths[k].as_str(), href) {
            return Some(k);
        }
        k += 1;
    }
    proof {
        assert(v.skip(k as int).len() == 0);
    }
    None
}

/// The chapter statistics popup.
pub struct BookStat {
    chapter_stats: Vec<ChapterStat>,
    selected: Option<usize>,
    offset: usize,
    visible: bool,
    terminal_size: (u16, u16),
    last_popup_area: Option<PopupArea>,
}

/// The line under a click inside the list (between the top border and the
/// help line), if it shows a chapter.
pub open spec fn clicked_stat(area: Option<PopupArea>, offset: nat, len: nat, x: u16, y: u16) -> Option<
    nat,
> {
    match area {
        Some(a) => if x >= a.x && x < a.x + a.width && y > a.y && y < a.y + (if a.height >= 2 {
            a.height - 2
        } else {
            0
        }) {
            let rel = y - a.y - 1;
            if offset + rel < len {
                Some((offset + rel) as nat)
            } else {
                None
            }
        } else {
            None
        },
        None => None,
    }
}

pub open spec fn sel_or_top(sel: Option<usize>) -> nat {
    match sel {
        Some(i) => i as nat,
        None => 0,
    }
}

pub open spec fn last_line(len: nat) -> nat {
    if len == 0 {
        0
    } else {
        (len - 1) as nat
    }
}

pub open spec fn min_nat(a: int, b: int) -> nat {
    if a < b {
        a as nat
    } else {
        b as nat
    }
}

/// The sum of the screens of the statistics.
pub open spec fn total_screens(s: Seq<StatView>) -> nat
    decreases s.len(),
{
    if s.len() == 0 {
        0
    } else {
        total_screens(s.drop_last()) + s.last().screens
    }
}

/// Share of the book, in whole percent, read before chapter `k`.
pub open spec fn percent_before(s: Seq<StatView>, k: int) -> nat {
    if total_screens(s) > 0 {
        (total_screens(s.take(k)) * 100) / total_screens(s)
    } else {
        0
    }
}

impl BookStat {
    pub closed spec fn stats(self) -> Seq<StatView> {
        stats_view(self.chapter_stats@)
    }

    pub closed spec fn selection(self) -> Option<usize> {
        self.selected
    }

    pub closed spec fn shown(self) -> bool {
        self.visible
    }

    pub closed spec fn list_offset(self) -> nat {
        self.offset as nat
    }

    pub closed spec fn area(self) -> Option<PopupArea> {
        self.last_popup_area
    }

    pub closed spec fn size(self) -> (u16, u16) {
        self.terminal_size
    }

    pub fn new() -> (r: Self)
        ensures
            r.stats() == Seq::<StatView>::empty(),
            r.selection() is None,
            !r.shown(),
            r.list_offset() == 0,
            r.area() is None,
            r.size() == (80u16, 24u16),
    {
        let r = BookStat {
            chapter_stats: Vec::new(),
            selected: None,
            offset: 0,
            visible: false,
            terminal_size: (80, 24),
            last_popup_area: None,
        };
        proof {
            assert(r.stats() =~= Seq::<StatView>::empty());
        }
        r
    }

    /// Starts counting for a terminal of the given size: forgets the counted
    /// chapters and gives the text width and the lines per screen to count
    /// with (the popup's inside, less borders and padding).
    pub fn begin_stats(&mut self, terminal_size: (u16, u16)) -> (r: (usize, usize))
        ensures
            final(self).stats() == Seq::<StatView>::empty(),
            final(self).size() == terminal_size,
            final(self).selection() == old(self).selection(),
            final(self).shown() == old(self).shown(),
            final(self).area() == old(self).area(),
            r.0 == (if terminal_size.0 >= 6 { terminal_size.0 - 6 } else { 0 }),
            r.1 == (if terminal_size.1 >= 8 { terminal_size.1 - 8 } else { 0 }),
    {
        self.terminal_size = terminal_size;
        self.chapter_stats = Vec::new();
        proof {
            assert(self.stats() =~= Seq::<StatView>::empty());
        }
        let popup_height = terminal_size.1.saturating_sub(4) as usize;
        let text_width = terminal_size.0.saturating_sub(6) as usize;
        let lines_per_screen = popup_height.saturating_sub(4);
        (text_width, lines_per_screen)
    }

    /// Counts one chapter, given its text as the reader shows it.
    pub fn add_chapter_stat(
        &mut self,
        title: &str,
        rendered_text: &str,
        text_width: usize,
        lines_per_screen: usize,
        chapter_index: usize,
        is_top_level: bool,
    )
        requires
            !is_top_level && last_top_level(old(self).stats()) >= 0 ==> old(self).stats()[last_top_level(
                old(self).stats(),
            )].screens + screens_of(rendered_text@, text_width as nat, lines_per_screen as nat)
                <= usize::MAX,
        ensures
            final(self).stats() == with_chapter(
                old(self).stats(),
                title@,
                screens_of(rendered_text@, text_width as nat, lines_per_screen as nat),
                chapter_index as nat,
                is_top_level,
            ),
            final(self).selection() == old(self).selection(),
            final(self).shown() == old(self).shown(),
            final(self).area() == old(self).area(),
            final(self).size() == old(self).size(),
    {
        let screens = calculate_screens(rendered_text, text_width, lines_per_screen);
        let ghost s = self.stats();
        if is_top_level {
            let ghost prev = self.chapter_stats@;
            self.chapter_stats.push(
                ChapterStat { title: crate::text::to_string(title), screens, chapter_index, is_top_level },
            );
            proof {
                assert(stats_view(self.chapter_stats@) =~= stats_view(prev).push(
                    self.chapter_stats@.last()@,
                ));
            }
        } else {
            proof {
                lemma_last_top_level(s);
            }
            let mut k = self.chapter_stats.len();
            while k > 0 && !self.chapter_stats[k - 1].is_top_level
                invariant
                    s == stats_view(self.chapter_stats@),
                    k <= self.chapter_stats@.len(),
                    forall|j: int| k <= j < s.len() ==> !(#[trigger] s[j]).is_top_level,
                decreases k,
            {
                k -= 1;
            }
            proof {
                let i = last_top_level(s);
                if k > 0 {
                    assert(s[k - 1].is_top_level);
                    if i > k - 1 {
                        assert(!s[i].is_top_level);
                    }
                    if i < k - 1 {
                        assert(!s[k - 1].is_top_level);
                    }
                } else if i >= 0 {
                    assert(!s[i].is_top_level);
                }
            }
            if k > 0 {
                let i = k - 1;
                let ghost old_stats = self.chapter_stats@;
                let new_screens = self.chapter_stats[i].screens + screens;
                self.chapter_stats[i].screens = new_screens;
                proof {
                    assert(stats_view(self.chapter_stats@) =~= s.update(
                        i as int,
                        StatView { screens: s[i as int].screens + screens as nat, ..s[i as int] },
                    ));
                }
            }
        }
    }

    /// Ends counting: the first chapter is selected when there is one.
    pub fn finish_stats(&mut self)
        ensures
            final(self).stats() == old(self).stats(),
            final(self).selection() == if old(self).stats().len() > 0 {
                Some(0usize)
            } else {
                old(self).selection()
            },
            final(self).shown() == old(self).shown(),
            final(self).area() == old(self).area(),
    {
        if self.chapter_stats.len() > 0 {
            self.selected = Some(0);
        }
    }

    pub fn show(&mut self)
        ensures
            final(self).shown(),
            final(self).stats() == old(self).stats(),
            final(self).selection() == old(self).selection(),
    {
        self.visible = true;
    }

    pub fn hide_popup(&mut self)
        ensures
            !final(self).shown(),
            final(self).stats() == old(self).stats(),
            final(self).selection() == old(self).selection(),
    {
        self.visible = false;
    }

    /// The chapters counted so far.
    pub fn chapter_stats(&self) -> (r: &Vec<ChapterStat>)
        ensures
            stats_view(r@) == self.stats(),
    {
        &self.chapter_stats
    }

    /// The selected line of the list.
    pub fn selected_line(&self) -> (r: Option<usize>)
        ensures
            r == self.selection(),
    {
        self.selected
    }

    /// The first line the list showed.
    pub fn offset(&self) -> (r: usize)
        ensures
            r == self.list_offset(),
    {
        self.offset
    }

    pub fn is_visible(&self) -> (b: bool)
        ensures
            b == self.shown(),
    {
        self.visible
    }

    /// The spine index of the selected chapter, if a chapter is selected.
    pub fn get_selected_chapter_index(&self) -> (r: Option<usize>)
        ensures
            r == match self.selection() {
                Some(i) => if i < self.stats().len() {
                    Some(self.stats()[i as int].chapter_index as usize)
                } else {
                    None
                },
                None => None,
            },
    {
        match self.selected {
            Some(i) => if i < self.chapter_stats.len() {
                Some(self.chapter_stats[i].chapter_index)
            } else {
                None
            },
            None => None,
        }
    }

    /// Records where the popup was drawn and the first line the list showed.
    pub fn record_render(&mut self, area: PopupArea, offset: usize)
        ensures
            final(self).area() == Some(area),
            final(self).list_offset() == min_nat(offset as int, old(self).stats().len() as int),
            final(self).stats() == old(self).stats(),
            final(self).selection() == old(self).selection(),
            final(self).shown() == old(self).shown(),
    {
        let len = self.chapter_stats.len();
        self.last_popup_area = Some(area);
        self.offset = if offset < len {
            offset
        } else {
            len
        };
    }

    /// Where the popup goes in a drawing area: at most 80 columns and 30
    /// rows, less 10 columns and 4 rows than the area, centered.
    pub fn popup_area_in(area: PopupArea) -> (r: PopupArea)
        ensures
            r.width == min_nat(if area.width >= 10 { area.width - 10 } else { 0 }, 80),
            r.height == min_nat(if area.height >= 4 { area.height - 4 } else { 0 }, 30),
            r.x == (area.width - r.width) / 2,
            r.y == (area.height - r.height) / 2,
    {
        let popup_width = if area.width.saturating_sub(10) < 80 {
            area.width.saturating_sub(10)
        } else {
            80
        };
        let popup_height = if area.height.saturating_sub(4) < 30 {
            area.height.saturating_sub(4)
        } else {
            30
        };
        PopupArea {
            x: area.width.saturating_sub(popup_width) / 2,
            y: area.height.saturating_sub(popup_height) / 2,
            width: popup_width,
            height: popup_height,
        }
    }

    /// For each chapter, the share of the book read before it, in percent.
    pub fn chapter_percentages(&self) -> (r: Vec<usize>)
        requires
            total_screens(self.stats()) * 100 <= usize::MAX,
        ensures
            r@.len() == self.stats().len(),
            forall|k: int| 0 <= k < r@.len() ==> #[trigger] r@[k] == percent_before(self.stats(), k),
    {
        let ghost s = self.stats();
        let n = self.chapter_stats.len();
        let mut total: usize = 0;
        let mut k: usize = 0;
        proof {
            assert(s.take(0) =~= Seq::<StatView>::empty());
        }
        while k < n
            invariant
                s == stats_view(self.chapter_stats@),
                n == s.len(),
                k <= n,
                total == total_screens(s.take(k as int)),
                total_screens(s) * 100 <= usize::MAX,
            decreases n - k,
        {
            proof {
                assert(s.take(k + 1).drop_last() =~= s.take(k as int));
                lemma_total_screens_prefix(s, k + 1);
            }
            total = total + self.chapter_stats[k].screens;
            k += 1;
        }
        proof {
            assert(s.take(n as int) =~= s);
        }
        let mut out: Vec<usize> = Vec::new();
        let mut before: usize = 0;
        let mut j: usize = 0;
        while j < n
            invariant
                s == stats_view(self.chapter_stats@),
                n == s.len(),
                j <= n,
                total == total_screens(s),
                total * 100 <= usize::MAX,
                before == total_screens(s.take(j as int)),
                out@.len() == j,
                forall|m: int| 0 <= m < j ==> #[trigger] out@[m] == percent_before(s, m),
            decreases n - j,
        {
            proof {
                lemma_total_screens_prefix(s, j as int);
            }
            let pct = if total > 0 {
                (before * 100) / total
            } else {
                0
            };
            out.push(pct);
            proof {
                assert(s.take(j + 1).drop_last() =~= s.take(j as int));
                lemma_total_screens_prefix(s, j + 1);
            }
            before = before + self.chapter_stats[j].screens;
            j += 1;
        }
        out
    }

    /// Selects the clicked chapter; tells whether a chapter was clicked.
    pub fn handle_mouse_click(&mut self, x: u16, y: u16) -> (hit: bool)
        ensures
            hit == clicked_stat(old(self).area(), old(self).list_offset(), old(self).stats().len(), x, y) is Some,
            final(self).selection() == match clicked_stat(
                old(self).area(),
                old(self).list_offset(),
                old(self).stats().len(),
                x,
                y,
            ) {
                Some(i) => Some(i as usize),
                None => old(self).selection(),
            },
            final(self).stats() == old(self).stats(),
            final(self).area() == old(self).area(),
            final(self).list_offset() == old(self).list_offset(),
    {
        if let Some(a) = self.last_popup_area {
            let right: u32 = a.x as u32 + a.width as u32;
            let bottom: u32 = a.y as u32 + a.height.saturating_sub(2) as u32;
            if x >= a.x && (x as u32) < right && y > a.y && (y as u32) < bottom {
                let relative_y = (y - a.y - 1) as usize;
                let len = self.chapter_stats.len();
                if self.offset <= len && relative_y < len - self.offset {
                    self.selected = Some(self.offset + relative_y);
                    return true;
                }
            }
        }
        false
    }

    /// Check if the given coordinates are outside the popup area
    pub fn is_outside_popup_area(&self, x: u16, y: u16) -> (b: bool)
        ensures
            b == outside_area(self.area(), x, y),
    {
        is_outside(self.last_popup_area, x, y)
    }

    pub fn handle_j(&mut self)
        ensures
            final(self).selection() == Some(
                min_nat(sel_or_top(old(self).selection()) + 1int, last_line(old(self).stats().len()) as int) as usize,
            ),
            final(self).stats() == old(self).stats(),
            final(self).area() == old(self).area(),
            final(self).list_offset() == old(self).list_offset(),
    {
        let current = match self.selected {
            Some(i) => i,
            None => 0,
        };
        let max_pos = self.chapter_stats.len().saturating_sub(1);
        let new_pos = if current < max_pos {
            current + 1
        } else {
            max_pos
        };
        self.selected = Some(new_pos);
    }

    pub fn handle_k(&mut self)
        ensures
            final(self).selection() == Some(
                (if sel_or_top(old(self).selection()) > 0 {
                    sel_or_top(old(self).selection()) - 1
                } else {
                    0
                }) as usize,
            ),
            final(self).stats() == old(self).stats(),
            final(self).area() == old(self).area(),
            final(self).list_offset() == old(self).list_offset(),
    {
        let current = match self.selected {
            Some(i) => i,
            None => 0,
        };
        self.selected = Some(current.saturating_sub(1));
    }

    /// Moves down ten lines, stopping at the last one.
    pub fn handle_ctrl_d(&mut self)
        ensures
            final(self).selection() == Some(
                min_nat(sel_or_top(old(self).selection()) + 10int, last_line(old(self).stats().len()) as int) as usize,
            ),
            final(self).stats() == old(self).stats(),
            final(self).area() == old(self).area(),
            final(self).list_offset() == old(self).list_offset(),
    {
        let current = match self.selected {
            Some(i) => i,
            None => 0,
        };
        let max_pos = self.chapter_stats.len().saturating_sub(1);
        let new_pos = if max_pos >= 10 && current < max_pos - 10 {
            current + 10
        } else {
            max_pos
        };
        self.selected = Some(new_pos);
    }

    /// Moves up ten lines, stopping at the first one.
    pub fn handle_ctrl_u(&mut self)
        ensures
            final(self).selection() == Some(
                (if sel_or_top(old(self).selection()) > 10 {
                    sel_or_top(old(self).selection()) - 10
                } else {
                    0
                }) as usize,
            ),
            final(self).stats() == old(self).stats(),
            final(self).area() == old(self).area(),
            final(self).list_offset() == old(self).list_offset(),
    {
        let current = match self.selected {
            Some(i) => i,
            None => 0,
        };
        self.selected = Some(current.saturating_sub(10));
    }

    pub fn handle_gg(&mut self)
        ensures
            final(self).selection() == if old(self).stats().len() > 0 {
                Some(0usize)
            } else {
                old(self).selection()
            },
            final(self).stats() == old(self).stats(),
            final(self).area() == old(self).area(),
            final(self).list_offset() == old(self).list_offset(),
    {
        if self.chapter_stats.len() > 0 {
            self.selected = Some(0);
        }
    }

    pub fn handle_upper_g(&mut self)
        ensures
            final(self).selection() == if old(self).stats().len() > 0 {
                Some((old(self).stats().len() - 1) as usize)
            } else {
                old(self).selection()
            },
            final(self).stats() == old(self).stats(),
            final(self).area() == old(self).area(),
            final(self).list_offset() == old(self).list_offset(),
    {
        if self.chapter_stats.len() > 0 {
            self.selected = Some(self.chapter_stats.len() - 1);
        }
    }

    /// Handles a key: `j`/`k` move a line, `gg`/`G` jump, Ctrl+`d`/Ctrl+`u`
    /// move ten lines, Esc closes, Enter jumps to the selected chapter (the
    /// first one when none is selected).
    pub fn handle_key(&mut self, key: KeyPress, completes_gg: bool) -> (r: Option<BookStatAction>)
        ensures
            final(self).stats() == old(self).stats(),
            key.key == Key::Esc ==> r matches Some(BookStatAction::Close),
            key.key == Key::Enter ==> (r matches Some(BookStatAction::JumpToChapter { chapter_index })
                && chapter_index == match old(self).selection() {
                Some(i) => if i < old(self).stats().len() {
                    old(self).stats()[i as int].chapter_index as usize
                } else {
                    0
                },
                None => 0,
            }),
            is_char(key, 'j') ==> final(self).selection() == Some(
                min_nat(sel_or_top(old(self).selection()) + 1int, last_line(old(self).stats().len()) as int) as usize,
            ) && r is None,
            is_char(key, 'k') ==> r is None && final(self).selection() == Some(
                (if sel_or_top(old(self).selection()) > 0 {
                    sel_or_top(old(self).selection()) - 1
                } else {
                    0
                }) as usize,
            ),
            is_char(key, 'G') ==> r is None,
            is_char(key, 'g') && completes_gg ==> r is None,
            !(is_char(key, 'j') || is_char(key, 'k') || (is_char(key, 'g') && completes_gg)
                || is_char(key, 'G') || (is_char(key, 'd') && key.ctrl) || (is_char(key, 'u')
                && key.ctrl)) ==> final(self).selection() == old(self).selection(),
            !(is_char(key, 'j') || is_char(key, 'k') || (is_char(key, 'g') && completes_gg) || is_char(key, 'G')
                || (is_char(key, 'd') && key.ctrl) || (is_char(key, 'u') && key.ctrl) || key.key == Key::Esc
                || key.key == Key::Enter) ==> r is None,
    {
        if key.key == Key::Char('j') {
            self.handle_j();
            None
        } else if key.key == Key::Char('k') {
            self.handle_k();
            None
        } else if key.key == Key::Char('g') && completes_gg {
            self.handle_gg();
            None
        } else if key.key == Key::Char('G') {
            self.handle_upper_g();
            None
        } else if key.key == Key::Char('d') && key.ctrl {
            self.handle_ctrl_d();
            None
        } else if key.key == Key::Char('u') && key.ctrl {
            self.handle_ctrl_u();
            None
        } else if key.key == Key::Esc {
            Some(BookStatAction::Close)
        } else if key.key == Key::Enter {
            let idx = match self.get_selected_chapter_index() {
                Some(i) => i,
                None => 0,
            };
            Some(BookStatAction::JumpToChapter { chapter_index: idx })
        } else {
            None
        }
    }
}

proof fn lemma_total_screens_prefix(s: Seq<StatView>, k: int)
    requires
        0 <= k <= s.len(),
    ensures
        total_screens(s.take(k)) <= total_screens(s),
    decreases s.len() - k,
{
    if k < s.len() {
        lemma_total_screens_prefix(s, k + 1);
        assert(s.take(k + 1).drop_last() =~= s.take(k));
    } else {
        assert(s.take(k) =~= s);
    }
}


proof fn lemma_total_screens_prefixes(s: Seq<StatView>, k: int, j: int)
    requires
        0 <= k <= j <= s.len(),
    ensures
        total_screens(s.take(k)) <= total_screens(s.take(j)),
    decreases j - k,
{
    if k < j {
        lemma_total_screens_prefixes(s, k, j - 1);
        assert(s.take(j).drop_last() =~= s.take(j - 1));
    }
}

/// The share of the book read before a chapter never shrinks from one
/// chapter to the next, and never passes 100 percent.
pub proof fn law_percentages_grow(s: Seq<StatView>, k: int, j: int)
    requires
        0 <= k <= j <= s.len(),
    ensures
        percent_before(s, k) <= percent_before(s, j),
        percent_before(s, j) <= 100,
{
    lemma_total_screens_prefixes(s, k, j);
    lemma_total_screens_prefix(s, j);
    let t = total_screens(s);
    if t > 0 {
        let a = total_screens(s.take(k));
        let b = total_screens(s.take(j));
        vstd::arithmetic::div_mod::lemma_div_is_ordered((a * 100) as int, (b * 100) as int, t as int);
        vstd::arithmetic::div_mod::lemma_div_is_ordered((b * 100) as int, (t * 100) as int, t as int);
        vstd::arithmetic::div_mod::lemma_div_by_multiple(100, t as int);
        assert((t * 100) as int == 100 * t) by (nonlinear_arith);
    }
}

} // verus!
