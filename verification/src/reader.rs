//! The reader's rendered lines and the decisions made on them: where a
//! selection attaches a comment, which comment a selection points at, and
//! the section being read.
use vstd::prelude::*;
use crate::comments::{
    Comment, CommentTarget, CommentView, target_node, BookComments, CommentError, Timestamp, node_comments,
    first_at, after_add, after_update, after_delete, comments_view,
};
use crate::code_block::{split_newlines, split_at_newlines, seqs_view, strings_view, wrapped_lines};
use crate::widget::entry_height::utc_minute_stamp;
use crate::text::{
    chars_of, text_eq, lowercase, to_lowercase, alphanumeric, is_alphanumeric, is_ws, is_whitespace,
    join, string_from_chars, occurs_at, occurs_at_exec,
};
use crate::mathml::unicode::{ws_words, join_words};
use crate::widget::book_stat::{text_lines, lemma_first_newline_at};
use crate::widget::comments_viewer::{last_index_of, href_without_fragment};

use crate::markdown::{StyledSpan, LinkInfo, LinkView, RichView, opt_chars};

verus! {

/// Where a rendered line of a code block comes from.
#[derive(Clone, Copy, Debug, PartialEq, Eq, Structural)]
pub struct CodeLineMetadata {
    pub node_index: usize,
    pub line_index: usize,
    pub total_lines: usize,
}

/// A comment shown inside a code line, over a span of columns.
pub struct InlineCodeCommentFragment {
    pub chapter_href: String,
    pub target: CommentTarget,
    pub start_column: usize,
    pub end_column: usize,
}

/// A fragment as the contracts read it.
pub struct FragmentView {
    pub chapter_href: Seq<char>,
    pub target: CommentTarget,
    pub start_column: int,
    pub end_column: int,
}

impl View for InlineCodeCommentFragment {
    type V = FragmentView;

    open spec fn view(&self) -> FragmentView {
        FragmentView {
            chapter_href: self.chapter_href@,
            target: self.target,
            start_column: self.start_column as int,
            end_column: self.end_column as int,
        }
    }
}

/// What a rendered line shows.
pub enum LineType {
    Text,
    Heading { level: u8, needs_decoration: bool },
    CodeBlock { language: Option<String> },
    ListItem { indent: usize },
    ImagePlaceholder { src: String },
    HorizontalRule,
    Empty,
    Comment { chapter_href: String, target: CommentTarget },
}

/// Where a block is rendered.
#[derive(Clone, Copy, Debug, PartialEq, Eq, Structural)]
pub enum RenderContext {
    TopLevel,
    InsideContainer,
}

/// What rendering collects besides the lines: their text and where anchors are.
pub struct RenderingContext {
    pub raw_text_lines: Vec<String>,
    pub anchor_positions: Vec<(String, usize)>,
}

impl RenderingContext {
    pub fn new() -> (r: Self)
        ensures
            r.raw_text_lines@.len() == 0,
            r.anchor_positions@.len() == 0,
    {
        RenderingContext { raw_text_lines: Vec::new(), anchor_positions: Vec::new() }
    }
}

/// A table of the chapter, with its place among the lines.
pub struct EmbeddedTable {
    pub lines_before_table: usize,
    pub num_rows: usize,
    pub num_cols: usize,
    pub has_header: bool,
    pub header_row: Option<Vec<String>>,
    pub data_rows: Vec<Vec<String>>,
    pub height_cells: usize,
}

/// Whether a comment is being written or an existing one edited.
pub enum CommentEditMode {
    Creating,
    Editing { chapter_href: String, target: CommentTarget },
}

/// A position in the rendered lines: a line and a column in it.
#[derive(Clone, Copy, Debug, PartialEq, Eq, Structural)]
pub struct SelectionPoint {
    pub line: usize,
    pub column: usize,
}

/// A rendered line: its spans and text, what it shows, the node it starts
/// and the links and inline comments on it.
pub struct ReaderLine {
    pub spans: Vec<StyledSpan>,
    pub raw_text: String,
    pub line_type: LineType,
    pub links: Vec<LinkInfo>,
    pub node_anchor: Option<String>,
    pub node_index: Option<usize>,
    pub code_line: Option<CodeLineMetadata>,
    pub inline_code_comments: Vec<InlineCodeCommentFragment>,
}

/// What a rendered line shows, as the contracts read it.
pub enum LineTypeView {
    Text,
    Heading { level: u8, needs_decoration: bool },
    CodeBlock { language: Option<Seq<char>> },
    ListItem { indent: usize },
    ImagePlaceholder { src: Seq<char> },
    HorizontalRule,
    Empty,
    Comment { chapter_href: Seq<char>, target: CommentTarget },
}

impl View for LineType {
    type V = LineTypeView;

    open spec fn view(&self) -> LineTypeView {
        match self {
            LineType::Text => LineTypeView::Text,
            LineType::Heading { level, needs_decoration } => LineTypeView::Heading {
                level: *level,
                needs_decoration: *needs_decoration,
            },
            LineType::CodeBlock { language } => LineTypeView::CodeBlock { language: opt_chars(*language) },
            LineType::ListItem { indent } => LineTypeView::ListItem { indent: *indent },
            LineType::ImagePlaceholder { src } => LineTypeView::ImagePlaceholder { src: src@ },
            LineType::HorizontalRule => LineTypeView::HorizontalRule,
            LineType::Empty => LineTypeView::Empty,
            LineType::Comment { chapter_href, target } => LineTypeView::Comment {
                chapter_href: chapter_href@,
                target: *target,
            },
        }
    }
}

/// A rendered line as the contracts read it.
pub struct LineView {
    pub spans: Seq<RichView>,
    pub raw_text: Seq<char>,
    pub line_type: LineTypeView,
    pub links: Seq<LinkView>,
    pub node_anchor: Option<Seq<char>>,
    pub node_index: Option<usize>,
    pub code_line: Option<CodeLineMetadata>,
    pub fragments: Seq<FragmentView>,
}

/// A styled span as a span without a link.
pub open spec fn styled_view(s: StyledSpan) -> RichView {
    RichView { text: s.content@, style: s.style, link: None }
}

impl View for ReaderLine {
    type V = LineView;

    open spec fn view(&self) -> LineView {
        LineView {
            spans: self.spans@.map_values(|s: StyledSpan| styled_view(s)),
            raw_text: self.raw_text@,
            line_type: self.line_type@,
            links: self.links@.map_values(|l: LinkInfo| l@),
            node_anchor: opt_chars(self.node_anchor),
            node_index: self.node_index,
            code_line: self.code_line,
            fragments: self.inline_code_comments@.map_values(|f: InlineCodeCommentFragment| f@),
        }
    }
}

pub open spec fn lines_view(s: Seq<ReaderLine>) -> Seq<LineView> {
    s.map_values(|l: ReaderLine| l@)
}

/// An empty line with nothing on it.
pub open spec fn empty_line() -> LineView {
    LineView {
        spans: Seq::empty(),
        raw_text: Seq::empty(),
        line_type: LineTypeView::Text,
        links: Seq::empty(),
        node_anchor: None,
        node_index: None,
        code_line: None,
        fragments: Seq::empty(),
    }
}

impl ReaderLine {
    /// An empty line with nothing on it.
    pub fn empty() -> (r: ReaderLine)
        ensures
            r@ == empty_line(),
    {
        let r = ReaderLine {
            spans: Vec::new(),
            raw_text: String::new(),
            line_type: LineType::Text,
            links: Vec::new(),
            node_anchor: None,
            node_index: None,
            code_line: None,
            inline_code_comments: Vec::new(),
        };
        proof {
            assert(r@.spans =~= Seq::<RichView>::empty());
            assert(r@.links =~= Seq::<LinkView>::empty());
            assert(r@.fragments =~= Seq::<FragmentView>::empty());
        }
        r
    }
}

/// The section being read: its chapter, the chapter's reference with and
/// without fragment, and the anchor within it.
pub struct ActiveSection {
    pub chapter: usize,
    pub chapter_href: String,
    pub chapter_base_href: String,
    pub anchor: Option<String>,
}

/// The anchor's name: what follows its last `#`.
pub open spec fn anchor_name(anchor: Seq<char>) -> Seq<char> {
    if last_index_of(anchor, '#') < 0 {
        anchor
    } else {
        anchor.skip(last_index_of(anchor, '#') + 1)
    }
}

impl ActiveSection {
    pub fn new(chapter: usize, chapter_href: String, anchor: Option<String>) -> (r: Self)
        ensures
            r.chapter == chapter,
            r.chapter_href@ == chapter_href@,
            r.chapter_base_href@ == href_without_fragment(chapter_href@),
            match anchor {
                Some(a) => r.anchor matches Some(n) && n@ == anchor_name(a@),
                None => r.anchor is None,
            },
    {
        let chapter_base_href = Self::base_href(chapter_href.as_str());
        let normalized = match &anchor {
            Some(a) => Some(Self::normalize_anchor(a.as_str())),
            None => None,
        };
        ActiveSection { chapter, chapter_href, chapter_base_href, anchor: normalized }
    }

    /// The reference without its fragment.
    pub fn base_href(href: &str) -> (r: String)
        ensures
            r@ == href_without_fragment(href@),
    {
        crate::widget::comments_viewer::normalize_href(href)
    }

    /// The anchor without what comes before its last `#`.
    pub fn normalize_anchor(anchor: &str) -> (r: String)
        ensures
            r@ == anchor_name(anchor@),
    {
        let chars = chars_of(anchor);
        let n = chars.len();
        let mut k = n;
        while k > 0 && chars[k - 1] != '#'
            invariant
                n == chars@.len(),
                k <= n,
                forall|j: int| k <= j < n ==> #[trigger] chars@[j] != '#',
            decreases k,
        {
            k -= 1;
        }
        proof {
            lemma_last_index(chars@, '#', k as int);
        }
        if k == 0 {
            crate::text::to_string(anchor)
        } else {
            let v = crate::text::slice_to_vec(chars.as_slice(), k, n);
            crate::text::string_from_chars(v.as_slice())
        }
    }
}

proof fn lemma_last_index(s: Seq<char>, c: char, k: int)
    requires
        0 <= k <= s.len(),
        forall|j: int| k <= j < s.len() ==> #[trigger] s[j] != c,
        k > 0 ==> s[k - 1] == c,
    ensures
        last_index_of(s, c) == k - 1,
    decreases s.len(),
{
    if s.len() > 0 && s.len() > k {
        assert(s.last() == s[s.len() - 1]);
        assert forall|j: int| k <= j < s.len() - 1 implies #[trigger] s.drop_last()[j] != c by {
            assert(s.drop_last()[j] == s[j]);
        }
        lemma_last_index(s.drop_last(), c, k);
    } else if s.len() > 0 {
        assert(s.last() == s[k - 1]);
    }
}

/// The comment a line belongs to, for the lines of a shown comment.
pub open spec fn comment_of(t: LineType) -> Option<(Seq<char>, CommentTarget)> {
    match t {
        LineType::Comment { chapter_href, target } => Some((chapter_href@, target)),
        _ => None,
    }
}

/// Number of characters of a line's text.
pub open spec fn line_len(line: ReaderLine) -> nat {
    line.raw_text@.len()
}

/// Index of the first line of the comment at the location.
pub open spec fn first_comment_line(lines: Seq<ReaderLine>, href: Seq<char>, target: CommentTarget, from: int) -> Option<
    int,
>
    decreases lines.len() - from,
{
    if from < 0 || from >= lines.len() {
        None
    } else if comment_of(lines[from].line_type) == Some((href, target)) {
        Some(from)
    } else {
        first_comment_line(lines, href, target, from + 1)
    }
}

/// Find the visual line where a specific comment starts rendering
pub fn find_comment_visual_line(lines: &Vec<ReaderLine>, chapter_href: &str, target: &CommentTarget) -> (r:
    Option<usize>)
    ensures
        match first_comment_line(lines@, chapter_href@, *target, 0) {
            Some(i) => r matches Some(k) && k as int == i,
            None => r is None,
        },
{
    let mut k: usize = 0;
    while k < lines.len()
        invariant
            k <= lines@.len(),
            first_comment_line(lines@, chapter_href@, *target, 0) == first_comment_line(
                lines@,
                chapter_href@,
                *target,
                k as int,
            ),
        decreases lines@.len() - k,
    {
        let hit = match &lines[k].line_type {
            LineType::Comment { chapter_href: h, target: t } => text_eq(h.as_str(), chapter_href)
                && *t == *target,
            _ => false,
        };
        if hit {
            return Some(k);
        }
        k += 1;
    }
    None
}

/// Whether the comment is the one being edited.
/// The comment is the one being edited.
pub open spec fn is_editing(edit_mode: Option<CommentEditMode>, comment: CommentView) -> bool {
    match edit_mode {
        Some(CommentEditMode::Editing { chapter_href, target }) => comment.chapter_href == chapter_href@
            && comment.target == target,
        _ => false,
    }
}

pub fn is_editing_this_comment(edit_mode: &Option<CommentEditMode>, comment: &Comment) -> (b: bool)
    ensures
        b == is_editing(*edit_mode, comment@),
{
    match edit_mode {
        Some(CommentEditMode::Editing { chapter_href, target }) => text_eq(
            comment.chapter_href.as_str(),
            chapter_href.as_str(),
        ) && comment.target == *target,
        _ => false,
    }
}

pub open spec fn min_nat(a: int, b: int) -> int {
    if a < b {
        a
    } else {
        b
    }
}

/// The first inline comment of the code line that the selected columns
/// overlap, for a line of the selection.
pub open spec fn inline_hit(lines: Seq<ReaderLine>, line_idx: int, s: SelectionPoint, e: SelectionPoint) -> Option<
    (Seq<char>, CommentTarget),
> {
    if line_idx < 0 || line_idx >= lines.len() {
        None
    } else {
        let line = lines[line_idx];
        let frags = line.inline_code_comments@;
        let len = line_len(line) as int;
        let start_col = if line_idx == s.line {
            min_nat(s.column as int, len)
        } else {
            0
        };
        let end_col = if line_idx == e.line {
            min_nat(e.column as int, len)
        } else {
            len
        };
        if frags.len() == 0 || start_col >= end_col {
            None
        } else {
            first_overlap(frags, start_col, end_col, 0)
        }
    }
}

pub open spec fn first_overlap(frags: Seq<InlineCodeCommentFragment>, a: int, b: int, from: int) -> Option<
    (Seq<char>, CommentTarget),
>
    decreases frags.len() - from,
{
    if from < 0 || from >= frags.len() {
        None
    } else if a < frags[from].end_column && b > frags[from].start_column {
        Some((frags[from].chapter_href@, frags[from].target))
    } else {
        first_overlap(frags, a, b, from + 1)
    }
}

fn inline_code_comment_hit(lines: &Vec<ReaderLine>, line_idx: usize, s: SelectionPoint, e: SelectionPoint) -> (r:
    Option<(String, CommentTarget)>)
    ensures
        match r {
            Some(x) => inline_hit(lines@, line_idx as int, s, e) == Some((x.0@, x.1)),
            None => inline_hit(lines@, line_idx as int, s, e) is None,
        },
{
    if line_idx >= lines.len() {
        return None;
    }
    let line = &lines[line_idx];
    if line.inline_code_comments.len() == 0 {
        return None;
    }
    let len = chars_of(line.raw_text.as_str()).len();
    let start_col = if line_idx == s.line {
        if s.column < len {
            s.column
        } else {
            len
        }
    } else {
        0
    };
    let end_col = if line_idx == e.line {
        if e.column < len {
            e.column
        } else {
            len
        }
    } else {
        len
    };
    if start_col >= end_col {
        return None;
    }
    let frags = &line.inline_code_comments;
    proof {
        assert(inline_hit(lines@, line_idx as int, s, e) == first_overlap(
            frags@,
            start_col as int,
            end_col as int,
            0,
        ));
    }
    let mut k: usize = 0;
    while k < frags.len()
        invariant
            line_idx < lines@.len(),
            frags@ == lines@[line_idx as int].inline_code_comments@,
            inline_hit(lines@, line_idx as int, s, e) == first_overlap(
                frags@,
                start_col as int,
                end_col as int,
                0,
            ),
            k <= frags@.len(),
            first_overlap(frags@, start_col as int, end_col as int, 0) == first_overlap(
                frags@,
                start_col as int,
                end_col as int,
                k as int,
            ),
        decreases frags@.len() - k,
    {
        if start_col < frags[k].end_column && end_col > frags[k].start_column {
            return Some((frags[k].chapter_href.clone(), frags[k].target));
        }
        k += 1;
    }
    None
}

/// The comment a selection points at: the first selected line that shows a
/// comment, or a code line whose inline comment the selection overlaps.
pub open spec fn selection_comment(lines: Seq<ReaderLine>, s: SelectionPoint, e: SelectionPoint, idx: int) -> Option<
    (Seq<char>, CommentTarget),
>
    decreases lines.len() - idx,
{
    if idx < 0 || idx > e.line || idx >= lines.len() {
        None
    } else if comment_of(lines[idx].line_type) is Some {
        comment_of(lines[idx].line_type)
    } else if lines[idx].line_type is CodeBlock && inline_hit(lines, idx, s, e) is Some {
        inline_hit(lines, idx, s, e)
    } else {
        selection_comment(lines, s, e, idx + 1)
    }
}

/// The comment the selection from `start` to `end` points at, if any.
pub fn get_comment_at_selection(lines: &Vec<ReaderLine>, start: SelectionPoint, end: SelectionPoint) -> (r:
    Option<(String, CommentTarget)>)
    ensures
        match r {
            Some(x) => selection_comment(lines@, start, end, start.line as int) == Some((x.0@, x.1)),
            None => selection_comment(lines@, start, end, start.line as int) is None,
        },
{
    let mut idx = start.line;
    while idx <= end.line && idx < lines.len()
        invariant
            start.line <= idx,
            selection_comment(lines@, start, end, start.line as int) == selection_comment(
                lines@,
                start,
                end,
                idx as int,
            ),
        decreases lines@.len() - idx,
    {
        match &lines[idx].line_type {
            LineType::Comment { chapter_href, target } => {
                return Some((chapter_href.clone(), *target));
            },
            LineType::CodeBlock { .. } => {
                if let Some(hit) = inline_code_comment_hit(lines, idx, start, end) {
                    return Some(hit);
                }
            },
            _ => {},
        }
        idx += 1;
    }
    None
}

pub open spec fn display_len(lines: Seq<ReaderLine>, i: int) -> int {
    if 0 <= i < lines.len() {
        line_len(lines[i]) as int
    } else {
        0
    }
}

/// The selection's ends inside the lines: each end on an existing line and
/// within its text; an end at the start of a later line moves to the end of
/// the line before.
pub open spec fn normalized(lines: Seq<ReaderLine>, s: SelectionPoint, e: SelectionPoint) -> (
    SelectionPoint,
    SelectionPoint,
) {
    let total = lines.len() as int;
    if total == 0 {
        (s, e)
    } else {
        let sl = min_nat(s.line as int, total - 1);
        let sc = min_nat(s.column as int, display_len(lines, sl));
        let el = min_nat(e.line as int, total - 1);
        if el > sl && e.column == 0 {
            (
                SelectionPoint { line: sl as usize, column: sc as usize },
                SelectionPoint { line: (el - 1) as usize, column: display_len(lines, el - 1) as usize },
            )
        } else {
            (
                SelectionPoint { line: sl as usize, column: sc as usize },
                SelectionPoint {
                    line: el as usize,
                    column: min_nat(e.column as int, display_len(lines, el)) as usize,
                },
            )
        }
    }
}

fn line_display_length(lines: &Vec<ReaderLine>, i: usize) -> (n: usize)
    ensures
        n == display_len(lines@, i as int),
{
    if i < lines.len() {
        chars_of(lines[i].raw_text.as_str()).len()
    } else {
        0
    }
}

pub fn normalize_selection_points(lines: &Vec<ReaderLine>, start: SelectionPoint, end: SelectionPoint) -> (r: (
    SelectionPoint,
    SelectionPoint,
))
    ensures
        r == normalized(lines@, start, end),
{
    let total = lines.len();
    if total == 0 {
        return (start, end);
    }
    let start_line = if start.line < total - 1 {
        start.line
    } else {
        total - 1
    };
    let sl_len = line_display_length(lines, start_line);
    let start_col = if start.column < sl_len {
        start.column
    } else {
        sl_len
    };
    let mut end_line = if end.line < total - 1 {
        end.line
    } else {
        total - 1
    };
    let end_col;
    if end_line > start_line && end.column == 0 {
        end_line = end_line - 1;
        end_col = line_display_length(lines, end_line);
    } else {
        let el_len = line_display_length(lines, end_line);
        end_col = if end.column < el_len {
            end.column
        } else {
            el_len
        };
    }
    (SelectionPoint { line: start_line, column: start_col }, SelectionPoint { line: end_line, column: end_col })
}

pub open spec fn in_node(line: ReaderLine, n: usize) -> bool {
    line.node_index == Some(n)
}

/// Characters of the node's lines before line `i`.
pub open spec fn base_before(lines: Seq<ReaderLine>, n: usize, i: int) -> nat
    decreases i,
{
    if i <= 0 {
        0
    } else {
        base_before(lines, n, i - 1) + if i - 1 < lines.len() && in_node(lines[i - 1], n) {
            line_len(lines[i - 1])
        } else {
            0
        }
    }
}

/// Characters of all lines.
pub open spec fn total_chars(lines: Seq<ReaderLine>) -> nat
    decreases lines.len(),
{
    if lines.len() == 0 {
        0
    } else {
        total_chars(lines.drop_last()) + line_len(lines.last())
    }
}

proof fn lemma_base_before_bounded(lines: Seq<ReaderLine>, n: usize, i: int)
    requires
        0 <= i <= lines.len(),
    ensures
        base_before(lines, n, i) <= total_chars(lines.take(i)),
        total_chars(lines.take(i)) <= total_chars(lines),
    decreases i,
{
    if i > 0 {
        lemma_base_before_bounded(lines, n, i - 1);
        assert(lines.take(i).drop_last() =~= lines.take(i - 1));
    }
    lemma_total_chars_prefix(lines, i);
}

proof fn lemma_total_chars_prefix(lines: Seq<ReaderLine>, i: int)
    requires
        0 <= i <= lines.len(),
    ensures
        total_chars(lines.take(i)) <= total_chars(lines),
    decreases lines.len() - i,
{
    if i < lines.len() {
        lemma_total_chars_prefix(lines, i + 1);
        assert(lines.take(i + 1).drop_last() =~= lines.take(i));
    } else {
        assert(lines.take(i) =~= lines);
    }
}

/// The offset of a selection end in the node's text, if the end's line
/// belongs to the node.
pub open spec fn offset_at(lines: Seq<ReaderLine>, n: usize, p: SelectionPoint) -> Option<int> {
    if p.line < lines.len() && in_node(lines[p.line as int], n) {
        Some(
            base_before(lines, n, p.line as int) + min_nat(
                p.column as int,
                line_len(lines[p.line as int]) as int,
            ),
        )
    } else {
        None
    }
}

/// The selected characters of a paragraph, unless the selection covers it
/// whole or nothing of it.
pub open spec fn word_range(lines: Seq<ReaderLine>, n: usize, s: SelectionPoint, e: SelectionPoint) -> Option<
    (usize, usize),
> {
    let total = base_before(lines, n, lines.len() as int) as int;
    match offset_at(lines, n, s) {
        None => None,
        Some(so) => {
            let eo = match offset_at(lines, n, e) {
                Some(x) => x,
                None => total,
            };
            if so >= eo {
                None
            } else if so == 0 && eo >= total {
                None
            } else {
                Some((so as usize, min_nat(eo, total) as usize))
            }
        },
    }
}

proof fn lemma_base_before_mono(lines: Seq<ReaderLine>, n: usize, i: int, j: int)
    requires
        0 <= i <= j,
    ensures
        base_before(lines, n, i) <= base_before(lines, n, j),
    decreases j - i,
{
    if i < j {
        lemma_base_before_mono(lines, n, i, j - 1);
    }
}

proof fn lemma_offset_bound(lines: Seq<ReaderLine>, n: usize, p: SelectionPoint)
    ensures
        offset_at(lines, n, p) matches Some(x) ==> 0 <= x <= base_before(lines, n, lines.len() as int),
{
    if p.line < lines.len() {
        lemma_base_before_mono(lines, n, p.line + 1, lines.len() as int);
    }
}

/// A selection on a paragraph keeps its words unless it is empty or covers the
/// paragraph whole: with `so` the start's offset in the paragraph's text, `eo`
/// the end's (the paragraph's end when the end lies outside it) and `total`
/// the paragraph's length, a selection with `0 < so < eo` gives the range from
/// `so` to `eo`, held at `total`, whether or not it reaches the paragraph's
/// end; one with `so >= eo`, or with `so == 0` and `eo >= total`, gives none,
/// and so does one whose start lies outside the paragraph.
pub proof fn law_word_range_kept(lines: Seq<ReaderLine>, n: usize, s: SelectionPoint, e: SelectionPoint)
    ensures
        ({
            let total = base_before(lines, n, lines.len() as int) as int;
            let eo = match offset_at(lines, n, e) {
                Some(x) => x,
                None => total,
            };
            offset_at(lines, n, s) matches Some(so) ==> {
                &&& 0 < so < eo ==> word_range(lines, n, s, e) == Some(
                    (so as usize, (if eo < total { eo } else { total }) as usize),
                )
                &&& 0 < so < eo && eo >= total ==> word_range(lines, n, s, e) == Some(
                    (so as usize, total as usize),
                )
                &&& so >= eo ==> word_range(lines, n, s, e) is None
                &&& so == 0 && eo >= total ==> word_range(lines, n, s, e) is None
            }
        }),
        offset_at(lines, n, s) is None ==> word_range(lines, n, s, e) is None,
{
}

pub open spec fn as_usize_opt(o: Option<int>) -> Option<usize> {
    match o {
        Some(x) => Some(x as usize),
        None => None,
    }
}

pub fn compute_paragraph_word_range(lines: &Vec<ReaderLine>, node_idx: usize, start: SelectionPoint, end: SelectionPoint) -> (r:
    Option<(usize, usize)>)
    requires
        total_chars(lines@) <= usize::MAX,
    ensures
        r == word_range(lines@, node_idx, start, end),
{
    let n = lines.len();
    let mut cumulative: usize = 0;
    let mut start_offset: Option<usize> = None;
    let mut end_offset: Option<usize> = None;
    let mut i: usize = 0;
    while i < n
        invariant
            n == lines@.len(),
            total_chars(lines@) <= usize::MAX,
            i <= n,
            cumulative == base_before(lines@, node_idx, i as int),
            start_offset == (if start.line < i {
                as_usize_opt(offset_at(lines@, node_idx, start))
            } else {
                None::<usize>
            }),
            end_offset == (if end.line < i {
                as_usize_opt(offset_at(lines@, node_idx, end))
            } else {
                None::<usize>
            }),
        decreases n - i,
    {
        proof {
            lemma_base_before_bounded(lines@, node_idx, i + 1);
        }
        if lines[i].node_index == Some(node_idx) {
            let len = chars_of(lines[i].raw_text.as_str()).len();
            if i == start.line {
                start_offset = Some(cumulative + if start.column < len {
                    start.column
                } else {
                    len
                });
            }
            if i == end.line {
                end_offset = Some(cumulative + if end.column < len {
                    end.column
                } else {
                    len
                });
            }
            cumulative = cumulative + len;
        }
        i += 1;
    }
    proof {
        lemma_offset_bound(lines@, node_idx, start);
        lemma_offset_bound(lines@, node_idx, end);
    }
    let total = cumulative;
    let so = match start_offset {
        Some(x) => x,
        None => {
            return None;
        },
    };
    let eo = match end_offset {
        Some(x) => x,
        None => total,
    };
    if so >= eo {
        return None;
    }
    if so == 0 && eo >= total {
        return None;
    }
    Some((so, if eo < total {
        eo
    } else {
        total
    }))
}

/// The node of the first selected line that has one.
pub open spec fn first_node(lines: Seq<ReaderLine>, a: int, b: int) -> Option<usize>
    decreases lines.len() - a,
{
    if a < 0 || a > b || a >= lines.len() {
        None
    } else {
        match lines[a].node_index {
            Some(n) => Some(n),
            None => first_node(lines, a + 1, b),
        }
    }
}

pub open spec fn other_node(line: ReaderLine, n: usize) -> bool {
    match line.node_index {
        Some(m) => m != n,
        None => false,
    }
}

/// A selected line belongs to another node.
pub open spec fn node_conflict(lines: Seq<ReaderLine>, a: int, b: int, n: usize) -> bool {
    exists|i: int| a <= i <= b && 0 <= i < lines.len() && other_node(#[trigger] lines[i], n)
}

pub open spec fn span_join(x: Option<(usize, usize)>, y: Option<(usize, usize)>) -> Option<(usize, usize)> {
    match (x, y) {
        (None, _) => y,
        (_, None) => x,
        (Some(p), Some(q)) => Some(
            (if p.0 < q.0 { p.0 } else { q.0 }, if p.1 > q.1 { p.1 } else { q.1 }),
        ),
    }
}

pub open spec fn code_line_span(line: ReaderLine, n: usize) -> Option<(usize, usize)> {
    match line.code_line {
        Some(m) => if m.node_index == n {
            Some((m.line_index, m.line_index))
        } else {
            None
        },
        None => None,
    }
}

/// The first and last code lines of the node among the selected lines.
pub open spec fn code_span(lines: Seq<ReaderLine>, a: int, b: int, n: usize) -> Option<(usize, usize)>
    decreases lines.len() - a,
{
    if a < 0 || a > b || a >= lines.len() {
        None
    } else {
        span_join(code_line_span(lines[a], n), code_span(lines, a + 1, b, n))
    }
}

/// What a selection attaches a new comment to: the lines of a code block, or
/// words of a paragraph; nothing when the selection spans several nodes.
pub open spec fn selection_target(lines: Seq<ReaderLine>, s: SelectionPoint, e: SelectionPoint) -> Option<
    CommentTarget,
> {
    if lines.len() == 0 || s.line > e.line {
        None
    } else {
        match first_node(lines, s.line as int, e.line as int) {
            None => None,
            Some(n) => if node_conflict(lines, s.line as int, e.line as int, n) {
                None
            } else {
                match code_span(lines, s.line as int, e.line as int, n) {
                    Some(span) => Some(CommentTarget::CodeBlock { paragraph_index: n, line_range: span }),
                    None => Some(
                        CommentTarget::Paragraph {
                            paragraph_index: n,
                            word_range: word_range(lines, n, s, e),
                        },
                    ),
                }
            },
        }
    }
}

pub fn compute_selection_target(lines: &Vec<ReaderLine>, start: SelectionPoint, end: SelectionPoint) -> (r:
    Option<CommentTarget>)
    requires
        total_chars(lines@) <= usize::MAX,
    ensures
        r == selection_target(lines@, start, end),
{
    if lines.len() == 0 || start.line > end.line {
        return None;
    }
    let mut idx = start.line;
    let mut found: Option<usize> = None;
    while idx <= end.line && idx < lines.len() && found.is_none()
        invariant
            start.line <= idx,
            found matches Some(n) ==> first_node(lines@, start.line as int, end.line as int) == Some(n),
            found is None ==> first_node(lines@, start.line as int, end.line as int) == first_node(
                lines@,
                idx as int,
                end.line as int,
            ),
        decreases lines@.len() - idx + (if found is None { 1int } else { 0int }),
    {
        match lines[idx].node_index {
            Some(n) => {
                found = Some(n);
            },
            None => {
                idx += 1;
            },
        }
    }
    let node_idx = match found {
        Some(n) => n,
        None => {
            return None;
        },
    };
    let mut i = start.line;
    while i <= end.line && i < lines.len()
        invariant
            start.line <= i,
            start.line <= end.line,
            lines@.len() > 0,
            first_node(lines@, start.line as int, end.line as int) == Some(node_idx),
            forall|j: int|
                start.line <= j < i && 0 <= j < lines@.len() ==> !other_node(#[trigger] lines@[j], node_idx),
        decreases lines@.len() - i,
    {
        match lines[i].node_index {
            Some(m) => {
                if m != node_idx {
                    proof {
                        assert(node_conflict(lines@, start.line as int, end.line as int, node_idx)) by {
                            assert(lines@[i as int].node_index == Some(m));
                        }
                    }
                    return None;
                }
            },
            None => {},
        }
        i += 1;
    }
    proof {
        assert(!node_conflict(lines@, start.line as int, end.line as int, node_idx)) by {
            if node_conflict(lines@, start.line as int, end.line as int, node_idx) {
                let w = choose|w: int|
                    start.line <= w <= end.line && 0 <= w < lines@.len() && other_node(
                        #[trigger] lines@[w],
                        node_idx,
                    );
                assert(w < i);
            }
        }
    }
    let mut span: Option<(usize, usize)> = None;
    let mut c = start.line;
    while c <= end.line && c < lines.len()
        invariant
            start.line <= c,
            start.line <= end.line,
            lines@.len() > 0,
            total_chars(lines@) <= usize::MAX,
            first_node(lines@, start.line as int, end.line as int) == Some(node_idx),
            !node_conflict(lines@, start.line as int, end.line as int, node_idx),
            code_span(lines@, start.line as int, end.line as int, node_idx) == span_join(
                span,
                code_span(lines@, c as int, end.line as int, node_idx),
            ),
        decreases lines@.len() - c,
    {
        let here: Option<(usize, usize)> = match lines[c].code_line {
            Some(m) => if m.node_index == node_idx {
                Some((m.line_index, m.line_index))
            } else {
                None
            },
            None => None,
        };
        span = match (span, here) {
            (None, _) => here,
            (_, None) => span,
            (Some(p), Some(q)) => Some(
                (if p.0 < q.0 {
                    p.0
                } else {
                    q.0
                }, if p.1 > q.1 {
                    p.1
                } else {
                    q.1
                }),
            ),
        };
        c += 1;
    }
    match span {
        Some(sp) => Some(CommentTarget::CodeBlock { paragraph_index: node_idx, line_range: sp }),
        None => {
            let wr = compute_paragraph_word_range(lines, node_idx, start, end);
            Some(CommentTarget::Paragraph { paragraph_index: node_idx, word_range: wr })
        },
    }
}

/// Characters kept in a heading's anchor.
pub open spec fn anchor_char(c: char) -> bool {
    alphanumeric(c) || is_ws(c) || c == '-'
}

/// The anchor of a heading: its text in lower case, without other
/// characters than letters, digits, spaces and dashes, its words joined
/// by dashes.
pub open spec fn heading_anchor(text: Seq<char>) -> Seq<char> {
    join(ws_words(lowercase(text).filter(|c: char| anchor_char(c))), seq!['-'])
}

/// Generate anchor ID from heading text (simplified version)
pub fn generate_heading_anchor(heading_text: &str) -> (r: String)
    ensures
        r@ == heading_anchor(heading_text@),
{
    let low = to_lowercase(heading_text);
    let chars = chars_of(low.as_str());
    let ghost pred = |c: char| anchor_char(c);
    let mut kept: Vec<char> = Vec::new();
    let mut k: usize = 0;
    proof {
        reveal(Seq::filter);
        assert(chars@.take(0).filter(pred) =~= Seq::<char>::empty());
    }
    while k < chars.len()
        invariant
            pred == (|c: char| anchor_char(c)),
            k <= chars@.len(),
            kept@ == chars@.take(k as int).filter(pred),
        decreases chars@.len() - k,
    {
        let c = chars[k];
        proof {
            assert(chars@.take(k + 1) =~= chars@.take(k as int).push(c));
            chars@.take(k as int).lemma_filter_push(c, pred);
        }
        if is_alphanumeric(c) || is_whitespace(c) || c == '-' {
            kept.push(c);
        }
        k += 1;
    }
    proof {
        assert(chars@.take(k as int) =~= chars@);
    }
    let dash: Vec<char> = vec!['-'];
    proof {
        assert(dash@ =~= seq!['-']);
    }
    let out = join_words(kept.as_slice(), dash.as_slice());
    string_from_chars(out.as_slice())
}

/// The text with `<br/> ` and `<br/>` as line breaks.
pub open spec fn br_as_newlines(s: Seq<char>) -> Seq<char>
    decreases s.len(),
{
    if s.len() == 0 {
        s
    } else if s.len() >= 6 && occurs_at(s, "<br/> "@, 0) {
        seq!['\n'] + br_as_newlines(s.skip(6))
    } else if s.len() >= 5 && occurs_at(s, "<br/>"@, 0) {
        seq!['\n'] + br_as_newlines(s.skip(5))
    } else {
        seq![s[0]] + br_as_newlines(s.drop_first())
    }
}

/// Characters that show, markdown emphasis marks left out.
pub open spec fn shown_width(s: Seq<char>) -> nat {
    s.filter(|c: char| c != '*' && c != '_').len()
}

pub open spec fn max_width(lines: Seq<Seq<char>>) -> nat
    decreases lines.len(),
{
    if lines.len() == 0 {
        0
    } else {
        let m = max_width(lines.drop_last());
        let w = shown_width(lines.last());
        if w > m {
            w
        } else {
            m
        }
    }
}

/// Width a table cell's text takes: its widest line when it holds `<br/>`
/// breaks, markdown emphasis marks left out.
pub open spec fn display_width(text: Seq<char>) -> nat {
    if text.len() >= 5 && exists|i: int| occurs_at(text, "<br/>"@, i) {
        max_width(text_lines(br_as_newlines(text)))
    } else {
        shown_width(text)
    }
}

fn shown_width_exec(s: &[char]) -> (n: usize)
    ensures
        n == shown_width(s@),
{
    let ghost pred = |c: char| c != '*' && c != '_';
    let mut n: usize = 0;
    let mut k: usize = 0;
    proof {
        reveal(Seq::filter);
        assert(s@.take(0).filter(pred) =~= Seq::<char>::empty());
    }
    while k < s.len()
        invariant
            pred == (|c: char| c != '*' && c != '_'),
            k <= s@.len(),
            n == s@.take(k as int).filter(pred).len(),
            n <= k,
        decreases s@.len() - k,
    {
        let c = s[k];
        proof {
            assert(s@.take(k + 1) =~= s@.take(k as int).push(c));
            s@.take(k as int).lemma_filter_push(c, pred);
        }
        if c != '*' && c != '_' {
            n += 1;
        }
        k += 1;
    }
    proof {
        assert(s@.take(k as int) =~= s@);
    }
    n
}

fn br_to_newlines(s: &Vec<char>) -> (r: Vec<char>)
    ensures
        r@ == br_as_newlines(s@),
{
    let a = chars_of("<br/> ");
    let b = chars_of("<br/>");
    proof {
        reveal_strlit("<br/> ");
        reveal_strlit("<br/>");
    }
    let n = s.len();
    let mut out: Vec<char> = Vec::new();
    let mut pos: usize = 0;
    proof {
        assert(s@.skip(0) =~= s@);
    }
    while pos < n
        invariant
            n == s@.len(),
            a@ == "<br/> "@,
            b@ == "<br/>"@,
            a@.len() == 6,
            b@.len() == 5,
            pos <= n,
            br_as_newlines(s@) == out@ + br_as_newlines(s@.skip(pos as int)),
        decreases n - pos,
    {
        let ghost t = s@.skip(pos as int);
        proof {
            assert(t.len() == n - pos);
            if n - pos >= 6 {
                assert(t.subrange(0, 6) =~= s@.subrange(pos as int, pos + 6));
            }
            if n - pos >= 5 {
                assert(t.subrange(0, 5) =~= s@.subrange(pos as int, pos + 5));
            }
        }
        if n - pos >= 6 && occurs_at_exec(s.as_slice(), a.as_slice(), pos) {
            out.push('\n');
            proof {
                assert(t.skip(6) =~= s@.skip(pos + 6));
            }
            pos = pos + 6;
        } else if n - pos >= 5 && occurs_at_exec(s.as_slice(), b.as_slice(), pos) {
            out.push('\n');
            proof {
                assert(t.skip(5) =~= s@.skip(pos + 5));
            }
            pos = pos + 5;
        } else {
            out.push(s[pos]);
            proof {
                assert(t[0] == s@[pos as int]);
                assert(t.drop_first() =~= s@.skip(pos + 1));
            }
            pos = pos + 1;
        }
    }
    proof {
        assert(s@.skip(pos as int) =~= Seq::<char>::empty());
    }
    out
}

/// Calculate display width of text, excluding markdown formatting markers
pub fn calculate_display_width(text: &str) -> (w: usize)
    ensures
        w == display_width(text@),
{
    let chars = chars_of(text);
    let br = chars_of("<br/>");
    if !(chars.len() >= 5 && crate::text::contains_chars(chars.as_slice(), br.as_slice())) {
        return shown_width_exec(chars.as_slice());
    }
    let conv = br_to_newlines(&chars);
    let ghost t = conv@;
    let n = conv.len();
    let mut pos: usize = 0;
    let mut best: usize = 0;
    let ghost mut done: Seq<Seq<char>> = Seq::empty();
    proof {
        assert(t.skip(0) =~= t);
    }
    while pos < n
        invariant
            n == t.len(),
            t == conv@,
            pos <= n,
            text_lines(t) == done + text_lines(t.skip(pos as int)),
            best == max_width(done),
        decreases n - pos,
    {
        let mut j = pos;
        while j < n && conv[j] != '\n'
            invariant
                n == conv@.len(),
                pos <= j <= n,
                forall|k: int| pos <= k < j ==> #[trigger] conv@[k] != '\n',
            decreases n - j,
        {
            j += 1;
        }
        let end = if j < n && j > pos && conv[j - 1] == '\r' {
            j - 1
        } else {
            j
        };
        let piece = crate::text::slice_to_vec(conv.as_slice(), pos, end);
        let w = shown_width_exec(piece.as_slice());
        proof {
            let u = t.skip(pos as int);
            assert forall|k: int| 0 <= k < j - pos implies #[trigger] u[k] != '\n' by {
                assert(u[k] == t[pos + k]);
            }
            if j < n {
                assert(u[j - pos] == t[j as int]);
            }
            lemma_first_newline_at(u, j - pos);
            let line = if j < n {
                let l = u.take(j - pos);
                if l.len() > 0 && l.last() == '\r' {
                    l.drop_last()
                } else {
                    l
                }
            } else {
                u
            };
            assert(piece@ =~= line);
            if j < n {
                assert(u.skip(j - pos + 1) =~= t.skip(j + 1));
                assert(text_lines(u) == seq![line] + text_lines(t.skip(j + 1)));
            } else {
                assert(text_lines(u) == seq![line]);
                assert(t.skip(n as int) =~= Seq::<char>::empty());
                assert(text_lines(t.skip(n as int)) =~= Seq::<Seq<char>>::empty());
            }
            assert(done.push(line).drop_last() =~= done);
            assert(text_lines(t) =~= done.push(line) + text_lines(if j < n {
                t.skip(j + 1)
            } else {
                t.skip(n as int)
            }));
            done = done.push(line);
        }
        if w > best {
            best = w;
        }
        pos = if j < n {
            j + 1
        } else {
            n
        };
    }
    proof {
        assert(t.skip(pos as int) =~= Seq::<char>::empty());
        assert(text_lines(t.skip(pos as int)) =~= Seq::<Seq<char>>::empty());
        assert(text_lines(t) =~= done);
    }
    best
}

/// `node_comments` of a list with one more comment at its end.
proof fn lemma_node_comments_push(s: Seq<CommentView>, c: CommentView, h: Seq<char>, n: usize)
    ensures
        node_comments(s.push(c), h, n) == if c.chapter_href == h && target_node(c.target) == n {
            node_comments(s, h, n).push(c)
        } else {
            node_comments(s, h, n)
        },
{
    s.lemma_filter_push(c, |c: CommentView| c.chapter_href == h && target_node(c.target) == n);
}

/// Where the group of `node` stands in `groups`, if it is there.
fn find_group(groups: &Vec<(usize, Vec<Comment>)>, node: usize) -> (r: Option<usize>)
    ensures
        match r {
            Some(g) => g < groups@.len() && groups@[g as int].0 == node,
            None => forall|i: int| 0 <= i < groups@.len() ==> groups@[i].0 != node,
        },
{
    let mut g: usize = 0;
    while g < groups.len()
        invariant
            g <= groups@.len(),
            forall|i: int| 0 <= i < g ==> groups@[i].0 != node,
        decreases groups@.len() - g,
    {
        if groups[g].0 == node {
            return Some(g);
        }
        g += 1;
    }
    None
}

/// The comments of the chapter being read, grouped by the node they belong
/// to: one group per node that has comments, each holding that node's
/// comments in list order. Without a chapter there are no groups.
pub fn chapter_comments_by_node(comments: &BookComments, chapter_file: Option<&str>) -> (r: Vec<
    (usize, Vec<Comment>),
>)
    ensures
        chapter_file is None ==> r@.len() == 0,
        forall|i: int, j: int| 0 <= i < j < r@.len() ==> r@[i].0 != r@[j].0,
        chapter_file matches Some(h) ==> {
            &&& forall|i: int|
                #![trigger r@[i]]
                0 <= i < r@.len() ==> comments_view(r@[i].1@) == node_comments(comments@, h@, r@[i].0)
                    && r@[i].1@.len() > 0
            &&& forall|n: usize|
                #[trigger] node_comments(comments@, h@, n).len() > 0 ==> exists|i: int|
                    0 <= i < r@.len() && r@[i].0 == n
        },
{
    let mut groups: Vec<(usize, Vec<Comment>)> = Vec::new();
    let h = match chapter_file {
        None => {
            return groups;
        },
        Some(h) => h,
    };
    let all = comments.get_all_comments();
    let ghost v = comments@;
    let mut k: usize = 0;
    proof {
        assert forall|n: usize| node_comments(v.take(0), h@, n).len() == 0 by {
            reveal(Seq::filter);
            assert(v.take(0) =~= Seq::<CommentView>::empty());
        }
    }
    while k < all.len()
        invariant
            comments_view(all@) == v,
            k <= all@.len(),
            forall|i: int, j: int| 0 <= i < j < groups@.len() ==> groups@[i].0 != groups@[j].0,
            forall|i: int|
                #![trigger groups@[i]]
                0 <= i < groups@.len() ==> comments_view(groups@[i].1@) == node_comments(
                    v.take(k as int),
                    h@,
                    groups@[i].0,
                ) && groups@[i].1@.len() > 0,
            forall|n: usize|
                #[trigger] node_comments(v.take(k as int), h@, n).len() > 0 ==> exists|i: int|
                    0 <= i < groups@.len() && groups@[i].0 == n,
        decreases all@.len() - k,
    {
        let c = &all[k];
        let ghost before = groups@;
        let ghost t = v.take(k as int);
        proof {
            assert(v.take(k + 1) =~= t.push(c@));
            assert forall|n: usize| #[trigger] node_comments(v.take(k + 1), h@, n) == if c@.chapter_href
                == h@ && target_node(c@.target) == n {
                node_comments(t, h@, n).push(c@)
            } else {
                node_comments(t, h@, n)
            } by {
                lemma_node_comments_push(t, c@, h@, n);
            }
        }
        if text_eq(c.chapter_href.as_str(), h) {
            let node = c.node_index();
            match find_group(&groups, node) {
                Some(g) => {
                    let mut entry = groups.remove(g);
                    let ghost old_list = entry.1@;
                    entry.1.push(c.duplicate());
                    proof {
                        assert(comments_view(entry.1@) =~= comments_view(old_list).push(c@));
                    }
                    groups.insert(g, entry);
                    proof {
                        assert(groups@ =~= before.update(g as int, entry));
                        assert forall|n: usize| #[trigger]
                            node_comments(v.take(k + 1), h@, n).len() > 0 implies exists|i: int|
                            0 <= i < groups@.len() && groups@[i].0 == n by {
                            if n != node {
                                assert(node_comments(t, h@, n).len() > 0);
                                let i = choose|i: int| 0 <= i < before.len() && before[i].0 == n;
                                assert(groups@[i].0 == n);
                            } else {
                                assert(groups@[g as int].0 == n);
                            }
                        }
                    }
                },
                None => {
                    let mut list: Vec<Comment> = Vec::new();
                    list.push(c.duplicate());
                    proof {
                        reveal(Seq::filter);
                        assert(node_comments(t, h@, node).len() == 0);
                        assert(node_comments(t, h@, node) =~= Seq::<CommentView>::empty());
                        assert(comments_view(list@) =~= seq![c@]);
                        assert(node_comments(t, h@, node).push(c@) =~= seq![c@]);
                    }
                    groups.push((node, list));
                    proof {
                        assert forall|n: usize| #[trigger]
                            node_comments(v.take(k + 1), h@, n).len() > 0 implies exists|i: int|
                            0 <= i < groups@.len() && groups@[i].0 == n by {
                            if n != node {
                                assert(node_comments(t, h@, n).len() > 0);
                                let i = choose|i: int| 0 <= i < before.len() && before[i].0 == n;
                                assert(groups@[i].0 == n);
                            } else {
                                assert(groups@[before.len() as int].0 == n);
                            }
                        }
                    }
                },
            }
        } else {
            proof {
                assert forall|n: usize| #[trigger]
                    node_comments(v.take(k + 1), h@, n).len() > 0 implies exists|i: int|
                    0 <= i < groups@.len() && groups@[i].0 == n by {
                    assert(node_comments(t, h@, n).len() > 0);
                }
            }
        }
        k += 1;
    }
    proof {
        assert(v.take(k as int) =~= v);
    }
    groups
}

/// Widest margin, in columns on each side, that the reader keeps around its text.
pub const MAX_CONTENT_MARGIN: u16 = 20;

/// The reader's layout state: its margin, whether it shows the chapter's raw
/// HTML, and a generation counter that every change which invalidates the
/// rendered lines moves on.
pub struct MarkdownTextReader {
    pub content_margin: u16,
    pub cache_generation: u64,
    pub show_raw_html: bool,
    pub raw_html_content: Option<String>,
}

impl MarkdownTextReader {
    pub fn new() -> (r: Self)
        ensures
            r.content_margin == 0,
            r.cache_generation == 0,
            !r.show_raw_html,
            r.raw_html_content is None,
    {
        MarkdownTextReader {
            content_margin: 0,
            cache_generation: 0,
            show_raw_html: false,
            raw_html_content: None,
        }
    }

    pub fn handle_terminal_resize(&mut self)
        requires
            old(self).cache_generation < u64::MAX,
        ensures
            final(self).cache_generation == old(self).cache_generation + 1,
            final(self).content_margin == old(self).content_margin,
            final(self).show_raw_html == old(self).show_raw_html,
            final(self).raw_html_content == old(self).raw_html_content,
    {
        self.cache_generation = self.cache_generation + 1;
    }

    pub fn increase_margin(&mut self)
        requires
            old(self).cache_generation < u64::MAX,
        ensures
            final(self).content_margin == increased_margin(old(self).content_margin),
            final(self).cache_generation == old(self).cache_generation + 1,
            final(self).show_raw_html == old(self).show_raw_html,
            final(self).raw_html_content == old(self).raw_html_content,
    {
        let m = self.content_margin.saturating_add(1);
        self.content_margin = if m < MAX_CONTENT_MARGIN {
            m
        } else {
            MAX_CONTENT_MARGIN
        };
        self.cache_generation = self.cache_generation + 1;
    }

    pub fn decrease_margin(&mut self)
        requires
            old(self).cache_generation < u64::MAX,
        ensures
            final(self).content_margin == decreased_margin(old(self).content_margin),
            final(self).cache_generation == old(self).cache_generation + 1,
            final(self).show_raw_html == old(self).show_raw_html,
            final(self).raw_html_content == old(self).raw_html_content,
    {
        self.content_margin = self.content_margin.saturating_sub(1);
        self.cache_generation = self.cache_generation + 1;
    }

    pub fn set_margin(&mut self, margin: u16)
        requires
            old(self).cache_generation < u64::MAX,
        ensures
            final(self).content_margin == clamped_margin(margin),
            final(self).cache_generation == old(self).cache_generation + 1,
            final(self).show_raw_html == old(self).show_raw_html,
            final(self).raw_html_content == old(self).raw_html_content,
    {
        self.content_margin = if margin < MAX_CONTENT_MARGIN {
            margin
        } else {
            MAX_CONTENT_MARGIN
        };
        self.cache_generation = self.cache_generation + 1;
    }

    pub fn get_margin(&self) -> (m: u16)
        ensures
            m == self.content_margin,
    {
        self.content_margin
    }

    pub fn invalidate_render_cache(&mut self)
        requires
            old(self).cache_generation < u64::MAX,
        ensures
            final(self).cache_generation == old(self).cache_generation + 1,
            final(self).content_margin == old(self).content_margin,
            final(self).show_raw_html == old(self).show_raw_html,
            final(self).raw_html_content == old(self).raw_html_content,
    {
        self.cache_generation = self.cache_generation + 1;
    }

    pub fn set_raw_html(&mut self, html: String)
        ensures
            final(self).raw_html_content == Some(html),
            final(self).content_margin == old(self).content_margin,
            final(self).cache_generation == old(self).cache_generation,
            final(self).show_raw_html == old(self).show_raw_html,
    {
        self.raw_html_content = Some(html);
    }

    /// Removes the first comment at the location from `comments`, found or
    /// not, and moves the render generation on.
    pub fn delete_comment_by_location(
        &mut self,
        comments: &mut BookComments,
        chapter_href: &str,
        target: &CommentTarget,
    )
        requires
            old(self).cache_generation < u64::MAX,
        ensures
            final(comments)@ == after_delete(old(comments)@, chapter_href@, *target),
            final(self).cache_generation == old(self).cache_generation + 1,
            final(self).content_margin == old(self).content_margin,
            final(self).show_raw_html == old(self).show_raw_html,
            final(self).raw_html_content == old(self).raw_html_content,
    {
        let _ = comments.delete_comment(chapter_href, target);
        self.cache_generation = self.cache_generation + 1;
    }

    /// Removes the comment that the selection from `start` to `end` points
    /// at; `true` when there was one.
    pub fn delete_comment_at_selection(
        &mut self,
        comments: &mut BookComments,
        lines: &Vec<ReaderLine>,
        start: SelectionPoint,
        end: SelectionPoint,
    ) -> (deleted: bool)
        requires
            old(self).cache_generation < u64::MAX,
        ensures
            deleted <==> selection_comment(lines@, start, end, start.line as int) is Some,
            match selection_comment(lines@, start, end, start.line as int) {
                Some(x) => {
                    &&& final(comments)@ == after_delete(old(comments)@, x.0, x.1)
                    &&& final(self).cache_generation == old(self).cache_generation + 1
                },
                None => {
                    &&& final(comments)@ == old(comments)@
                    &&& final(self).cache_generation == old(self).cache_generation
                },
            },
            final(self).content_margin == old(self).content_margin,
            final(self).show_raw_html == old(self).show_raw_html,
            final(self).raw_html_content == old(self).raw_html_content,
    {
        match get_comment_at_selection(lines, start, end) {
            Some((chapter_href, target)) => {
                self.delete_comment_by_location(comments, chapter_href.as_str(), &target);
                true
            },
            None => false,
        }
    }

    /// Carries out one margin command: sets, widens or narrows the margin,
    /// and moves the render generation on.
    pub fn apply_margin_step(&mut self, step: MarginStep)
        requires
            old(self).cache_generation < u64::MAX,
        ensures
            final(self).content_margin == margin_after_step(old(self).content_margin, step),
            final(self).cache_generation == old(self).cache_generation + 1,
            final(self).show_raw_html == old(self).show_raw_html,
            final(self).raw_html_content == old(self).raw_html_content,
    {
        match step {
            MarginStep::SetTo(x) => self.set_margin(x),
            MarginStep::Increase => self.increase_margin(),
            MarginStep::Decrease => self.decrease_margin(),
        }
    }

    pub fn toggle_raw_html(&mut self)
        ensures
            final(self).show_raw_html == !old(self).show_raw_html,
            final(self).content_margin == old(self).content_margin,
            final(self).cache_generation == old(self).cache_generation,
            final(self).raw_html_content == old(self).raw_html_content,
    {
        self.show_raw_html = !self.show_raw_html;
    }
}

/// A margin as the reader keeps it: at most `MAX_CONTENT_MARGIN`.
pub open spec fn clamped_margin(m: u16) -> u16 {
    if m < MAX_CONTENT_MARGIN {
        m
    } else {
        MAX_CONTENT_MARGIN
    }
}

/// The margin one step wider, held at `MAX_CONTENT_MARGIN`.
pub open spec fn increased_margin(m: u16) -> u16 {
    if m < MAX_CONTENT_MARGIN {
        (m + 1) as u16
    } else {
        MAX_CONTENT_MARGIN
    }
}

/// The margin one step narrower, held at zero.
pub open spec fn decreased_margin(m: u16) -> u16 {
    if m > 0 {
        (m - 1) as u16
    } else {
        0
    }
}

/// The margin never leaves `0..=MAX_CONTENT_MARGIN` once it is there, and
/// below the widest margin, narrowing undoes widening.
pub proof fn law_margin_round_trip(m: u16)
    requires
        m <= MAX_CONTENT_MARGIN,
    ensures
        increased_margin(m) <= MAX_CONTENT_MARGIN,
        decreased_margin(m) <= MAX_CONTENT_MARGIN,
        clamped_margin(m) == m,
        m < MAX_CONTENT_MARGIN ==> decreased_margin(increased_margin(m)) == m,
{
}

/// One of the reader's margin commands.
#[derive(Clone, Copy, Debug, PartialEq, Eq, Structural)]
pub enum MarginStep {
    SetTo(u16),
    Increase,
    Decrease,
}

/// The margin after one command.
pub open spec fn margin_after_step(m: u16, step: MarginStep) -> u16 {
    match step {
        MarginStep::SetTo(x) => clamped_margin(x),
        MarginStep::Increase => increased_margin(m),
        MarginStep::Decrease => decreased_margin(m),
    }
}

/// The margin after the commands, in order.
pub open spec fn margin_after(m: u16, steps: Seq<MarginStep>) -> u16
    decreases steps.len(),
{
    if steps.len() == 0 {
        m
    } else {
        margin_after_step(margin_after(m, steps.drop_last()), steps.last())
    }
}

/// From a margin within `0..=MAX_CONTENT_MARGIN`, any run of margin commands
/// keeps it there after every command, and a run that ends by setting the
/// margin to `x` leaves `min(x, MAX_CONTENT_MARGIN)`.
pub proof fn law_margin_commands(m: u16, steps: Seq<MarginStep>)
    requires
        m <= MAX_CONTENT_MARGIN,
    ensures
        forall|i: int| 0 <= i <= steps.len() ==> #[trigger] margin_after(m, steps.take(i)) <= MAX_CONTENT_MARGIN,
        steps.len() > 0 ==> (steps.last() matches MarginStep::SetTo(x) ==> margin_after(m, steps) == (
            if x < MAX_CONTENT_MARGIN { x } else { MAX_CONTENT_MARGIN })),
    decreases steps.len(),
{
    if steps.len() > 0 {
        let front = steps.drop_last();
        law_margin_commands(m, front);
        assert forall|i: int| 0 <= i <= steps.len() implies #[trigger] margin_after(m, steps.take(i))
            <= MAX_CONTENT_MARGIN by {
            if i < steps.len() {
                assert(steps.take(i) =~= front.take(i));
            } else {
                assert(steps.take(i) =~= steps);
                assert(steps.drop_last() =~= front);
                assert(front.take(front.len() as int) =~= front);
                assert(margin_after(m, front.take(front.len() as int)) <= MAX_CONTENT_MARGIN);
            }
        }
    } else {
        assert forall|i: int| 0 <= i <= steps.len() implies #[trigger] margin_after(m, steps.take(i))
            <= MAX_CONTENT_MARGIN by {
            assert(steps.take(i) =~= Seq::<MarginStep>::empty());
        }
    }
}

/// The content of the first comment with the target.
pub open spec fn first_with_target(s: Seq<CommentView>, target: CommentTarget) -> Option<Seq<char>>
    decreases s.len(),
{
    if s.len() == 0 {
        None
    } else if s[0].target == target {
        Some(s[0].content)
    } else {
        first_with_target(s.drop_first(), target)
    }
}

/// A comment being written: the lines it starts with, what it is attached
/// to, the line it is shown at, and whether it is new or an edit.
pub struct CommentInput {
    pub initial_lines: Vec<String>,
    pub target: CommentTarget,
    pub target_node_index: usize,
    pub target_line: usize,
    pub edit_mode: CommentEditMode,
}

pub struct InputView {
    pub initial_lines: Seq<Seq<char>>,
    pub target: CommentTarget,
    pub target_node_index: usize,
    pub target_line: usize,
    /// The location of the comment edited; `None` for a new comment.
    pub editing: Option<(Seq<char>, CommentTarget)>,
}

impl View for CommentInput {
    type V = InputView;

    open spec fn view(&self) -> InputView {
        InputView {
            initial_lines: strings_view(self.initial_lines@),
            target: self.target,
            target_node_index: self.target_node_index,
            target_line: self.target_line,
            editing: match self.edit_mode {
                CommentEditMode::Creating => None,
                CommentEditMode::Editing { chapter_href, target } => Some((chapter_href@, target)),
            },
        }
    }
}

/// Editing an existing comment: its text, line by line, at the line where
/// it is shown. `None` when the comment or its line cannot be found.
pub open spec fn editing_input(
    book: Seq<CommentView>,
    lines: Seq<ReaderLine>,
    chapter_href: Seq<char>,
    target: CommentTarget,
) -> Option<InputView> {
    match first_with_target(node_comments(book, chapter_href, target_node(target)), target) {
        None => None,
        Some(content) => match first_comment_line(lines, chapter_href, target, 0) {
            None => None,
            Some(start) => Some(
                InputView {
                    initial_lines: split_newlines(content),
                    target,
                    target_node_index: target_node(target),
                    target_line: start as usize,
                    editing: Some((chapter_href, target)),
                },
            ),
        },
    }
}

/// The content of the first of the comments with the target.
fn content_with_target(found: &Vec<&Comment>, target: CommentTarget) -> (r: Option<String>)
    ensures
        match r {
            Some(t) => first_with_target(found@.map_values(|c: &Comment| c@), target) == Some(t@),
            None => first_with_target(found@.map_values(|c: &Comment| c@), target) is None,
        },
{
    let ghost fv = found@.map_values(|c: &Comment| c@);
    let mut k: usize = 0;
    proof {
        assert(fv.skip(0) =~= fv);
    }
    while k < found.len()
        invariant
            fv == found@.map_values(|c: &Comment| c@),
            k <= fv.len(),
            first_with_target(fv, target) == first_with_target(fv.skip(k as int), target),
        decreases fv.len() - k,
    {
        proof {
            assert(fv.skip(k as int)[0] == found@[k as int]@);
            assert(fv.skip(k as int).drop_first() =~= fv.skip(k + 1));
        }
        if found[k].target == target {
            return Some(found[k].content.clone());
        }
        k += 1;
    }
    proof {
        assert(fv.skip(k as int).len() == 0);
    }
    None
}

/// Starts editing the comment at the location, when it exists and is shown.
pub fn start_editing_comment(
    book: &BookComments,
    lines: &Vec<ReaderLine>,
    chapter_href: String,
    target: CommentTarget,
) -> (r: Option<CommentInput>)
    ensures
        match r {
            Some(i) => editing_input(book@, lines@, chapter_href@, target) == Some(i@),
            None => editing_input(book@, lines@, chapter_href@, target) is None,
        },
{
    let node = target.node_index();
    let found = book.get_node_comments(chapter_href.as_str(), node);
    let text = match content_with_target(&found, target) {
        Some(t) => t,
        None => {
            return None;
        },
    };
    let start = match find_comment_visual_line(lines, chapter_href.as_str(), &target) {
        Some(l) => l,
        None => {
            return None;
        },
    };
    let chars = crate::text::chars_of(text.as_str());
    let pieces = split_at_newlines(&chars);
    let mut initial: Vec<String> = Vec::new();
    let mut j: usize = 0;
    let ghost pv = seqs_view(pieces@);
    while j < pieces.len()
        invariant
            pv == seqs_view(pieces@),
            j <= pv.len(),
            strings_view(initial@) == pv.take(j as int),
        decreases pv.len() - j,
    {
        let ghost before = strings_view(initial@);
        let line = string_from_chars(pieces[j].as_slice());
        initial.push(line);
        proof {
            assert(strings_view(initial@) =~= before.push(pv[j as int]));
            assert(pv.take(j + 1) =~= pv.take(j as int).push(pv[j as int]));
        }
        j += 1;
    }
    proof {
        assert(pv.take(j as int) =~= pv);
    }
    Some(
        CommentInput {
            initial_lines: initial,
            target,
            target_node_index: node,
            target_line: start,
            edit_mode: CommentEditMode::Editing { chapter_href, target },
        },
    )
}

/// What a selection starts: editing the comment it points at, or a new
/// comment on what it selects, shown under the selection's last line.
pub open spec fn new_comment_input(
    book: Seq<CommentView>,
    lines: Seq<ReaderLine>,
    selection: Option<(SelectionPoint, SelectionPoint)>,
) -> Option<InputView> {
    match selection {
        None => None,
        Some((s, e)) => match selection_comment(lines, s, e, s.line as int) {
            Some((href, target)) => editing_input(book, lines, href, target),
            None => {
                let (ns, ne) = normalized(lines, s, e);
                match selection_target(lines, ns, ne) {
                    None => None,
                    Some(t) => Some(
                        InputView {
                            initial_lines: Seq::empty(),
                            target: t,
                            target_node_index: target_node(t),
                            target_line: if ne.line < usize::MAX {
                                (ne.line + 1) as usize
                            } else {
                                usize::MAX
                            },
                            editing: None,
                        },
                    ),
                }
            },
        },
    }
}

/// Starts writing a comment from the selection (`None` when nothing is
/// selected).
pub fn start_comment_input(
    book: &BookComments,
    lines: &Vec<ReaderLine>,
    selection: Option<(SelectionPoint, SelectionPoint)>,
) -> (r: Option<CommentInput>)
    requires
        total_chars(lines@) <= usize::MAX,
    ensures
        match r {
            Some(i) => new_comment_input(book@, lines@, selection) == Some(i@),
            None => new_comment_input(book@, lines@, selection) is None,
        },
{
    let (start, end) = match selection {
        Some(p) => p,
        None => {
            return None;
        },
    };
    match get_comment_at_selection(lines, start, end) {
        Some((href, target)) => {
            return start_editing_comment(book, lines, href, target);
        },
        None => {},
    }
    let (ns, ne) = normalize_selection_points(lines, start, end);
    match compute_selection_target(lines, ns, ne) {
        None => None,
        Some(t) => {
            let r = CommentInput {
                initial_lines: Vec::new(),
                target: t,
                target_node_index: t.node_index(),
                target_line: ne.line.saturating_add(1),
                edit_mode: CommentEditMode::Creating,
            };
            proof {
                assert(strings_view(r.initial_lines@) =~= Seq::<Seq<char>>::empty());
            }
            Some(r)
        },
    }
}

/// What saving a comment did.
#[derive(Debug, PartialEq, Eq)]
pub enum SaveOutcome {
    /// Nothing was saved: the text is blank, or a new comment has no chapter.
    Skipped,
    /// The edited comment was given the text (or could not be found).
    Updated(Result<(), CommentError>),
    /// A new comment was added.
    Added,
}

/// The text of a comment being written: its lines joined by newlines.
pub open spec fn input_text(text: Seq<Seq<char>>) -> Seq<char> {
    crate::text::join(text, seq!['\n'])
}

/// Saves the comment being written with the given text (changed at `now`):
/// an edit updates the comment it edits, a new comment is added to the
/// chapter being read; a blank text saves nothing.
pub fn save_comment(
    book: &mut BookComments,
    input: &CommentInput,
    text: &Vec<String>,
    current_chapter: Option<&str>,
    now: Timestamp,
) -> (r: SaveOutcome)
    ensures
        crate::text::trim(input_text(strings_view(text@))).len() == 0 ==> r == SaveOutcome::Skipped
            && final(book)@ == old(book)@,
        crate::text::trim(input_text(strings_view(text@))).len() > 0 ==> match input@.editing {
            Some((href, _)) => {
                &&& r matches SaveOutcome::Updated(u)
                &&& (u is Ok <==> first_at(old(book)@, href, input@.target) is Some)
                &&& final(book)@ == after_update(
                    old(book)@,
                    href,
                    input@.target,
                    input_text(strings_view(text@)),
                    now,
                )
            },
            None => match current_chapter {
                Some(ch) => r == SaveOutcome::Added && final(book)@ == after_add(
                    old(book)@,
                    CommentView {
                        chapter_href: ch@,
                        target: input@.target,
                        content: input_text(strings_view(text@)),
                        updated_at: now,
                    },
                ),
                None => r == SaveOutcome::Skipped && final(book)@ == old(book)@,
            },
        },
{
    let joined = join_lines(text);
    if crate::text::is_whitespace_only(joined.as_slice()) {
        return SaveOutcome::Skipped;
    }
    let content = string_from_chars(joined.as_slice());
    match &input.edit_mode {
        CommentEditMode::Editing { chapter_href, .. } => {
            let u = book.update_comment_at(chapter_href.as_str(), &input.target, content, now);
            SaveOutcome::Updated(u)
        },
        CommentEditMode::Creating => match current_chapter {
            Some(ch) => {
                let c = Comment {
                    chapter_href: crate::text::to_string(ch),
                    target: input.target,
                    content,
                    updated_at: now,
                };
                book.add_comment(c);
                SaveOutcome::Added
            },
            None => SaveOutcome::Skipped,
        },
    }
}

/// The lines joined by newlines.
fn join_lines(text: &Vec<String>) -> (r: Vec<char>)
    ensures
        r@ == input_text(strings_view(text@)),
{
    let ghost tv = strings_view(text@);
    let mut out: Vec<char> = Vec::new();
    let mut k: usize = 0;
    proof {
        assert(tv.take(0) =~= Seq::<Seq<char>>::empty());
    }
    while k < text.len()
        invariant
            tv == strings_view(text@),
            k <= tv.len(),
            out@ == input_text(tv.take(k as int)),
        decreases tv.len() - k,
    {
        let ghost before = out@;
        if k > 0 {
            out.push('\n');
        }
        let line = crate::text::chars_of(text[k].as_str());
        crate::text::push_all(&mut out, line.as_slice());
        proof {
            let t = tv.take(k + 1);
            assert(t.drop_last() =~= tv.take(k as int));
            assert(t.last() == tv[k as int]);
            if k == 0 {
                assert(t.len() == 1);
                assert(out@ =~= t[0]);
            } else {
                assert(out@ =~= before + seq!['\n'] + t.last());
            }
        }
        k += 1;
    }
    proof {
        assert(tv.take(k as int) =~= tv);
    }
    out
}

/// The lines a paragraph comment is shown as under its paragraph, each as
/// shown and as its text: a header with the time, the text wrapped and
/// quoted, and an empty line. No lines for a comment being edited or on
/// code; `None` when the time cannot be written.
pub open spec fn quote_rows(
    c: CommentView,
    editing: bool,
    width: usize,
    indent: usize,
) -> Option<Seq<(Seq<char>, Seq<char>)>> {
    if editing || !(c.target is Paragraph) {
        Some(Seq::empty())
    } else {
        match utc_minute_stamp(c.updated_at.secs, c.updated_at.nanos) {
            None => None,
            Some(ts) => {
                let header = "Note // "@ + ts;
                let effective: usize = if width > indent + 2 {
                    (width - (indent + 2)) as usize
                } else {
                    0
                };
                let wrapped = wrapped_lines(c.content, effective);
                Some(
                    seq![(header, header)] + wrapped.map_values(
                        |l: Seq<char>| (crate::text::repeat(' ', indent as nat) + "> "@ + l, l),
                    ) + seq![(Seq::<char>::empty(), Seq::<char>::empty())],
                )
            },
        }
    }
}

pub open spec fn pairs_view(v: Seq<(String, String)>) -> Seq<(Seq<char>, Seq<char>)> {
    v.map_values(|p: (String, String)| (p.0@, p.1@))
}

/// The lines of a paragraph comment shown under its paragraph (see
/// `quote_rows`), unless it is the comment being edited.
pub fn render_comment_as_quote(
    comment: &Comment,
    edit_mode: &Option<CommentEditMode>,
    width: usize,
    indent: usize,
) -> (r: Option<Vec<(String, String)>>)
    ensures
        match r {
            Some(v) => quote_rows(
                comment@,
                is_editing(*edit_mode, comment@),
                width,
                indent,
            ) == Some(pairs_view(v@)),
            None => quote_rows(comment@, is_editing(*edit_mode, comment@), width, indent) is None,
        },
{
    let mut rows: Vec<(String, String)> = Vec::new();
    if is_editing_this_comment(edit_mode, comment) || !comment.is_paragraph_comment() {
        proof {
            assert(pairs_view(rows@) =~= Seq::<(Seq<char>, Seq<char>)>::empty());
        }
        return Some(rows);
    }
    let ts = match crate::widget::entry_height::minute_stamp(comment.updated_at) {
        Some(t) => t,
        None => {
            return None;
        },
    };
    proof {
        reveal_strlit("Note // ");
        reveal_strlit("> ");
    }
    let mut header = crate::text::chars_of("Note // ");
    let tsc = crate::text::chars_of(ts.as_str());
    crate::text::push_all(&mut header, tsc.as_slice());
    let h = string_from_chars(header.as_slice());
    rows.push((h.clone(), h));
    let effective = width.saturating_sub(indent).saturating_sub(2);
    let wrapped = crate::code_block::wrap_line(comment.content.as_str(), effective);
    let ghost wv = strings_view(wrapped@);
    let ghost head = pairs_view(rows@);
    let mut prefix = crate::text::repeat_chars(' ', indent);
    prefix.push('>');
    prefix.push(' ');
    proof {
        assert(prefix@ =~= crate::text::repeat(' ', indent as nat) + "> "@);
    }
    let mut k: usize = 0;
    while k < wrapped.len()
        invariant
            wv == strings_view(wrapped@),
            prefix@ == crate::text::repeat(' ', indent as nat) + "> "@,
            k <= wv.len(),
            pairs_view(rows@) == head + wv.take(k as int).map_values(
                |l: Seq<char>| (crate::text::repeat(' ', indent as nat) + "> "@ + l, l),
            ),
        decreases wv.len() - k,
    {
        let line = crate::text::chars_of(wrapped[k].as_str());
        let mut shown = crate::text::slice_to_vec(prefix.as_slice(), 0, prefix.len());
        crate::text::push_all(&mut shown, line.as_slice());
        let ghost before = pairs_view(rows@);
        let pair = (string_from_chars(shown.as_slice()), string_from_chars(line.as_slice()));
        rows.push(pair);
        proof {
            assert(wv[k as int] == wrapped@[k as int]@);
            assert(line@ == wv[k as int]);
            assert(pair.0@ == crate::text::repeat(' ', indent as nat) + "> "@ + wv[k as int]);
            assert(pair.1@ == wv[k as int]);
            assert(pairs_view(rows@) =~= before.push((pair.0@, pair.1@)));
            assert(wv.take(k + 1) =~= wv.take(k as int).push(wv[k as int]));
            assert(wv.take(k + 1).map_values(
                |l: Seq<char>| (crate::text::repeat(' ', indent as nat) + "> "@ + l, l),
            ) =~= wv.take(k as int).map_values(
                |l: Seq<char>| (crate::text::repeat(' ', indent as nat) + "> "@ + l, l),
            ).push((crate::text::repeat(' ', indent as nat) + "> "@ + wv[k as int], wv[k as int])));
            assert(pairs_view(rows@) =~= head + wv.take(k + 1).map_values(
                |l: Seq<char>| (crate::text::repeat(' ', indent as nat) + "> "@ + l, l),
            ));
        }
        k += 1;
    }
    let ghost b2 = pairs_view(rows@);
    rows.push((String::new(), String::new()));
    proof {
        assert(wv.take(k as int) =~= wv);
        assert(pairs_view(rows@) =~= b2.push((Seq::<char>::empty(), Seq::<char>::empty())));
    }
    Some(rows)
}

/// Narrowest a table column is made.
pub const MIN_COLUMN_WIDTH: usize = 8;

/// Most cells in a row of the table.
pub open spec fn max_row_len(rows: Seq<Seq<Seq<char>>>) -> nat
    decreases rows.len(),
{
    if rows.len() == 0 {
        0
    } else {
        let m = max_row_len(rows.drop_last());
        if rows.last().len() > m {
            rows.last().len()
        } else {
            m
        }
    }
}

/// Columns of a table: as many as its longest row or its header has.
pub open spec fn column_count(headers: Seq<Seq<char>>, rows: Seq<Seq<Seq<char>>>) -> nat {
    if headers.len() > max_row_len(rows) {
        headers.len()
    } else {
        max_row_len(rows)
    }
}

pub open spec fn cell_width(row: Seq<Seq<char>>, c: int) -> nat {
    if 0 <= c < row.len() {
        display_width(row[c])
    } else {
        0
    }
}

/// The widest cell of column `c` among the rows.
pub open spec fn rows_column_width(rows: Seq<Seq<Seq<char>>>, c: int) -> nat
    decreases rows.len(),
{
    if rows.len() == 0 {
        0
    } else {
        let m = rows_column_width(rows.drop_last(), c);
        if cell_width(rows.last(), c) > m {
            cell_width(rows.last(), c)
        } else {
            m
        }
    }
}

/// The width column `c` asks for: its widest cell, header included, and at
/// least `MIN_COLUMN_WIDTH`.
pub open spec fn desired_width(headers: Seq<Seq<char>>, rows: Seq<Seq<Seq<char>>>, c: int) -> nat {
    let h = cell_width(headers, c);
    let r = rows_column_width(rows, c);
    let m = if h > r {
        h
    } else {
        r
    };
    if m > MIN_COLUMN_WIDTH {
        m
    } else {
        MIN_COLUMN_WIDTH as nat
    }
}

pub open spec fn rows_view(rows: Seq<Vec<String>>) -> Seq<Seq<Seq<char>>> {
    rows.map_values(|r: Vec<String>| strings_view(r@))
}

/// The width each column of a table asks for, before it is fitted to the
/// space there is.
pub fn desired_column_widths(headers: &Vec<String>, data_rows: &Vec<Vec<String>>) -> (r: Vec<usize>)
    ensures
        r@.len() == column_count(strings_view(headers@), rows_view(data_rows@)),
        forall|c: int|
            0 <= c < r@.len() ==> #[trigger] r@[c] == desired_width(
                strings_view(headers@),
                rows_view(data_rows@),
                c,
            ),
{
    let ghost hv = strings_view(headers@);
    let ghost rv = rows_view(data_rows@);
    let mut most: usize = 0;
    let mut i: usize = 0;
    proof {
        assert(rv.take(0) =~= Seq::<Seq<Seq<char>>>::empty());
    }
    while i < data_rows.len()
        invariant
            rv == rows_view(data_rows@),
            i <= rv.len(),
            most == max_row_len(rv.take(i as int)),
        decreases rv.len() - i,
    {
        proof {
            assert(rv.take(i + 1).drop_last() =~= rv.take(i as int));
            assert(rv.take(i + 1).last() == rv[i as int]);
            assert(rv[i as int].len() == data_rows@[i as int]@.len());
        }
        if data_rows[i].len() > most {
            most = data_rows[i].len();
        }
        i += 1;
    }
    proof {
        assert(rv.take(i as int) =~= rv);
    }
    let num_cols = if headers.len() > most {
        headers.len()
    } else {
        most
    };
    let mut out: Vec<usize> = Vec::new();
    let mut c: usize = 0;
    while c < num_cols
        invariant
            hv == strings_view(headers@),
            rv == rows_view(data_rows@),
            num_cols == column_count(hv, rv),
            c <= num_cols,
            out@.len() == c,
            forall|j: int| 0 <= j < c ==> #[trigger] out@[j] == desired_width(hv, rv, j),
        decreases num_cols - c,
    {
        let h: usize = if c < headers.len() {
            calculate_display_width(headers[c].as_str())
        } else {
            0
        };
        proof {
            if c < headers.len() {
                assert(hv[c as int] == headers@[c as int]@);
            }
        }
        let mut widest: usize = 0;
        let mut k: usize = 0;
        proof {
            assert(rv.take(0) =~= Seq::<Seq<Seq<char>>>::empty());
        }
        while k < data_rows.len()
            invariant
                rv == rows_view(data_rows@),
                k <= rv.len(),
                widest == rows_column_width(rv.take(k as int), c as int),
            decreases rv.len() - k,
        {
            proof {
                assert(rv.take(k + 1).drop_last() =~= rv.take(k as int));
                assert(rv.take(k + 1).last() == rv[k as int]);
                assert(rv[k as int] == strings_view(data_rows@[k as int]@));
            }
            let row = &data_rows[k];
            let w: usize = if c < row.len() {
                proof {
                    assert(rv[k as int][c as int] == row@[c as int]@);
                }
                calculate_display_width(row[c].as_str())
            } else {
                0
            };
            if w > widest {
                widest = w;
            }
            k += 1;
        }
        proof {
            assert(rv.take(k as int) =~= rv);
        }
        let m = if h > widest {
            h
        } else {
            widest
        };
        out.push(
            if m > MIN_COLUMN_WIDTH {
                m
            } else {
                MIN_COLUMN_WIDTH
            },
        );
        c += 1;
    }
    out
}

/// Columns left for the cells of a table `available_width` wide: less two
/// borders and one separator between each two columns.
pub fn table_cell_space(available_width: usize, num_cols: usize) -> (r: usize)
    ensures
        r as int == (if available_width > 2 + (if num_cols > 0 {
            num_cols - 1
        } else {
            0
        }) {
            available_width - (2 + (if num_cols > 0 {
                num_cols - 1
            } else {
                0
            }))
        } else {
            0
        }),
{
    let spacing = num_cols.saturating_sub(1);
    if spacing > usize::MAX - 2 {
        return 0;
    }
    available_width.saturating_sub(2 + spacing)
}

} // verus!
