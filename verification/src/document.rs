//! The chapter's blocks and the lines the reader renders them as.
use vstd::prelude::*;
use crate::markdown::{
    TextOrInline, Inline, RichSpan, RichView, StyledSpan, SpanStyle, BaseStyle, rich_view, item_spans, plain,
    text_string, text_to_string, render_text_or_inline,
};
use crate::rendering::{span_lines, render_text_spans, sat_sub};
use crate::reader::{
    ReaderLine, LineType, LineView, LineTypeView, lines_view, empty_line, RenderContext, CommentEditMode,
    is_editing, quote_rows, render_comment_as_quote, pairs_view, heading_anchor, generate_heading_anchor,
    CodeLineMetadata, FragmentView, InlineCodeCommentFragment, styled_view,
};
use crate::comments::{Comment, CommentView, comments_view, target_node};
use crate::code_block::{CodeBlockRow, RowView, code_block_rows, render_code_block, rows_view, wrapped_lines, wrap_line, strings_view};
use crate::text::{chars_of, push_all, string_from_chars, repeat, repeat_chars, trim, is_whitespace_only, uppercase, to_uppercase, slice_to_vec};
use crate::markdown::opt_chars;

verus! {

/// The level of a heading.
#[derive(Clone, Copy, Debug, PartialEq, Eq, Structural)]
pub enum HeadingLevel {
    H1,
    H2,
    H3,
    H4,
    H5,
    H6,
}

pub open spec fn level_number(l: HeadingLevel) -> u8 {
    match l {
        HeadingLevel::H1 => 1,
        HeadingLevel::H2 => 2,
        HeadingLevel::H3 => 3,
        HeadingLevel::H4 => 4,
        HeadingLevel::H5 => 5,
        HeadingLevel::H6 => 6,
    }
}

impl HeadingLevel {
    pub fn as_u8(&self) -> (n: u8)
        ensures
            n == level_number(*self),
    {
        match self {
            HeadingLevel::H1 => 1,
            HeadingLevel::H2 => 2,
            HeadingLevel::H3 => 3,
            HeadingLevel::H4 => 4,
            HeadingLevel::H5 => 5,
            HeadingLevel::H6 => 6,
        }
    }
}

/// How a list's items are marked.
#[derive(Clone, Copy, Debug, PartialEq, Eq, Structural)]
pub enum ListKind {
    Unordered,
    Ordered { start: u32 },
}

/// An item of a list: the blocks it holds.
pub struct ListItem {
    pub content: Vec<Node>,
}

/// A term of a definition list and its definitions, each a run of blocks.
pub struct DefinitionListItem {
    pub term: Vec<TextOrInline>,
    pub definitions: Vec<Vec<Node>>,
}

/// A block of the chapter. A table comes laid out as its lines.
pub enum Block {
    Heading { level: HeadingLevel, content: Vec<TextOrInline> },
    Paragraph { content: Vec<TextOrInline> },
    CodeBlock { language: Option<String>, content: String },
    List { kind: ListKind, items: Vec<ListItem> },
    Table { lines: Vec<String> },
    Quote { content: Vec<Node> },
    ThematicBreak,
    DefinitionList { items: Vec<DefinitionListItem> },
    EpubBlock { epub_type: String, element_name: String, content: Vec<Node> },
}

/// A block with the identifier it carries in the chapter, if any.
pub struct Node {
    pub block: Block,
    pub id: Option<String>,
}

/// What rendering reads besides the blocks: the chapter's comments, in list
/// order, and the comment being written or edited.
pub struct RenderEnv {
    pub comments: Vec<Comment>,
    pub edit_mode: Option<CommentEditMode>,
}

/// The spans of a text's items, one after another.
pub open spec fn items_spans(items: Seq<TextOrInline>) -> Seq<RichView>
    decreases items.len(),
{
    if items.len() == 0 {
        Seq::empty()
    } else {
        items_spans(items.drop_last()) + item_spans(items.last())
    }
}

/// The lines before, with a run of spans rendered after them.
pub open spec fn add_span_lines(
    ls: Seq<LineView>,
    spans: Seq<RichView>,
    prefix: Seq<char>,
    width: usize,
    indent: usize,
    add_empty_line_after: bool,
    ni: Option<usize>,
) -> Seq<LineView> {
    ls + span_lines(spans, prefix, width as int, indent as int, add_empty_line_after, ni, ls.len() as int)
}

/// A line of one span and its text.
pub open spec fn single_line(text: Seq<char>, style: SpanStyle, line_type: LineTypeView) -> LineView {
    LineView {
        spans: seq![RichView { text, style, link: None }],
        raw_text: text,
        line_type,
        links: Seq::empty(),
        node_anchor: None,
        node_index: None,
        code_line: None,
        fragments: Seq::empty(),
    }
}

/// An empty line marked as empty.
pub open spec fn blank_line() -> LineView {
    single_line(Seq::empty(), SpanStyle::Base(BaseStyle::Plain), LineTypeView::Empty)
}

/// A heading: its text (upper case for a first-level heading) wrapped to
/// the width, a double rule under a first-level heading and a single rule
/// under a second-level one, then an empty line.
pub open spec fn heading_out(ls: Seq<LineView>, level: HeadingLevel, content: Seq<TextOrInline>, width: usize) -> Seq<LineView> {
    let text = text_string(content);
    let shown = if level == HeadingLevel::H1 {
        uppercase(text)
    } else {
        text
    };
    let n = level_number(level);
    let w = wrapped_lines(shown, width);
    let rule = if level == HeadingLevel::H1 {
        seq![single_line(repeat('═', width as nat), SpanStyle::HeadingRule(n), LineTypeView::Heading { level: n, needs_decoration: true })]
    } else if level == HeadingLevel::H2 {
        seq![single_line(repeat('─', width as nat), SpanStyle::HeadingRule(n), LineTypeView::Heading { level: n, needs_decoration: true })]
    } else {
        Seq::empty()
    };
    ls + w.map_values(
        |t: Seq<char>| single_line(t, SpanStyle::Heading(n), LineTypeView::Heading { level: n, needs_decoration: false }),
    ) + rule + seq![blank_line()]
}

/// A rule across the width, then an empty line.
pub open spec fn break_out(ls: Seq<LineView>, width: usize) -> Seq<LineView> {
    ls + seq![single_line(repeat('─', width as nat), SpanStyle::Rule, LineTypeView::HorizontalRule), empty_line()]
}

/// A table's lines as laid out, then an empty line; an empty table shows
/// nothing.
pub open spec fn table_out(ls: Seq<LineView>, rows: Seq<Seq<char>>) -> Seq<LineView> {
    if rows.len() == 0 {
        ls
    } else {
        ls + rows.map_values(|r: Seq<char>| single_line(r, SpanStyle::Base(BaseStyle::Plain), LineTypeView::Text))
            + seq![blank_line()]
    }
}

/// The comments of a node, in list order.
pub open spec fn node_cs(cs: Seq<CommentView>, node: usize) -> Seq<CommentView> {
    cs.filter(|c: CommentView| target_node(c.target) == node)
}

/// A row of a comment shown as a quote: the last row (the empty one) drawn
/// as it is, the others as a note.
pub open spec fn comment_row_line(c: CommentView, row: (Seq<char>, Seq<char>), last: bool) -> LineView {
    LineView {
        spans: seq![
            RichView {
                text: row.0,
                style: if last {
                    SpanStyle::Base(BaseStyle::Plain)
                } else {
                    SpanStyle::Note
                },
                link: None,
            },
        ],
        raw_text: row.1,
        line_type: LineTypeView::Comment { chapter_href: c.chapter_href, target: c.target },
        links: Seq::empty(),
        node_anchor: None,
        node_index: None,
        code_line: None,
        fragments: Seq::empty(),
    }
}

/// A comment shown as a quote under its paragraph (nothing for a comment
/// whose time cannot be written).
pub open spec fn comment_out(env: RenderEnv, ls: Seq<LineView>, c: CommentView, width: usize, indent: usize) -> Seq<LineView> {
    match quote_rows(c, is_editing(env.edit_mode, c), width, indent) {
        Some(rows) => ls + Seq::new(rows.len(), |j: int| comment_row_line(c, rows[j], j == rows.len() - 1)),
        None => ls,
    }
}

/// Comments shown as quotes, one after another.
pub open spec fn comments_out(env: RenderEnv, ls: Seq<LineView>, cs: Seq<CommentView>, width: usize, indent: usize) -> Seq<LineView>
    decreases cs.len(),
{
    if cs.len() == 0 {
        ls
    } else {
        comment_out(env, comments_out(env, ls, cs.drop_last(), width, indent), cs.last(), width, indent)
    }
}

fn single_reader_line(text: String, style: SpanStyle, line_type: LineType) -> (r: ReaderLine)
    ensures
        r@ == single_line(text@, style, line_type@),
{
    let mut spans: Vec<StyledSpan> = Vec::new();
    let t2 = text.clone();
    spans.push(StyledSpan { content: text, style });
    let r = ReaderLine {
        spans,
        raw_text: t2,
        line_type,
        links: Vec::new(),
        node_anchor: None,
        node_index: None,
        code_line: None,
        inline_code_comments: Vec::new(),
    };
    proof {
        assert(r@.spans =~= seq![RichView { text: text@, style, link: None }]);
        assert(r@.links =~= Seq::<crate::markdown::LinkView>::empty());
        assert(r@.fragments =~= Seq::<FragmentView>::empty());
    }
    r
}

fn blank_reader_line() -> (r: ReaderLine)
    ensures
        r@ == blank_line(),
{
    single_reader_line(String::new(), SpanStyle::Base(BaseStyle::Plain), LineType::Empty)
}

/// Renders a heading.
pub fn render_heading(level: HeadingLevel, content: &Vec<TextOrInline>, lines: &mut Vec<ReaderLine>, width: usize)
    ensures
        lines_view(final(lines)@) == heading_out(lines_view(old(lines)@), level, content@, width),
{
    let ghost ls = lines_view(lines@);
    proof {
        assert(ls.len() == lines@.len());
    }
    let text = text_to_string(content);
    let shown = if level == HeadingLevel::H1 {
        to_uppercase(text.as_str())
    } else {
        text
    };
    let n = level.as_u8();
    let wrapped = wrap_line(shown.as_str(), width);
    let ghost w = strings_view(wrapped@);
    let ghost f = |t: Seq<char>| single_line(t, SpanStyle::Heading(n), LineTypeView::Heading { level: n, needs_decoration: false });
    let mut k: usize = 0;
    while k < wrapped.len()
        invariant
            w == strings_view(wrapped@),
            k <= w.len(),
            f == (|t: Seq<char>| single_line(t, SpanStyle::Heading(n), LineTypeView::Heading { level: n, needs_decoration: false })),
            lines_view(lines@) == ls + w.take(k as int).map_values(f),
        decreases w.len() - k,
    {
        let ghost before = lines_view(lines@);
        let l = single_reader_line(wrapped[k].clone(), SpanStyle::Heading(n), LineType::Heading { level: n, needs_decoration: false });
        lines.push(l);
        proof {
            assert(w.take(k + 1) =~= w.take(k as int).push(w[k as int]));
            assert(lines_view(lines@) =~= before.push(l@));
            assert(lines_view(lines@) =~= ls + w.take(k + 1).map_values(f));
        }
        k += 1;
    }
    proof {
        assert(w.take(k as int) =~= w);
    }
    if level == HeadingLevel::H1 || level == HeadingLevel::H2 {
        let ch = if level == HeadingLevel::H1 { '═' } else { '─' };
        let r = repeat_chars(ch, width);
        let l = single_reader_line(string_from_chars(r.as_slice()), SpanStyle::HeadingRule(n), LineType::Heading { level: n, needs_decoration: true });
        let ghost before = lines_view(lines@);
        lines.push(l);
        proof {
            assert(lines_view(lines@) =~= before.push(l@));
        }
    }
    let ghost before = lines_view(lines@);
    let b = blank_reader_line();
    lines.push(b);
    proof {
        assert(lines_view(lines@) =~= before.push(b@));
        assert(lines_view(lines@) =~= heading_out(ls, level, content@, width));
    }
}

/// Renders a thematic break.
pub fn render_thematic_break(lines: &mut Vec<ReaderLine>, width: usize)
    ensures
        lines_view(final(lines)@) == break_out(lines_view(old(lines)@), width),
{
    let ghost ls = lines_view(lines@);
    proof {
        assert(ls.len() == lines@.len());
    }
    let r = repeat_chars('─', width);
    let l = single_reader_line(string_from_chars(r.as_slice()), SpanStyle::Rule, LineType::HorizontalRule);
    lines.push(l);
    let e = ReaderLine::empty();
    lines.push(e);
    proof {
        assert(lines_view(lines@) =~= break_out(ls, width));
    }
}

/// Renders a laid-out table.
pub fn render_table(rows: &Vec<String>, lines: &mut Vec<ReaderLine>)
    ensures
        lines_view(final(lines)@) == table_out(lines_view(old(lines)@), strings_view(rows@)),
{
    let ghost ls = lines_view(lines@);
    proof {
        assert(ls.len() == lines@.len());
    }
    let ghost rv = strings_view(rows@);
    if rows.len() == 0 {
        return;
    }
    let ghost f = |r: Seq<char>| single_line(r, SpanStyle::Base(BaseStyle::Plain), LineTypeView::Text);
    let mut k: usize = 0;
    while k < rows.len()
        invariant
            rv == strings_view(rows@),
            k <= rv.len(),
            f == (|r: Seq<char>| single_line(r, SpanStyle::Base(BaseStyle::Plain), LineTypeView::Text)),
            lines_view(lines@) == ls + rv.take(k as int).map_values(f),
        decreases rv.len() - k,
    {
        let ghost before = lines_view(lines@);
        let l = single_reader_line(rows[k].clone(), SpanStyle::Base(BaseStyle::Plain), LineType::Text);
        lines.push(l);
        proof {
            assert(rv.take(k + 1) =~= rv.take(k as int).push(rv[k as int]));
            assert(lines_view(lines@) =~= before.push(l@));
            assert(lines_view(lines@) =~= ls + rv.take(k + 1).map_values(f));
        }
        k += 1;
    }
    let ghost before = lines_view(lines@);
    let b = blank_reader_line();
    lines.push(b);
    proof {
        assert(rv.take(k as int) =~= rv);
        assert(lines_view(lines@) =~= before.push(b@));
    }
}

/// Shows a comment as a quote under its paragraph.
pub fn render_comment_lines(env: &RenderEnv, comment: &Comment, lines: &mut Vec<ReaderLine>, width: usize, indent: usize)
    ensures
        final(lines)@.len() >= old(lines)@.len(),
        lines_view(final(lines)@) == comment_out(*env, lines_view(old(lines)@), comment@, width, indent),
{
    let ghost ls = lines_view(lines@);
    proof {
        assert(ls.len() == lines@.len());
    }
    let rows = match render_comment_as_quote(comment, &env.edit_mode, width, indent) {
        Some(r) => r,
        None => {
            return;
        },
    };
    let ghost pv = pairs_view(rows@);
    let ghost c = comment@;
    let mut k: usize = 0;
    while k < rows.len()
        invariant
            lines@.len() >= ls.len(),
            pv == pairs_view(rows@),
            c == comment@,
            k <= pv.len(),
            lines_view(lines@) == ls + Seq::new(k as nat, |j: int| comment_row_line(c, pv[j], j == pv.len() - 1)),
        decreases pv.len() - k,
    {
        let last = k + 1 == rows.len();
        let mut spans: Vec<StyledSpan> = Vec::new();
        spans.push(StyledSpan {
            content: rows[k].0.clone(),
            style: if last { SpanStyle::Base(BaseStyle::Plain) } else { SpanStyle::Note },
        });
        let l = ReaderLine {
            spans,
            raw_text: rows[k].1.clone(),
            line_type: LineType::Comment { chapter_href: comment.chapter_href.clone(), target: comment.target },
            links: Vec::new(),
            node_anchor: None,
            node_index: None,
            code_line: None,
            inline_code_comments: Vec::new(),
        };
        let ghost before = lines_view(lines@);
        lines.push(l);
        proof {
            assert(l@.spans =~= comment_row_line(c, pv[k as int], last).spans);
            assert(l@.links =~= Seq::<crate::markdown::LinkView>::empty());
            assert(l@.fragments =~= Seq::<FragmentView>::empty());
            assert(l@ == comment_row_line(c, pv[k as int], k == pv.len() - 1));
            assert(lines_view(lines@) =~= before.push(l@));
            assert(lines_view(lines@) =~= ls + Seq::new((k + 1) as nat, |j: int| comment_row_line(c, pv[j], j == pv.len() - 1)));
        }
        k += 1;
    }
}

/// The comments of a node, in list order.
fn node_comments_of(cs: &Vec<Comment>, node: usize) -> (r: Vec<Comment>)
    ensures
        comments_view(r@) == node_cs(comments_view(cs@), node),
        r@.len() <= cs@.len(),
{
    let ghost v = comments_view(cs@);
    let ghost pred = |c: CommentView| target_node(c.target) == node;
    let mut out: Vec<Comment> = Vec::new();
    let mut k: usize = 0;
    proof {
        reveal(Seq::filter);
        assert(v.take(0).filter(pred) =~= Seq::<CommentView>::empty());
        assert(comments_view(out@) =~= Seq::<CommentView>::empty());
    }
    while k < cs.len()
        invariant
            v == comments_view(cs@),
            pred == (|c: CommentView| target_node(c.target) == node),
            k <= cs@.len(),
            out@.len() <= k,
            comments_view(out@) == v.take(k as int).filter(pred),
        decreases cs@.len() - k,
    {
        let c = &cs[k];
        proof {
            assert(v.take(k + 1) =~= v.take(k as int).push(c@));
            v.take(k as int).lemma_filter_push(c@, pred);
        }
        if c.node_index() == node {
            let ghost before = comments_view(out@);
            let d = c.duplicate();
            out.push(d);
            proof {
                assert(comments_view(out@) =~= before.push(c@));
            }
        }
        k += 1;
    }
    proof {
        assert(v.take(k as int) =~= v);
    }
    out
}

/// Shows comments as quotes, one after another.
pub fn render_comments(env: &RenderEnv, cs: &Vec<Comment>, lines: &mut Vec<ReaderLine>, width: usize, indent: usize)
    ensures
        final(lines)@.len() >= old(lines)@.len(),
        lines_view(final(lines)@) == comments_out(*env, lines_view(old(lines)@), comments_view(cs@), width, indent),
{
    let ghost ls = lines_view(lines@);
    proof {
        assert(ls.len() == lines@.len());
    }
    let ghost v = comments_view(cs@);
    let mut k: usize = 0;
    while k < cs.len()
        invariant
            lines@.len() >= ls.len(),
            v == comments_view(cs@),
            k <= v.len(),
            lines_view(lines@) == comments_out(*env, ls, v.take(k as int), width, indent),
        decreases v.len() - k,
    {
        proof {
            assert(v.take(k + 1).drop_last() =~= v.take(k as int));
        }
        render_comment_lines(env, &cs[k], lines, width, indent);
        k += 1;
    }
    proof {
        assert(v.take(k as int) =~= v);
    }
}

/// Whether an item of a text shows something: a run or link with more
/// than whitespace, or an image.
pub open spec fn visible_item(item: TextOrInline) -> bool {
    match item {
        TextOrInline::Text(t) => trim(t.content@).len() > 0,
        TextOrInline::Inline(Inline::Image { .. }) => true,
        TextOrInline::Inline(Inline::Link { text, .. }) => trim(text_string(text@)).len() > 0,
        _ => false,
    }
}

pub open spec fn has_visible(items: Seq<TextOrInline>) -> bool {
    exists|j: int| 0 <= j < items.len() && visible_item(#[trigger] items[j])
}

/// An image in a paragraph: an empty line, the lines of its placeholder,
/// and an empty line.
pub open spec fn image_out(ls: Seq<LineView>, url: Seq<char>, placeholder: Seq<Seq<char>>) -> Seq<LineView> {
    ls + seq![empty_line()] + placeholder.map_values(
        |r: Seq<char>| single_line(r, SpanStyle::Base(BaseStyle::Plain), LineTypeView::ImagePlaceholder { src: url }),
    ) + seq![empty_line()]
}

/// The lines of a paragraph's items so far, the spans not yet rendered, and
/// whether an image was shown: text gathers until an image, which renders
/// what gathered before it and then itself.
pub open spec fn para_fold(
    ls: Seq<LineView>,
    items: Seq<TextOrInline>,
    width: usize,
    indent: usize,
    ni: Option<usize>,
) -> (Seq<LineView>, Seq<RichView>, bool)
    decreases items.len(),
{
    if items.len() == 0 {
        (ls, Seq::empty(), false)
    } else {
        let prev = para_fold(ls, items.drop_last(), width, indent, ni);
        match items.last() {
            TextOrInline::Inline(Inline::Image { url, placeholder, .. }) => {
                let l2 = if prev.1.len() > 0 {
                    add_span_lines(prev.0, prev.1, Seq::empty(), width, indent, false, ni)
                } else {
                    prev.0
                };
                (image_out(l2, url@, strings_view(placeholder@)), Seq::empty(), true)
            },
            _ => (prev.0, prev.1 + item_spans(items.last()), prev.2),
        }
    }
}

/// A paragraph: its text wrapped (an empty line after it at the top level),
/// its images as placeholders, an empty line for an empty paragraph, then
/// the paragraph comments of its node as quotes. Inside a container a
/// paragraph that shows nothing renders nothing.
pub open spec fn paragraph_out(
    env: RenderEnv,
    ls: Seq<LineView>,
    content: Seq<TextOrInline>,
    width: usize,
    indent: usize,
    ni: Option<usize>,
    ctx: RenderContext,
) -> Seq<LineView> {
    if ctx == RenderContext::InsideContainer && !has_visible(content) {
        ls
    } else {
        let f = para_fold(ls, content, width, indent, ni);
        let l3 = if f.1.len() > 0 {
            add_span_lines(f.0, f.1, Seq::empty(), width, indent, ctx == RenderContext::TopLevel, ni)
        } else if !f.2 {
            f.0.push(blank_line())
        } else {
            f.0
        };
        match ni {
            Some(i) => comments_out(env, l3, node_cs(comments_view(env.comments@), i), width, indent),
            None => l3,
        }
    }
}

fn item_visible(item: &TextOrInline) -> (b: bool)
    ensures
        b == visible_item(*item),
{
    match item {
        TextOrInline::Text(t) => {
            let cs = chars_of(t.content.as_str());
            !is_whitespace_only(cs.as_slice())
        },
        TextOrInline::Inline(Inline::Image { .. }) => true,
        TextOrInline::Inline(Inline::Link { text, .. }) => {
            let s = text_to_string(text);
            let cs = chars_of(s.as_str());
            !is_whitespace_only(cs.as_slice())
        },
        _ => false,
    }
}

fn any_visible(items: &Vec<TextOrInline>) -> (b: bool)
    ensures
        b == has_visible(items@),
{
    let mut k: usize = 0;
    while k < items.len()
        invariant
            k <= items@.len(),
            forall|j: int| 0 <= j < k ==> !visible_item(#[trigger] items@[j]),
        decreases items@.len() - k,
    {
        if item_visible(&items[k]) {
            return true;
        }
        k += 1;
    }
    false
}

fn render_image_placeholder(url: &String, placeholder: &Vec<String>, lines: &mut Vec<ReaderLine>)
    ensures
        lines_view(final(lines)@) == image_out(lines_view(old(lines)@), url@, strings_view(placeholder@)),
{
    let ghost ls = lines_view(lines@);
    proof {
        assert(ls.len() == lines@.len());
    }
    let ghost pv = strings_view(placeholder@);
    lines.push(ReaderLine::empty());
    let ghost start = lines_view(lines@);
    let ghost f = |r: Seq<char>| single_line(r, SpanStyle::Base(BaseStyle::Plain), LineTypeView::ImagePlaceholder { src: url@ });
    proof {
        assert(start =~= ls + seq![empty_line()]);
    }
    let mut k: usize = 0;
    while k < placeholder.len()
        invariant
            pv == strings_view(placeholder@),
            k <= pv.len(),
            f == (|r: Seq<char>| single_line(r, SpanStyle::Base(BaseStyle::Plain), LineTypeView::ImagePlaceholder { src: url@ })),
            lines_view(lines@) == start + pv.take(k as int).map_values(f),
        decreases pv.len() - k,
    {
        let ghost before = lines_view(lines@);
        let l = single_reader_line(placeholder[k].clone(), SpanStyle::Base(BaseStyle::Plain), LineType::ImagePlaceholder { src: url.clone() });
        lines.push(l);
        proof {
            assert(pv.take(k + 1) =~= pv.take(k as int).push(pv[k as int]));
            assert(lines_view(lines@) =~= before.push(l@));
            assert(lines_view(lines@) =~= start + pv.take(k + 1).map_values(f));
        }
        k += 1;
    }
    let ghost before = lines_view(lines@);
    lines.push(ReaderLine::empty());
    proof {
        assert(pv.take(k as int) =~= pv);
        assert(lines_view(lines@) =~= before.push(empty_line()));
        assert(lines_view(lines@) =~= image_out(ls, url@, pv));
    }
}

/// Renders a paragraph.
pub fn render_paragraph(
    env: &RenderEnv,
    content: &Vec<TextOrInline>,
    lines: &mut Vec<ReaderLine>,
    width: usize,
    indent: usize,
    ni: Option<usize>,
    ctx: RenderContext,
)
    ensures
        final(lines)@.len() >= old(lines)@.len(),
        lines_view(final(lines)@) == paragraph_out(*env, lines_view(old(lines)@), content@, width, indent, ni, ctx),
{
    let ghost ls = lines_view(lines@);
    proof {
        assert(ls.len() == lines@.len());
    }
    if ctx == RenderContext::InsideContainer && !any_visible(content) {
        return;
    }
    let mut pending: Vec<RichSpan> = Vec::new();
    let mut has_content = false;
    let mut k: usize = 0;
    proof {
        assert(content@.take(0) =~= Seq::<TextOrInline>::empty());
    }
    while k < content.len()
        invariant
            k <= content@.len(),
            (lines_view(lines@), rich_view(pending@), has_content) == para_fold(ls, content@.take(k as int), width, indent, ni),
        decreases content@.len() - k,
    {
        proof {
            assert(content@.take(k + 1).drop_last() =~= content@.take(k as int));
            assert(content@.take(k + 1).last() == content@[k as int]);
        }
        match &content[k] {
            TextOrInline::Inline(Inline::Image { url, placeholder, .. }) => {
                if pending.len() > 0 {
                    let empty: Option<&str> = None;
                    render_text_spans(&pending, empty, lines, width, indent, false, ni);
                }
                render_image_placeholder(url, placeholder, lines);
                pending = Vec::new();
                has_content = true;
                proof {
                    assert(rich_view(pending@) =~= Seq::<RichView>::empty());
                }
            },
            _ => {
                let ghost before = rich_view(pending@);
                let more = render_text_or_inline(&content[k]);
                let mut j: usize = 0;
                while j < more.len()
                    invariant
                        j <= more@.len(),
                        rich_view(pending@) == before + rich_view(more@).take(j as int),
                    decreases more@.len() - j,
                {
                    let ghost pb = rich_view(pending@);
                    let d = more[j].duplicate();
                    pending.push(d);
                    proof {
                        assert(rich_view(pending@) =~= pb.push(d@));
                        assert(rich_view(more@).take(j + 1) =~= rich_view(more@).take(j as int).push(more@[j as int]@));
                    }
                    j += 1;
                }
                proof {
                    assert(rich_view(more@).take(j as int) =~= rich_view(more@));
                }
            },
        }
        k += 1;
    }
    proof {
        assert(content@.take(k as int) =~= content@);
    }
    if pending.len() > 0 {
        let empty: Option<&str> = None;
        render_text_spans(&pending, empty, lines, width, indent, ctx == RenderContext::TopLevel, ni);
    } else if !has_content {
        let ghost before = lines_view(lines@);
        let b = blank_reader_line();
        lines.push(b);
        proof {
            assert(lines_view(lines@) =~= before.push(b@));
        }
    }
    let ghost mid = lines_view(lines@);
    proof {
        lemma_para_fold_grows(ls, content@, width, indent, ni);
        assert(mid.len() >= ls.len());
    }
    match ni {
        Some(i) => {
            let cs = node_comments_of(&env.comments, i);
            render_comments(env, &cs, lines, width, indent);
        },
        None => {},
    }
    proof {
        assert(lines_view(lines@).len() == lines@.len());
    }
}

proof fn lemma_para_fold_grows(ls: Seq<LineView>, items: Seq<TextOrInline>, width: usize, indent: usize, ni: Option<usize>)
    ensures
        para_fold(ls, items, width, indent, ni).0.len() >= ls.len(),
    decreases items.len(),
{
    if items.len() > 0 {
        lemma_para_fold_grows(ls, items.drop_last(), width, indent, ni);
    }
}

/// The piece of `t` between two columns, if they lie in it.
pub open spec fn cut(t: Seq<char>, a: int, b: int) -> Seq<char> {
    if 0 <= a <= b <= t.len() {
        t.subrange(a, b)
    } else {
        Seq::empty()
    }
}

/// The line a row of a code block is drawn as: a code line with its
/// indentation, code and inline comments as spans; a note as its prefix
/// and segment; a blank row as an empty line.
pub open spec fn row_line(r: RowView, language: Option<Seq<char>>, ni: Option<usize>) -> LineView {
    match r {
        RowView::Blank => empty_line(),
        RowView::Code { text, code_start, code_end, covered, line_index, total_lines, fragments } => LineView {
            spans: (if code_start > 0 {
                seq![RichView { text: cut(text, 0, code_start as int), style: SpanStyle::Base(BaseStyle::Plain), link: None }]
            } else {
                Seq::empty()
            }) + seq![RichView { text: cut(text, code_start as int, code_end as int), style: SpanStyle::CodeText(covered), link: None }]
                + fragments.map_values(
                |f: FragmentView| RichView { text: cut(text, f.start_column, f.end_column), style: SpanStyle::CodeComment, link: None },
            ),
            raw_text: text,
            line_type: LineTypeView::CodeBlock { language },
            links: Seq::empty(),
            node_anchor: None,
            node_index: ni,
            code_line: match ni {
                Some(i) => Some(CodeLineMetadata { node_index: i, line_index: line_index as usize, total_lines: total_lines as usize }),
                None => None,
            },
            fragments,
        },
        RowView::Note { chapter_href, target, prefix, segment } => LineView {
            spans: seq![
                RichView { text: prefix, style: SpanStyle::CodeComment, link: None },
                RichView { text: segment, style: SpanStyle::CodeComment, link: None },
            ],
            raw_text: prefix + segment,
            line_type: LineTypeView::Comment { chapter_href, target },
            links: Seq::empty(),
            node_anchor: None,
            node_index: None,
            code_line: None,
            fragments: Seq::empty(),
        },
    }
}

/// Whether the last line holds more than whitespace.
pub open spec fn last_has_content(ls: Seq<LineView>) -> bool {
    ls.len() > 0 && trim(ls.last().raw_text).len() > 0
}

/// A code block: the rows `code_block_rows` lays it out as (with the
/// comments of its node, and an empty line first when the line before holds
/// text), each drawn as its line.
pub open spec fn code_out(
    env: RenderEnv,
    ls: Seq<LineView>,
    language: Option<Seq<char>>,
    content: Seq<char>,
    width: usize,
    indent: usize,
    ni: Option<usize>,
) -> Seq<LineView> {
    let cs = match ni {
        Some(i) => node_cs(comments_view(env.comments@), i),
        None => Seq::empty(),
    };
    ls + code_block_rows(content, cs, ni, width as int, indent as nat, last_has_content(ls)).map_values(
        |r: RowView| row_line(r, language, ni),
    )
}

fn piece(t: &Vec<char>, a: usize, b: usize) -> (r: String)
    ensures
        r@ == cut(t@, a as int, b as int),
{
    if a <= b && b <= t.len() {
        let v = slice_to_vec(t.as_slice(), a, b);
        string_from_chars(v.as_slice())
    } else {
        String::new()
    }
}

fn code_row_line(row: &CodeBlockRow, language: &Option<String>, ni: Option<usize>) -> (r: ReaderLine)
    ensures
        r@ == row_line(row@, opt_chars(*language), ni),
{
    match row {
        CodeBlockRow::Blank => ReaderLine::empty(),
        CodeBlockRow::Code { text, code_start, code_end, covered, line_index, total_lines, fragments } => {
            let t = chars_of(text.as_str());
            let mut spans: Vec<StyledSpan> = Vec::new();
            if *code_start > 0 {
                spans.push(StyledSpan { content: piece(&t, 0, *code_start), style: SpanStyle::Base(BaseStyle::Plain) });
            }
            spans.push(StyledSpan { content: piece(&t, *code_start, *code_end), style: SpanStyle::CodeText(*covered) });
            let ghost lead = spans@.map_values(|s: StyledSpan| styled_view(s));
            let ghost fv = fragments@.map_values(|f: InlineCodeCommentFragment| f@);
            let ghost g = |f: FragmentView| RichView { text: cut(t@, f.start_column, f.end_column), style: SpanStyle::CodeComment, link: None };
            let mut frs: Vec<InlineCodeCommentFragment> = Vec::new();
            let mut k: usize = 0;
            while k < fragments.len()
                invariant
                    k <= fragments@.len(),
                    fv == fragments@.map_values(|f: InlineCodeCommentFragment| f@),
                    g == (|f: FragmentView| RichView { text: cut(t@, f.start_column, f.end_column), style: SpanStyle::CodeComment, link: None }),
                    spans@.map_values(|s: StyledSpan| styled_view(s)) == lead + fv.take(k as int).map_values(g),
                    frs@.map_values(|f: InlineCodeCommentFragment| f@) == fv.take(k as int),
                decreases fragments@.len() - k,
            {
                let f = &fragments[k];
                let ghost sb = spans@.map_values(|s: StyledSpan| styled_view(s));
                let ghost fb = frs@.map_values(|f: InlineCodeCommentFragment| f@);
                let sp = StyledSpan { content: piece(&t, f.start_column, f.end_column), style: SpanStyle::CodeComment };
                spans.push(sp);
                let nf = InlineCodeCommentFragment {
                    chapter_href: f.chapter_href.clone(),
                    target: f.target,
                    start_column: f.start_column,
                    end_column: f.end_column,
                };
                frs.push(nf);
                proof {
                    assert(fv[k as int] == f@);
                    assert(fv.take(k + 1) =~= fv.take(k as int).push(f@));
                    assert(spans@.map_values(|s: StyledSpan| styled_view(s)) =~= sb.push(styled_view(sp)));
                    assert(styled_view(sp) == g(f@));
                    assert(spans@.map_values(|s: StyledSpan| styled_view(s)) =~= lead + fv.take(k + 1).map_values(g));
                    assert(frs@.map_values(|f: InlineCodeCommentFragment| f@) =~= fb.push(nf@));
                }
                k += 1;
            }
            let code_line = match ni {
                Some(i) => Some(CodeLineMetadata { node_index: i, line_index: *line_index, total_lines: *total_lines }),
                None => None,
            };
            let r = ReaderLine {
                spans,
                raw_text: text.clone(),
                line_type: LineType::CodeBlock { language: match language { Some(l) => Some(l.clone()), None => None } },
                links: Vec::new(),
                node_anchor: None,
                node_index: ni,
                code_line,
                inline_code_comments: frs,
            };
            proof {
                assert(fv.take(k as int) =~= fv);
                assert(r@.links =~= Seq::<crate::markdown::LinkView>::empty());
                assert(r@.spans =~= row_line(row@, opt_chars(*language), ni).spans);
                assert(r@.fragments =~= fv);
            }
            r
        },
        CodeBlockRow::Note { chapter_href, target, prefix, segment } => {
            let mut spans: Vec<StyledSpan> = Vec::new();
            spans.push(StyledSpan { content: prefix.clone(), style: SpanStyle::CodeComment });
            spans.push(StyledSpan { content: segment.clone(), style: SpanStyle::CodeComment });
            let mut raw = chars_of(prefix.as_str());
            let sc = chars_of(segment.as_str());
            push_all(&mut raw, sc.as_slice());
            let r = ReaderLine {
                spans,
                raw_text: string_from_chars(raw.as_slice()),
                line_type: LineType::Comment { chapter_href: chapter_href.clone(), target: *target },
                links: Vec::new(),
                node_anchor: None,
                node_index: None,
                code_line: None,
                inline_code_comments: Vec::new(),
            };
            proof {
                assert(r@.spans =~= row_line(row@, opt_chars(*language), ni).spans);
                assert(r@.links =~= Seq::<crate::markdown::LinkView>::empty());
                assert(r@.fragments =~= Seq::<FragmentView>::empty());
            }
            r
        },
    }
}

fn last_line_has_content(lines: &Vec<ReaderLine>) -> (b: bool)
    ensures
        b == last_has_content(lines_view(lines@)),
{
    if lines.len() == 0 {
        return false;
    }
    let cs = chars_of(lines[lines.len() - 1].raw_text.as_str());
    !is_whitespace_only(cs.as_slice())
}

/// Renders a code block.
pub fn render_code_lines(
    env: &RenderEnv,
    language: &Option<String>,
    content: &String,
    lines: &mut Vec<ReaderLine>,
    width: usize,
    indent: usize,
    ni: Option<usize>,
)
    requires
        2 * indent + content@.len() + 5 * env.comments@.len() + 4 <= usize::MAX,
    ensures
        final(lines)@.len() >= old(lines)@.len(),
        lines_view(final(lines)@) == code_out(*env, lines_view(old(lines)@), opt_chars(*language), content@, width, indent, ni),
{
    let ghost ls = lines_view(lines@);
    proof {
        assert(ls.len() == lines@.len());
    }
    let spacing = last_line_has_content(lines);
    let cs: Vec<Comment> = match ni {
        Some(i) => node_comments_of(&env.comments, i),
        None => Vec::new(),
    };
    proof {
        if ni is None {
            assert(comments_view(cs@) =~= Seq::<CommentView>::empty());
        }
    }
    let rows = render_code_block(content.as_str(), cs.as_slice(), ni, width, indent, spacing);
    let ghost rv = rows_view(rows@);
    let ghost f = |r: RowView| row_line(r, opt_chars(*language), ni);
    let mut k: usize = 0;
    while k < rows.len()
        invariant
            lines@.len() >= ls.len(),
            rv == rows_view(rows@),
            k <= rv.len(),
            f == (|r: RowView| row_line(r, opt_chars(*language), ni)),
            lines_view(lines@) == ls + rv.take(k as int).map_values(f),
        decreases rv.len() - k,
    {
        let ghost before = lines_view(lines@);
        let l = code_row_line(&rows[k], language, ni);
        lines.push(l);
        proof {
            assert(rv.take(k + 1) =~= rv.take(k as int).push(rv[k as int]));
            assert(lines_view(lines@) =~= before.push(l@));
            assert(lines_view(lines@) =~= ls + rv.take(k + 1).map_values(f));
        }
        k += 1;
    }
    proof {
        assert(rv.take(k as int) =~= rv);
    }
}

/// One more level of indentation, held at `usize::MAX`.
pub open spec fn inc(indent: usize) -> usize {
    if indent < usize::MAX {
        (indent + 1) as usize
    } else {
        indent
    }
}

fn inc_exec(indent: usize) -> (r: usize)
    ensures
        r == inc(indent),
{
    if indent < usize::MAX {
        indent + 1
    } else {
        indent
    }
}

/// How a list item is marked: a bullet, or its number (the list's start
/// plus its index, as `u32` arithmetic wraps) and a period.
pub open spec fn list_prefix(kind: ListKind, idx: int) -> Seq<char> {
    match kind {
        ListKind::Unordered => "• "@,
        ListKind::Ordered { start } => crate::widget::entry_height::decimal(start.wrapping_add(idx as u32) as nat) + ". "@,
    }
}

/// The lines from `from` on marked as items of a list at the indentation,
/// the first of them marked with the list's node when it is the first item.
pub open spec fn mark_list_lines(ls: Seq<LineView>, from: int, indent: usize, first_item: bool, ni: Option<usize>) -> Seq<LineView> {
    Seq::new(
        ls.len(),
        |j: int|
            if j < from {
                ls[j]
            } else {
                LineView {
                    line_type: LineTypeView::ListItem { indent },
                    node_index: if j == from && first_item {
                        ni
                    } else {
                        ls[j].node_index
                    },
                    ..ls[j]
                }
            },
    )
}

/// A span of running text as drawn in a quote.
pub open spec fn quoted(r: RichView) -> RichView {
    RichView {
        style: match r.style {
            SpanStyle::Base(b) => SpanStyle::Quoted(b),
            other => other,
        },
        ..r
    }
}

/// A span of running text as drawn in a definition term.
pub open spec fn termed(r: RichView) -> RichView {
    RichView {
        style: match r.style {
            SpanStyle::Base(b) => SpanStyle::Term(b),
            other => other,
        },
        ..r
    }
}

/// What a block is, as the spacing in an EPUB block reads it.
#[derive(Clone, Copy, Debug, PartialEq, Eq, Structural)]
pub enum BlockTag {
    Paragraph,
    CodeBlock,
    Other,
}

pub open spec fn block_tag(b: Block) -> BlockTag {
    match b {
        Block::Paragraph { .. } => BlockTag::Paragraph,
        Block::CodeBlock { .. } => BlockTag::CodeBlock,
        _ => BlockTag::Other,
    }
}

/// The first line a node rendered, marked with its anchor (its identifier,
/// else a heading's generated anchor) and its node index, where it has them.
pub open spec fn mark_first(ls: Seq<LineView>, at: int, anchor: Option<Seq<char>>, ni: Option<usize>) -> Seq<LineView> {
    if 0 <= at < ls.len() {
        ls.update(
            at,
            LineView {
                node_anchor: if anchor is Some {
                    anchor
                } else {
                    ls[at].node_anchor
                },
                node_index: if ni is Some {
                    ni
                } else {
                    ls[at].node_index
                },
                ..ls[at]
            },
        )
    } else {
        ls
    }
}

pub open spec fn node_anchor_of(node: Node) -> Option<Seq<char>> {
    match node.id {
        Some(id) => Some(id@),
        None => match node.block {
            Block::Heading { content, .. } => Some(heading_anchor(text_string(content@))),
            _ => None,
        },
    }
}

/// The lines a node renders as after `ls`, by the kind of its block, its
/// first line marked with its anchor and node index.
pub open spec fn node_out(
    env: RenderEnv,
    ls: Seq<LineView>,
    node: Node,
    width: usize,
    indent: usize,
    ni: Option<usize>,
    ctx: RenderContext,
) -> Seq<LineView>
    decreases node, 9int,
{
    let body = match node.block {
        Block::Heading { level, content } => heading_out(ls, level, content@, width),
        Block::Paragraph { content } => paragraph_out(env, ls, content@, width, indent, ni, ctx),
        Block::CodeBlock { language, content } => code_out(env, ls, opt_chars(language), content@, width, indent, ni),
        Block::List { kind, items } => list_out(env, ls, kind, items@, width, indent, ni),
        Block::Table { lines } => table_out(ls, strings_view(lines@)),
        Block::Quote { content } => quote_out(env, ls, content@, width, indent),
        Block::ThematicBreak => break_out(ls, width),
        Block::DefinitionList { items } => deflist_out(env, ls, items@, width),
        Block::EpubBlock { content, .. } => epub_out(env, ls, content@, width),
    };
    mark_first(body, ls.len() as int, node_anchor_of(node), ni)
}

/// Nodes rendered one after another inside a container.
pub open spec fn blocks_out(env: RenderEnv, ls: Seq<LineView>, ns: Seq<Node>, width: usize, indent: usize) -> Seq<LineView>
    decreases ns, 5int,
{
    if ns.len() == 0 {
        ls
    } else {
        node_out(env, blocks_out(env, ls, ns.drop_last(), width, indent), ns.last(), width, indent, None, RenderContext::InsideContainer)
    }
}

/// A list: its items, then an empty line; where its node has comments, an
/// empty line and the comments instead.
pub open spec fn list_out(
    env: RenderEnv,
    ls: Seq<LineView>,
    kind: ListKind,
    items: Seq<ListItem>,
    width: usize,
    indent: usize,
    ni: Option<usize>,
) -> Seq<LineView>
    decreases items, 8int,
{
    let body = list_items_out(env, ls, kind, items, items.len() as int, width, indent, ni);
    match ni {
        Some(i) => if node_cs(comments_view(env.comments@), i).len() > 0 {
            comments_out(env, body.push(empty_line()), node_cs(comments_view(env.comments@), i), width, indent)
        } else {
            body.push(empty_line())
        },
        None => body.push(empty_line()),
    }
}

pub open spec fn list_items_out(
    env: RenderEnv,
    ls: Seq<LineView>,
    kind: ListKind,
    items: Seq<ListItem>,
    total: int,
    width: usize,
    indent: usize,
    ni: Option<usize>,
) -> Seq<LineView>
    decreases items, 7int,
{
    if items.len() == 0 {
        ls
    } else {
        item_out(
            env,
            list_items_out(env, ls, kind, items.drop_last(), total, width, indent, ni),
            kind,
            items.last(),
            items.len() - 1,
            total,
            width,
            indent,
            ni,
        )
    }
}

/// A list item: its first block (a paragraph led by the item's mark and
/// marked as list lines, or another block one level in), its other blocks
/// one level in, and an empty line after it when its first block took more
/// than two lines and another item follows.
pub open spec fn item_out(
    env: RenderEnv,
    ls: Seq<LineView>,
    kind: ListKind,
    item: ListItem,
    idx: int,
    total: int,
    width: usize,
    indent: usize,
    ni: Option<usize>,
) -> Seq<LineView>
    decreases item, 6int,
{
    let blocks = item.content@;
    if blocks.len() == 0 {
        ls
    } else {
        let first = match blocks[0].block {
            Block::Paragraph { content } => mark_list_lines(
                add_span_lines(ls, items_spans(content@), list_prefix(kind, idx), width, indent, false, None),
                ls.len() as int,
                indent,
                idx == 0,
                ni,
            ),
            _ => node_out(env, ls, blocks[0], width, inc(indent), None, RenderContext::InsideContainer),
        };
        let rest = blocks_out(env, first, blocks.drop_first(), width, inc(indent));
        if idx + 1 < total && first.len() - ls.len() > 2 {
            rest.push(empty_line())
        } else {
            rest
        }
    }
}

/// A quote: its paragraphs led by `> ` and drawn as quoted, its other
/// blocks one level in, then an empty line.
pub open spec fn quote_out(env: RenderEnv, ls: Seq<LineView>, content: Seq<Node>, width: usize, indent: usize) -> Seq<LineView>
    decreases content, 8int,
{
    quote_blocks(env, ls, content, width, indent).push(empty_line())
}

pub open spec fn quote_blocks(env: RenderEnv, ls: Seq<LineView>, ns: Seq<Node>, width: usize, indent: usize) -> Seq<LineView>
    decreases ns, 7int,
{
    if ns.len() == 0 {
        ls
    } else {
        let prev = quote_blocks(env, ls, ns.drop_last(), width, indent);
        match ns.last().block {
            Block::Paragraph { content } => add_span_lines(
                prev,
                items_spans(content@).map_values(|r: RichView| quoted(r)),
                "> "@,
                width,
                indent,
                false,
                None,
            ),
            _ => node_out(env, prev, ns.last(), width, inc(indent), None, RenderContext::InsideContainer),
        }
    }
}

/// A definition list: each term drawn as a term, its definitions two
/// levels in at the width less four, an empty line after an item of more
/// than two lines that another follows, and an empty line at the end.
pub open spec fn deflist_out(env: RenderEnv, ls: Seq<LineView>, items: Seq<DefinitionListItem>, width: usize) -> Seq<LineView>
    decreases items, 8int,
{
    defs_items(env, ls, items, items.len() as int, width).push(empty_line())
}

pub open spec fn defs_items(env: RenderEnv, ls: Seq<LineView>, items: Seq<DefinitionListItem>, total: int, width: usize) -> Seq<LineView>
    decreases items, 7int,
{
    if items.len() == 0 {
        ls
    } else {
        def_item(env, defs_items(env, ls, items.drop_last(), total, width), items.last(), items.len() - 1, total, width)
    }
}

pub open spec fn def_item(env: RenderEnv, ls: Seq<LineView>, item: DefinitionListItem, idx: int, total: int, width: usize) -> Seq<LineView>
    decreases item, 6int,
{
    let t = add_span_lines(ls, items_spans(item.term@).map_values(|r: RichView| termed(r)), Seq::empty(), width, 0, false, None);
    let d = defs_blocks(env, t, item.definitions@, sat_sub(width as int, 4) as usize);
    if idx + 1 < total && d.len() - ls.len() > 2 {
        d.push(empty_line())
    } else {
        d
    }
}

pub open spec fn defs_blocks(env: RenderEnv, ls: Seq<LineView>, ds: Seq<Vec<Node>>, width: usize) -> Seq<LineView>
    decreases ds, 5int,
{
    if ds.len() == 0 {
        ls
    } else {
        blocks_out(env, defs_blocks(env, ls, ds.drop_last(), width), ds.last()@, width, 2)
    }
}

/// A dotted rule across the width.
pub open spec fn dots_line(width: usize) -> LineView {
    single_line(repeat('.', width as nat), SpanStyle::Rule, LineTypeView::HorizontalRule)
}

/// An EPUB block between dotted rules: its headings as fifth-level ones,
/// its other blocks as they are, an empty line after a paragraph that
/// another block follows and after a code block that a paragraph follows
/// (unless the last line is already marked empty).
pub open spec fn epub_out(env: RenderEnv, ls: Seq<LineView>, content: Seq<Node>, width: usize) -> Seq<LineView>
    decreases content, 8int,
{
    let start = ls.push(dots_line(width)).push(empty_line());
    epub_blocks(env, start, content, None, width).push(dots_line(width)).push(empty_line())
}

pub open spec fn epub_blocks(env: RenderEnv, ls: Seq<LineView>, ns: Seq<Node>, follow: Option<BlockTag>, width: usize) -> Seq<LineView>
    decreases ns, 7int,
{
    if ns.len() == 0 {
        ls
    } else {
        let prev = epub_blocks(env, ls, ns.drop_last(), Some(block_tag(ns.last().block)), width);
        let tag = block_tag(ns.last().block);
        let r = match ns.last().block {
            Block::Heading { content, .. } => heading_out(prev, HeadingLevel::H5, content@, width),
            _ => node_out(env, prev, ns.last(), width, 0, None, RenderContext::InsideContainer),
        };
        let needs = (tag == BlockTag::Paragraph && follow is Some) || (tag == BlockTag::CodeBlock && follow
            == Some(BlockTag::Paragraph));
        if needs && !(r.len() > 0 && r.last().line_type == LineTypeView::Empty) {
            r.push(empty_line())
        } else {
            r
        }
    }
}

/// The lines of a chapter's blocks: each rendered at the top level with
/// its index as its node.
pub open spec fn doc_out(env: RenderEnv, blocks: Seq<Node>, width: usize) -> Seq<LineView>
    decreases blocks.len(),
{
    if blocks.len() == 0 {
        Seq::empty()
    } else {
        node_out(
            env,
            doc_out(env, blocks.drop_last(), width),
            blocks.last(),
            width,
            0,
            Some((blocks.len() - 1) as usize),
            RenderContext::TopLevel,
        )
    }
}

/// Whether a node's code blocks, at the indentation they are rendered at,
/// keep their lines within `usize` with `nc` comments on them.
pub open spec fn node_fits(node: Node, indent: usize, nc: int) -> bool
    decreases node, 9int,
{
    match node.block {
        Block::CodeBlock { content, .. } => 2 * indent + content@.len() + 5 * nc + 4 <= usize::MAX,
        Block::List { items, .. } => items_fit(items@, inc(indent), nc),
        Block::Quote { content } => blocks_fit(content@, inc(indent), nc),
        Block::DefinitionList { items } => defs_fit(items@, nc),
        Block::EpubBlock { content, .. } => blocks_fit(content@, 0, nc),
        _ => true,
    }
}

pub open spec fn blocks_fit(ns: Seq<Node>, indent: usize, nc: int) -> bool
    decreases ns, 5int,
{
    ns.len() == 0 || (blocks_fit(ns.drop_last(), indent, nc) && node_fits(ns.last(), indent, nc))
}

pub open spec fn items_fit(items: Seq<ListItem>, indent: usize, nc: int) -> bool
    decreases items, 7int,
{
    items.len() == 0 || (items_fit(items.drop_last(), indent, nc) && blocks_fit(items.last().content@, indent, nc))
}

pub open spec fn defs_fit(items: Seq<DefinitionListItem>, nc: int) -> bool
    decreases items, 7int,
{
    items.len() == 0 || (defs_fit(items.drop_last(), nc) && defblocks_fit(items.last().definitions@, nc))
}

pub open spec fn defblocks_fit(ds: Seq<Vec<Node>>, nc: int) -> bool
    decreases ds, 5int,
{
    ds.len() == 0 || (defblocks_fit(ds.drop_last(), nc) && blocks_fit(ds.last()@, 2, nc))
}

proof fn lemma_blocks_fit(ns: Seq<Node>, indent: usize, nc: int, k: int)
    requires
        blocks_fit(ns, indent, nc),
        0 <= k < ns.len(),
    ensures
        node_fits(ns[k], indent, nc),
    decreases ns.len(),
{
    if k < ns.len() - 1 {
        assert(ns.drop_last()[k] == ns[k]);
        lemma_blocks_fit(ns.drop_last(), indent, nc, k);
    }
}

proof fn lemma_items_fit(items: Seq<ListItem>, indent: usize, nc: int, k: int)
    requires
        items_fit(items, indent, nc),
        0 <= k < items.len(),
    ensures
        blocks_fit(items[k].content@, indent, nc),
    decreases items.len(),
{
    if k < items.len() - 1 {
        assert(items.drop_last()[k] == items[k]);
        lemma_items_fit(items.drop_last(), indent, nc, k);
    }
}

proof fn lemma_defs_fit(items: Seq<DefinitionListItem>, nc: int, k: int)
    requires
        defs_fit(items, nc),
        0 <= k < items.len(),
    ensures
        defblocks_fit(items[k].definitions@, nc),
    decreases items.len(),
{
    if k < items.len() - 1 {
        assert(items.drop_last()[k] == items[k]);
        lemma_defs_fit(items.drop_last(), nc, k);
    }
}

proof fn lemma_defblocks_fit(ds: Seq<Vec<Node>>, nc: int, k: int)
    requires
        defblocks_fit(ds, nc),
        0 <= k < ds.len(),
    ensures
        blocks_fit(ds[k]@, 2, nc),
    decreases ds.len(),
{
    if k < ds.len() - 1 {
        assert(ds.drop_last()[k] == ds[k]);
        lemma_defblocks_fit(ds.drop_last(), nc, k);
    }
}

/// The spans of a text's items, one after another.
pub fn items_rich(items: &Vec<TextOrInline>) -> (r: Vec<RichSpan>)
    ensures
        rich_view(r@) == items_spans(items@),
{
    let mut out: Vec<RichSpan> = Vec::new();
    let mut k: usize = 0;
    proof {
        assert(items@.take(0) =~= Seq::<TextOrInline>::empty());
    }
    while k < items.len()
        invariant
            k <= items@.len(),
            rich_view(out@) == items_spans(items@.take(k as int)),
        decreases items@.len() - k,
    {
        proof {
            assert(items@.take(k + 1).drop_last() =~= items@.take(k as int));
            assert(items@.take(k + 1).last() == items@[k as int]);
        }
        let ghost before = rich_view(out@);
        let more = render_text_or_inline(&items[k]);
        let mut j: usize = 0;
        while j < more.len()
            invariant
                j <= more@.len(),
                rich_view(out@) == before + rich_view(more@).take(j as int),
            decreases more@.len() - j,
        {
            let ghost pb = rich_view(out@);
            let d = more[j].duplicate();
            out.push(d);
            proof {
                assert(rich_view(out@) =~= pb.push(d@));
                assert(rich_view(more@).take(j + 1) =~= rich_view(more@).take(j as int).push(more@[j as int]@));
            }
            j += 1;
        }
        proof {
            assert(rich_view(more@).take(j as int) =~= rich_view(more@));
        }
        k += 1;
    }
    proof {
        assert(items@.take(k as int) =~= items@);
    }
    out
}

/// The spans drawn as in a quote (`quote`) or as in a definition term.
fn restyled(spans: &Vec<RichSpan>, quote: bool) -> (r: Vec<RichSpan>)
    ensures
        rich_view(r@) == if quote {
            rich_view(spans@).map_values(|x: RichView| quoted(x))
        } else {
            rich_view(spans@).map_values(|x: RichView| termed(x))
        },
{
    let ghost target = if quote {
        rich_view(spans@).map_values(|x: RichView| quoted(x))
    } else {
        rich_view(spans@).map_values(|x: RichView| termed(x))
    };
    let mut out: Vec<RichSpan> = Vec::new();
    let mut k: usize = 0;
    while k < spans.len()
        invariant
            k <= spans@.len(),
            target == if quote {
                rich_view(spans@).map_values(|x: RichView| quoted(x))
            } else {
                rich_view(spans@).map_values(|x: RichView| termed(x))
            },
            rich_view(out@) == target.take(k as int),
        decreases spans@.len() - k,
    {
        let d = spans[k].duplicate();
        let (content, style, info) = match d {
            RichSpan::Text(sp) => (sp.content, sp.style, None),
            RichSpan::Link { span, info } => (span.content, span.style, Some(info)),
        };
        let new_style = match style {
            SpanStyle::Base(b) => if quote {
                SpanStyle::Quoted(b)
            } else {
                SpanStyle::Term(b)
            },
            other => other,
        };
        let r = match info {
            Some(i) => RichSpan::Link { span: StyledSpan { content, style: new_style }, info: i },
            None => RichSpan::Text(StyledSpan { content, style: new_style }),
        };
        let ghost before = rich_view(out@);
        out.push(r);
        proof {
            assert(rich_view(out@) =~= before.push(r@));
            assert(r@ == target[k as int]);
            assert(target.take(k + 1) =~= target.take(k as int).push(target[k as int]));
        }
        k += 1;
    }
    proof {
        assert(target.take(k as int) =~= target);
    }
    out
}

/// How a list item is marked.
fn list_prefix_exec(kind: ListKind, idx: usize) -> (r: String)
    ensures
        r@ == list_prefix(kind, idx as int),
{
    match kind {
        ListKind::Unordered => {
            proof {
                reveal_strlit("• ");
            }
            crate::text::to_string("• ")
        },
        ListKind::Ordered { start } => {
            let n = start.wrapping_add(idx as u32);
            let mut d = crate::widget::entry_height::decimal_exec(n as u128);
            d.push('.');
            d.push(' ');
            proof {
                reveal_strlit(". ");
                assert(d@ =~= crate::widget::entry_height::decimal(n as nat) + ". "@);
            }
            string_from_chars(d.as_slice())
        },
    }
}

/// Marks the lines from `from` on as list lines.
fn mark_list(lines: &mut Vec<ReaderLine>, from: usize, indent: usize, first_item: bool, ni: Option<usize>)
    requires
        from <= old(lines)@.len(),
    ensures
        final(lines)@.len() == old(lines)@.len(),
        lines_view(final(lines)@) == mark_list_lines(lines_view(old(lines)@), from as int, indent, first_item, ni),
{
    let ghost ls = lines_view(lines@);
    proof {
        assert(ls.len() == lines@.len());
    }
    let ghost target = mark_list_lines(ls, from as int, indent, first_item, ni);
    let mut j = from;
    proof {
        assert(lines_view(lines@).take(from as int) =~= target.take(from as int));
    }
    while j < lines.len()
        invariant
            from <= j <= lines@.len(),
            lines@.len() == ls.len(),
            target == mark_list_lines(ls, from as int, indent, first_item, ni),
            lines_view(lines@).take(j as int) == target.take(j as int),
            lines_view(lines@).skip(j as int) == ls.skip(j as int),
        decreases lines@.len() - j,
    {
        let mut tmp = ReaderLine::empty();
        let ghost before = lines@;
        lines.set_and_swap(j, &mut tmp);
        proof {
            assert(tmp@ == ls[j as int]) by {
                assert(lines_view(before).skip(j as int)[0] == ls.skip(j as int)[0]);
            }
        }
        tmp.line_type = LineType::ListItem { indent };
        if j == from && first_item {
            tmp.node_index = ni;
        }
        lines.set(j, tmp);
        proof {
            assert(tmp@ == target[j as int]);
            assert(lines_view(lines@).take(j + 1) =~= target.take(j + 1)) by {
                assert(lines_view(lines@).take(j as int) =~= lines_view(before).take(j as int));
            }
            assert(lines_view(lines@) =~= lines_view(before).update(j as int, tmp@));
            assert(lines_view(before).skip(j + 1) =~= ls.skip(j + 1)) by {
                assert forall|i: int| 0 <= i < ls.len() - (j + 1) implies #[trigger] lines_view(before).skip(j + 1)[i]
                    == ls.skip(j + 1)[i] by {
                    assert(lines_view(before).skip(j as int)[i + 1] == ls.skip(j as int)[i + 1]);
                }
            }
            assert(lines_view(lines@).skip(j + 1) =~= ls.skip(j + 1));
        }
        j += 1;
    }
    proof {
        assert(lines_view(lines@).take(j as int) =~= lines_view(lines@));
        assert(target.take(j as int) =~= target);
    }
}

/// Marks the line at `at` with a node's anchor and index, where it has them.
fn mark_first_line(lines: &mut Vec<ReaderLine>, at: usize, anchor: Option<String>, ni: Option<usize>)
    ensures
        final(lines)@.len() == old(lines)@.len(),
        lines_view(final(lines)@) == mark_first(lines_view(old(lines)@), at as int, opt_chars(anchor), ni),
{
    let ghost ls = lines_view(lines@);
    proof {
        assert(ls.len() == lines@.len());
    }
    if at >= lines.len() {
        return;
    }
    let mut tmp = ReaderLine::empty();
    let ghost before = lines@;
    lines.set_and_swap(at, &mut tmp);
    proof {
        assert(tmp@ == ls[at as int]);
    }
    match anchor {
        Some(a) => {
            tmp.node_anchor = Some(a);
        },
        None => {},
    }
    match ni {
        Some(i) => {
            tmp.node_index = Some(i);
        },
        None => {},
    }
    let ghost t = tmp@;
    lines.set(at, tmp);
    proof {
        assert(lines_view(lines@) =~= ls.update(at as int, t));
        assert(lines_view(lines@) =~= mark_first(ls, at as int, opt_chars(anchor), ni));
    }
}

/// Renders a node after the lines so far: its block by its kind, its first
/// line marked with its anchor and node index.
pub fn render_node(
    env: &RenderEnv,
    node: &Node,
    lines: &mut Vec<ReaderLine>,
    width: usize,
    indent: usize,
    ni: Option<usize>,
    ctx: RenderContext,
)
    requires
        node_fits(*node, indent, env.comments@.len() as int),
    ensures
        final(lines)@.len() >= old(lines)@.len(),
        lines_view(final(lines)@) == node_out(*env, lines_view(old(lines)@), *node, width, indent, ni, ctx),
    decreases *node, 9int,
{
    let start = lines.len();
    match &node.block {
        Block::Heading { level, content } => render_heading(*level, content, lines, width),
        Block::Paragraph { content } => render_paragraph(env, content, lines, width, indent, ni, ctx),
        Block::CodeBlock { language, content } => render_code_lines(env, language, content, lines, width, indent, ni),
        Block::List { kind, items } => render_list(env, *kind, items, lines, width, indent, ni),
        Block::Table { lines: rows } => render_table(rows, lines),
        Block::Quote { content } => render_quote(env, content, lines, width, indent),
        Block::ThematicBreak => render_thematic_break(lines, width),
        Block::DefinitionList { items } => render_definition_list(env, items, lines, width),
        Block::EpubBlock { content, .. } => render_epub_block(env, content, lines, width),
    }
    let anchor = match &node.id {
        Some(id) => Some(id.clone()),
        None => match &node.block {
            Block::Heading { content, .. } => {
                let t = text_to_string(content);
                Some(generate_heading_anchor(t.as_str()))
            },
            _ => None,
        },
    };
    proof {
        assert(opt_chars(anchor) == node_anchor_of(*node));
    }
    mark_first_line(lines, start, anchor, ni);
}

/// Renders nodes one after another inside a container.
pub fn render_blocks(env: &RenderEnv, ns: &Vec<Node>, lines: &mut Vec<ReaderLine>, width: usize, indent: usize)
    requires
        blocks_fit(ns@, indent, env.comments@.len() as int),
    ensures
        final(lines)@.len() >= old(lines)@.len(),
        lines_view(final(lines)@) == blocks_out(*env, lines_view(old(lines)@), ns@, width, indent),
    decreases ns@, 5int,
{
    let ghost ls = lines_view(lines@);
    proof {
        assert(ls.len() == lines@.len());
    }
    let mut k: usize = 0;
    proof {
        assert(ns@.take(0) =~= Seq::<Node>::empty());
    }
    while k < ns.len()
        invariant
            lines@.len() >= ls.len(),
            k <= ns@.len(),
            blocks_fit(ns@, indent, env.comments@.len() as int),
            lines_view(lines@) == blocks_out(*env, ls, ns@.take(k as int), width, indent),
        decreases ns@.len() - k,
    {
        proof {
            assert(ns@.take(k + 1).drop_last() =~= ns@.take(k as int));
            assert(ns@.take(k + 1).last() == ns@[k as int]);
            lemma_blocks_fit(ns@, indent, env.comments@.len() as int, k as int);
        }
        render_node(env, &ns[k], lines, width, indent, None, RenderContext::InsideContainer);
        k += 1;
    }
    proof {
        assert(ns@.take(k as int) =~= ns@);
    }
}

/// Renders a list.
pub fn render_list(
    env: &RenderEnv,
    kind: ListKind,
    items: &Vec<ListItem>,
    lines: &mut Vec<ReaderLine>,
    width: usize,
    indent: usize,
    ni: Option<usize>,
)
    requires
        items_fit(items@, inc(indent), env.comments@.len() as int),
    ensures
        final(lines)@.len() >= old(lines)@.len(),
        lines_view(final(lines)@) == list_out(*env, lines_view(old(lines)@), kind, items@, width, indent, ni),
    decreases items@, 8int,
{
    let ghost ls = lines_view(lines@);
    proof {
        assert(ls.len() == lines@.len());
    }
    let total = items.len();
    let mut k: usize = 0;
    proof {
        assert(items@.take(0) =~= Seq::<ListItem>::empty());
    }
    while k < items.len()
        invariant
            lines@.len() >= ls.len(),
            k <= items@.len(),
            total == items@.len(),
            items_fit(items@, inc(indent), env.comments@.len() as int),
            lines_view(lines@) == list_items_out(*env, ls, kind, items@.take(k as int), total as int, width, indent, ni),
        decreases items@.len() - k,
    {
        proof {
            assert(items@.take(k + 1).drop_last() =~= items@.take(k as int));
            assert(items@.take(k + 1).last() == items@[k as int]);
            lemma_items_fit(items@, inc(indent), env.comments@.len() as int, k as int);
        }
        render_list_item(env, kind, &items[k], k, total, lines, width, indent, ni);
        k += 1;
    }
    proof {
        assert(items@.take(k as int) =~= items@);
    }
    let ghost body = lines_view(lines@);
    match ni {
        Some(i) => {
            let cs = node_comments_of(&env.comments, i);
            lines.push(ReaderLine::empty());
            proof {
                assert(lines_view(lines@) =~= body.push(empty_line()));
            }
            if cs.len() > 0 {
                render_comments(env, &cs, lines, width, indent);
            }
        },
        None => {
            lines.push(ReaderLine::empty());
            proof {
                assert(lines_view(lines@) =~= body.push(empty_line()));
            }
        },
    }
}

/// Renders an item of a list.
fn render_list_item(
    env: &RenderEnv,
    kind: ListKind,
    item: &ListItem,
    idx: usize,
    total: usize,
    lines: &mut Vec<ReaderLine>,
    width: usize,
    indent: usize,
    ni: Option<usize>,
)
    requires
        idx < total,
        blocks_fit(item.content@, inc(indent), env.comments@.len() as int),
    ensures
        final(lines)@.len() >= old(lines)@.len(),
        lines_view(final(lines)@) == item_out(*env, lines_view(old(lines)@), kind, *item, idx as int, total as int, width, indent, ni),
    decreases *item, 6int,
{
    let ghost ls = lines_view(lines@);
    proof {
        assert(ls.len() == lines@.len());
    }
    let blocks = &item.content;
    if blocks.len() == 0 {
        return;
    }
    let before = lines.len();
    let inner = inc_exec(indent);
    proof {
        lemma_blocks_fit(blocks@, inner, env.comments@.len() as int, 0);
    }
    match &blocks[0].block {
        Block::Paragraph { content } => {
            let spans = items_rich(content);
            let prefix = list_prefix_exec(kind, idx);
            render_text_spans(&spans, Some(prefix.as_str()), lines, width, indent, false, None);
            mark_list(lines, before, indent, idx == 0, ni);
        },
        _ => {
            render_node(env, &blocks[0], lines, width, inner, None, RenderContext::InsideContainer);
        },
    }
    let first_count = lines.len() - before;
    let ghost first = lines_view(lines@);
    let ghost rest = blocks@.drop_first();
    let mut j: usize = 1;
    proof {
        assert(rest.take(0) =~= Seq::<Node>::empty());
    }
    while j < blocks.len()
        invariant
            lines@.len() >= ls.len(),
            1 <= j <= blocks@.len(),
            blocks@ == item.content@,
            rest == blocks@.drop_first(),
            blocks_fit(blocks@, inner, env.comments@.len() as int),
            inner == inc(indent),
            lines_view(lines@) == blocks_out(*env, first, rest.take(j - 1), width, inner),
        decreases blocks@.len() - j,
    {
        proof {
            assert(rest.take(j as int).drop_last() =~= rest.take(j - 1));
            assert(rest.take(j as int).last() == blocks@[j as int]);
            lemma_blocks_fit(blocks@, inner, env.comments@.len() as int, j as int);
        }
        proof {
            assert(decreases_to!(*item => item.content));
            assert(decreases_to!(item.content => item.content@));
            assert(decreases_to!(item.content@ => item.content@[j as int]));
        }
        render_node(env, &blocks[j], lines, width, inner, None, RenderContext::InsideContainer);
        j += 1;
    }
    proof {
        assert(rest.take(j - 1) =~= rest);
    }
    if idx + 1 < total && first_count > 2 {
        let ghost b = lines_view(lines@);
        lines.push(ReaderLine::empty());
        proof {
            assert(lines_view(lines@) =~= b.push(empty_line()));
        }
    }
}

/// Renders a quote.
pub fn render_quote(env: &RenderEnv, content: &Vec<Node>, lines: &mut Vec<ReaderLine>, width: usize, indent: usize)
    requires
        blocks_fit(content@, inc(indent), env.comments@.len() as int),
    ensures
        final(lines)@.len() >= old(lines)@.len(),
        lines_view(final(lines)@) == quote_out(*env, lines_view(old(lines)@), content@, width, indent),
    decreases content@, 8int,
{
    let ghost ls = lines_view(lines@);
    proof {
        assert(ls.len() == lines@.len());
    }
    let inner = inc_exec(indent);
    let mut k: usize = 0;
    proof {
        assert(content@.take(0) =~= Seq::<Node>::empty());
    }
    while k < content.len()
        invariant
            lines@.len() >= ls.len(),
            k <= content@.len(),
            inner == inc(indent),
            blocks_fit(content@, inner, env.comments@.len() as int),
            lines_view(lines@) == quote_blocks(*env, ls, content@.take(k as int), width, indent),
        decreases content@.len() - k,
    {
        proof {
            assert(content@.take(k + 1).drop_last() =~= content@.take(k as int));
            assert(content@.take(k + 1).last() == content@[k as int]);
            lemma_blocks_fit(content@, inner, env.comments@.len() as int, k as int);
        }
        match &content[k].block {
            Block::Paragraph { content: pc } => {
                let spans = items_rich(pc);
                let styled = restyled(&spans, true);
                proof {
                    reveal_strlit("> ");
                }
                render_text_spans(&styled, Some("> "), lines, width, indent, false, None);
            },
            _ => {
                render_node(env, &content[k], lines, width, inner, None, RenderContext::InsideContainer);
            },
        }
        k += 1;
    }
    proof {
        assert(content@.take(k as int) =~= content@);
    }
    let ghost b = lines_view(lines@);
    lines.push(ReaderLine::empty());
    proof {
        assert(lines_view(lines@) =~= b.push(empty_line()));
    }
}

/// Renders a definition list.
pub fn render_definition_list(env: &RenderEnv, items: &Vec<DefinitionListItem>, lines: &mut Vec<ReaderLine>, width: usize)
    requires
        defs_fit(items@, env.comments@.len() as int),
    ensures
        final(lines)@.len() >= old(lines)@.len(),
        lines_view(final(lines)@) == deflist_out(*env, lines_view(old(lines)@), items@, width),
    decreases items@, 8int,
{
    let ghost ls = lines_view(lines@);
    proof {
        assert(ls.len() == lines@.len());
    }
    let total = items.len();
    let mut k: usize = 0;
    proof {
        assert(items@.take(0) =~= Seq::<DefinitionListItem>::empty());
    }
    while k < items.len()
        invariant
            lines@.len() >= ls.len(),
            k <= items@.len(),
            total == items@.len(),
            defs_fit(items@, env.comments@.len() as int),
            lines_view(lines@) == defs_items(*env, ls, items@.take(k as int), total as int, width),
        decreases items@.len() - k,
    {
        proof {
            assert(items@.take(k + 1).drop_last() =~= items@.take(k as int));
            assert(items@.take(k + 1).last() == items@[k as int]);
            lemma_defs_fit(items@, env.comments@.len() as int, k as int);
        }
        render_definition_item(env, &items[k], k, total, lines, width);
        k += 1;
    }
    proof {
        assert(items@.take(k as int) =~= items@);
    }
    let ghost b = lines_view(lines@);
    lines.push(ReaderLine::empty());
    proof {
        assert(lines_view(lines@) =~= b.push(empty_line()));
    }
}

fn render_definition_item(
    env: &RenderEnv,
    item: &DefinitionListItem,
    idx: usize,
    total: usize,
    lines: &mut Vec<ReaderLine>,
    width: usize,
)
    requires
        idx < total,
        defblocks_fit(item.definitions@, env.comments@.len() as int),
    ensures
        final(lines)@.len() >= old(lines)@.len(),
        lines_view(final(lines)@) == def_item(*env, lines_view(old(lines)@), *item, idx as int, total as int, width),
    decreases *item, 6int,
{
    let ghost ls = lines_view(lines@);
    proof {
        assert(ls.len() == lines@.len());
    }
    let start = lines.len();
    let spans = items_rich(&item.term);
    let styled = restyled(&spans, false);
    let none: Option<&str> = None;
    render_text_spans(&styled, none, lines, width, 0, false, None);
    let ghost t = lines_view(lines@);
    let dw = width.saturating_sub(4);
    let ds = &item.definitions;
    let mut d: usize = 0;
    proof {
        assert(ds@.take(0) =~= Seq::<Vec<Node>>::empty());
    }
    while d < ds.len()
        invariant
            lines@.len() >= ls.len(),
            d <= ds@.len(),
            ds@ == item.definitions@,
            dw == sat_sub(width as int, 4) as usize,
            defblocks_fit(ds@, env.comments@.len() as int),
            lines_view(lines@) == defs_blocks(*env, t, ds@.take(d as int), dw),
        decreases ds@.len() - d,
    {
        proof {
            assert(ds@.take(d + 1).drop_last() =~= ds@.take(d as int));
            assert(ds@.take(d + 1).last() == ds@[d as int]);
            lemma_defblocks_fit(ds@, env.comments@.len() as int, d as int);
        }
        proof {
            assert(decreases_to!(*item => item.definitions));
            assert(decreases_to!(item.definitions => item.definitions@));
            assert(decreases_to!(item.definitions@ => item.definitions@[d as int]));
            assert(decreases_to!(item.definitions@[d as int] => item.definitions@[d as int]@));
        }
        render_blocks(env, &ds[d], lines, dw, 2);
        d += 1;
    }
    proof {
        assert(ds@.take(d as int) =~= ds@);
    }
    if idx + 1 < total && lines.len() - start > 2 {
        let ghost b = lines_view(lines@);
        lines.push(ReaderLine::empty());
        proof {
            assert(lines_view(lines@) =~= b.push(empty_line()));
        }
    }
}

fn dots_reader_line(width: usize) -> (r: ReaderLine)
    ensures
        r@ == dots_line(width),
{
    let v = repeat_chars('.', width);
    single_reader_line(string_from_chars(v.as_slice()), SpanStyle::Rule, LineType::HorizontalRule)
}

fn tag_of(b: &Block) -> (t: BlockTag)
    ensures
        t == block_tag(*b),
{
    match b {
        Block::Paragraph { .. } => BlockTag::Paragraph,
        Block::CodeBlock { .. } => BlockTag::CodeBlock,
        _ => BlockTag::Other,
    }
}

/// Renders an EPUB block.
pub fn render_epub_block(env: &RenderEnv, content: &Vec<Node>, lines: &mut Vec<ReaderLine>, width: usize)
    requires
        blocks_fit(content@, 0, env.comments@.len() as int),
    ensures
        final(lines)@.len() >= old(lines)@.len(),
        lines_view(final(lines)@) == epub_out(*env, lines_view(old(lines)@), content@, width),
    decreases content@, 8int,
{
    let ghost ls = lines_view(lines@);
    proof {
        assert(ls.len() == lines@.len());
    }
    lines.push(dots_reader_line(width));
    lines.push(ReaderLine::empty());
    let ghost start = lines_view(lines@);
    proof {
        assert(start =~= ls.push(dots_line(width)).push(empty_line()));
    }
    let n = content.len();
    let mut k: usize = 0;
    proof {
        assert(content@.take(0) =~= Seq::<Node>::empty());
    }
    while k < n
        invariant
            lines@.len() >= ls.len(),
            k <= n,
            n == content@.len(),
            blocks_fit(content@, 0, env.comments@.len() as int),
            lines_view(lines@) == epub_blocks(
                *env,
                start,
                content@.take(k as int),
                if k < n {
                    Some(block_tag(content@[k as int].block))
                } else {
                    None
                },
                width,
            ),
        decreases n - k,
    {
        proof {
            assert(content@.take(k + 1).drop_last() =~= content@.take(k as int));
            assert(content@.take(k + 1).last() == content@[k as int]);
            lemma_blocks_fit(content@, 0, env.comments@.len() as int, k as int);
        }
        let tag = tag_of(&content[k].block);
        match &content[k].block {
            Block::Heading { content: hc, .. } => render_heading(HeadingLevel::H5, hc, lines, width),
            _ => render_node(env, &content[k], lines, width, 0, None, RenderContext::InsideContainer),
        }
        let follow = if k + 1 < n {
            Some(tag_of(&content[k + 1].block))
        } else {
            None
        };
        let needs = (tag == BlockTag::Paragraph && follow.is_some()) || (tag == BlockTag::CodeBlock && follow
            == Some(BlockTag::Paragraph));
        let last_empty = lines.len() > 0 && match lines[lines.len() - 1].line_type {
            LineType::Empty => true,
            _ => false,
        };
        if needs && !last_empty {
            let ghost b = lines_view(lines@);
            lines.push(ReaderLine::empty());
            proof {
                assert(lines_view(lines@) =~= b.push(empty_line()));
            }
        }
        proof {
            assert(lines_view(lines@) == epub_blocks(
                *env,
                start,
                content@.take(k + 1),
                if k + 1 < n {
                    Some(block_tag(content@[k + 1].block))
                } else {
                    None
                },
                width,
            ));
        }
        k += 1;
    }
    proof {
        assert(content@.take(k as int) =~= content@);
    }
    let ghost b = lines_view(lines@);
    lines.push(dots_reader_line(width));
    lines.push(ReaderLine::empty());
    proof {
        assert(lines_view(lines@) =~= b.push(dots_line(width)).push(empty_line()));
    }
}

/// Renders a chapter's blocks into the reader's lines, each at the top level
/// with its index as its node.
pub fn render_document_to_lines(env: &RenderEnv, blocks: &Vec<Node>, width: usize) -> (r: Vec<ReaderLine>)
    requires
        blocks_fit(blocks@, 0, env.comments@.len() as int),
    ensures
        lines_view(r@) == doc_out(*env, blocks@, width),
{
    let mut lines: Vec<ReaderLine> = Vec::new();
    let mut k: usize = 0;
    proof {
        assert(blocks@.take(0) =~= Seq::<Node>::empty());
        assert(lines_view(lines@) =~= Seq::<LineView>::empty());
    }
    while k < blocks.len()
        invariant
            k <= blocks@.len(),
            blocks_fit(blocks@, 0, env.comments@.len() as int),
            lines_view(lines@) == doc_out(*env, blocks@.take(k as int), width),
        decreases blocks@.len() - k,
    {
        proof {
            assert(blocks@.take(k + 1).drop_last() =~= blocks@.take(k as int));
            assert(blocks@.take(k + 1).last() == blocks@[k as int]);
            lemma_blocks_fit(blocks@, 0, env.comments@.len() as int, k as int);
        }
        render_node(env, &blocks[k], &mut lines, width, 0, Some(k), RenderContext::TopLevel);
        k += 1;
    }
    proof {
        assert(blocks@.take(k as int) =~= blocks@);
    }
    lines
}

/// Whether a chapter's code blocks keep their lines within `usize` with
/// `nc` comments: what [`render_document_to_lines`] asks of its blocks.
pub fn document_fits(blocks: &Vec<Node>, nc: usize) -> (b: bool)
    ensures
        b == blocks_fit(blocks@, 0, nc as int),
{
    blocks_fit_exec(blocks, 0, nc)
}

fn node_fits_exec(node: &Node, indent: usize, nc: usize) -> (b: bool)
    ensures
        b == node_fits(*node, indent, nc as int),
    decreases *node, 9int,
{
    match &node.block {
        Block::CodeBlock { content, .. } => {
            let len = chars_of(content.as_str()).len();
            (2 * (indent as u128)) + (len as u128) + 5 * (nc as u128) + 4 <= (usize::MAX as u128)
        },
        Block::List { items, .. } => items_fit_exec(items, inc_exec(indent), nc),
        Block::Quote { content } => blocks_fit_exec(content, inc_exec(indent), nc),
        Block::DefinitionList { items } => defs_fit_exec(items, nc),
        Block::EpubBlock { content, .. } => blocks_fit_exec(content, 0, nc),
        _ => true,
    }
}

fn blocks_fit_exec(ns: &Vec<Node>, indent: usize, nc: usize) -> (b: bool)
    ensures
        b == blocks_fit(ns@, indent, nc as int),
    decreases ns@, 5int,
{
    let mut k: usize = 0;
    proof {
        assert(ns@.take(0) =~= Seq::<Node>::empty());
    }
    while k < ns.len()
        invariant
            k <= ns@.len(),
            blocks_fit(ns@.take(k as int), indent, nc as int),
        decreases ns@.len() - k,
    {
        proof {
            assert(ns@.take(k + 1).drop_last() =~= ns@.take(k as int));
            assert(ns@.take(k + 1).last() == ns@[k as int]);
        }
        if !node_fits_exec(&ns[k], indent, nc) {
            proof {
                if blocks_fit(ns@, indent, nc as int) {
                    lemma_blocks_fit(ns@, indent, nc as int, k as int);
                }
            }
            return false;
        }
        k += 1;
    }
    proof {
        assert(ns@.take(k as int) =~= ns@);
    }
    true
}

fn items_fit_exec(items: &Vec<ListItem>, indent: usize, nc: usize) -> (b: bool)
    ensures
        b == items_fit(items@, indent, nc as int),
    decreases items@, 7int,
{
    let mut k: usize = 0;
    proof {
        assert(items@.take(0) =~= Seq::<ListItem>::empty());
    }
    while k < items.len()
        invariant
            k <= items@.len(),
            items_fit(items@.take(k as int), indent, nc as int),
        decreases items@.len() - k,
    {
        proof {
            assert(items@.take(k + 1).drop_last() =~= items@.take(k as int));
            assert(items@.take(k + 1).last() == items@[k as int]);
        }
        if !blocks_fit_exec(&items[k].content, indent, nc) {
            proof {
                if items_fit(items@, indent, nc as int) {
                    lemma_items_fit(items@, indent, nc as int, k as int);
                }
            }
            return false;
        }
        k += 1;
    }
    proof {
        assert(items@.take(k as int) =~= items@);
    }
    true
}

fn defs_fit_exec(items: &Vec<DefinitionListItem>, nc: usize) -> (b: bool)
    ensures
        b == defs_fit(items@, nc as int),
    decreases items@, 7int,
{
    let mut k: usize = 0;
    proof {
        assert(items@.take(0) =~= Seq::<DefinitionListItem>::empty());
    }
    while k < items.len()
        invariant
            k <= items@.len(),
            defs_fit(items@.take(k as int), nc as int),
        decreases items@.len() - k,
    {
        proof {
            assert(items@.take(k + 1).drop_last() =~= items@.take(k as int));
            assert(items@.take(k + 1).last() == items@[k as int]);
        }
        if !defblocks_fit_exec(&items[k].definitions, nc) {
            proof {
                if defs_fit(items@, nc as int) {
                    lemma_defs_fit(items@, nc as int, k as int);
                }
            }
            return false;
        }
        k += 1;
    }
    proof {
        assert(items@.take(k as int) =~= items@);
    }
    true
}

fn defblocks_fit_exec(ds: &Vec<Vec<Node>>, nc: usize) -> (b: bool)
    ensures
        b == defblocks_fit(ds@, nc as int),
    decreases ds@, 5int,
{
    let mut k: usize = 0;
    proof {
        assert(ds@.take(0) =~= Seq::<Vec<Node>>::empty());
    }
    while k < ds.len()
        invariant
            k <= ds@.len(),
            defblocks_fit(ds@.take(k as int), nc as int),
        decreases ds@.len() - k,
    {
        proof {
            assert(ds@.take(k + 1).drop_last() =~= ds@.take(k as int));
            assert(ds@.take(k + 1).last() == ds@[k as int]);
        }
        if !blocks_fit_exec(&ds[k], 2, nc) {
            proof {
                if defblocks_fit(ds@, nc as int) {
                    lemma_defblocks_fit(ds@, nc as int, k as int);
                }
            }
            return false;
        }
        k += 1;
    }
    proof {
        assert(ds@.take(k as int) =~= ds@);
    }
    true
}

/// The anchors a text's inline anchors record at a line, in order.
pub open spec fn inline_anchors(items: Seq<TextOrInline>, line: usize) -> Seq<(Seq<char>, usize)>
    decreases items.len(),
{
    if items.len() == 0 {
        Seq::empty()
    } else {
        inline_anchors(items.drop_last(), line) + match items.last() {
            TextOrInline::Inline(Inline::Anchor { id }) => seq![(id@, line)],
            _ => Seq::empty(),
        }
    }
}

/// The anchors a node records at the line it starts at, in the order they
/// are recorded: its identifier; for a heading without one, the anchor made
/// from its text; then the inline anchors of a heading or paragraph.
pub open spec fn node_anchors(node: Node, line: usize) -> Seq<(Seq<char>, usize)> {
    (match node.id {
        Some(id) => seq![(id@, line)],
        None => Seq::empty(),
    }) + match node.block {
        Block::Heading { content, .. } => (if node.id is None {
            seq![(heading_anchor(text_string(content@)), line)]
        } else {
            Seq::empty()
        }) + inline_anchors(content@, line),
        Block::Paragraph { content } => inline_anchors(content@, line),
        _ => Seq::empty(),
    }
}

pub open spec fn anchors_view(v: Seq<(String, usize)>) -> Seq<(Seq<char>, usize)> {
    v.map_values(|p: (String, usize)| (p.0@, p.1))
}

fn push_inline_anchors(items: &Vec<TextOrInline>, line: usize, out: &mut Vec<(String, usize)>)
    ensures
        anchors_view(final(out)@) == anchors_view(old(out)@) + inline_anchors(items@, line),
{
    let ghost start = anchors_view(out@);
    let mut k: usize = 0;
    proof {
        assert(items@.take(0) =~= Seq::<TextOrInline>::empty());
    }
    while k < items.len()
        invariant
            k <= items@.len(),
            anchors_view(out@) == start + inline_anchors(items@.take(k as int), line),
        decreases items@.len() - k,
    {
        proof {
            assert(items@.take(k + 1).drop_last() =~= items@.take(k as int));
            assert(items@.take(k + 1).last() == items@[k as int]);
        }
        let ghost before = anchors_view(out@);
        match &items[k] {
            TextOrInline::Inline(Inline::Anchor { id }) => {
                out.push((id.clone(), line));
                proof {
                    assert(anchors_view(out@) =~= before.push((id@, line)));
                }
            },
            _ => {},
        }
        proof {
            assert(anchors_view(out@) =~= start + inline_anchors(items@.take(k + 1), line));
        }
        k += 1;
    }
    proof {
        assert(items@.take(k as int) =~= items@);
    }
}

/// The anchors a node records at `current_line`, the line it starts at.
pub fn extract_and_track_anchors_from_node(node: &Node, current_line: usize) -> (r: Vec<(String, usize)>)
    ensures
        anchors_view(r@) == node_anchors(*node, current_line),
{
    let mut out: Vec<(String, usize)> = Vec::new();
    match &node.id {
        Some(id) => {
            out.push((id.clone(), current_line));
        },
        None => {},
    }
    let ghost head = anchors_view(out@);
    proof {
        assert(head =~= match node.id {
            Some(id) => seq![(id@, current_line)],
            None => Seq::<(Seq<char>, usize)>::empty(),
        });
    }
    match &node.block {
        Block::Heading { content, .. } => {
            if node.id.is_none() {
                let t = text_to_string(content);
                let a = generate_heading_anchor(t.as_str());
                out.push((a, current_line));
            }
            let ghost mid = anchors_view(out@);
            proof {
                assert(mid =~= head + (if node.id is None {
                    seq![(heading_anchor(text_string(content@)), current_line)]
                } else {
                    Seq::<(Seq<char>, usize)>::empty()
                }));
            }
            push_inline_anchors(content, current_line, &mut out);
            proof {
                assert(anchors_view(out@) =~= node_anchors(*node, current_line));
            }
        },
        Block::Paragraph { content } => {
            push_inline_anchors(content, current_line, &mut out);
            proof {
                assert(anchors_view(out@) =~= node_anchors(*node, current_line));
            }
        },
        _ => {
            proof {
                assert(anchors_view(out@) =~= node_anchors(*node, current_line));
            }
        },
    }
    out
}

/// `b` holds the lines of `a`, unchanged, and perhaps more after them.
pub open spec fn extends(a: Seq<LineView>, b: Seq<LineView>) -> bool {
    a.len() <= b.len() && forall|j: int| 0 <= j < a.len() ==> #[trigger] b[j] == a[j]
}

proof fn lemma_extends_trans(a: Seq<LineView>, b: Seq<LineView>, c: Seq<LineView>)
    requires
        extends(a, b),
        extends(b, c),
    ensures
        extends(a, c),
{
    assert forall|j: int| 0 <= j < a.len() implies #[trigger] c[j] == a[j] by {
        assert(c[j] == b[j]);
    }
}

proof fn lemma_extends_append(a: Seq<LineView>, x: Seq<LineView>)
    ensures
        extends(a, a + x),
{
    assert forall|j: int| 0 <= j < a.len() implies #[trigger] (a + x)[j] == a[j] by {}
}

proof fn lemma_comments_out_extends(env: RenderEnv, ls: Seq<LineView>, cs: Seq<CommentView>, width: usize, indent: usize)
    ensures
        extends(ls, comments_out(env, ls, cs, width, indent)),
    decreases cs.len(),
{
    if cs.len() > 0 {
        lemma_comments_out_extends(env, ls, cs.drop_last(), width, indent);
        let prev = comments_out(env, ls, cs.drop_last(), width, indent);
        let c = cs.last();
        match quote_rows(c, is_editing(env.edit_mode, c), width, indent) {
            Some(rows) => {
                lemma_extends_append(prev, Seq::new(rows.len(), |j: int| comment_row_line(c, rows[j], j == rows.len() - 1)));
                lemma_extends_trans(ls, prev, comment_out(env, prev, c, width, indent));
            },
            None => {},
        }
    }
}

proof fn lemma_para_fold_extends(ls: Seq<LineView>, items: Seq<TextOrInline>, width: usize, indent: usize, ni: Option<usize>)
    ensures
        extends(ls, para_fold(ls, items, width, indent, ni).0),
    decreases items.len(),
{
    if items.len() > 0 {
        lemma_para_fold_extends(ls, items.drop_last(), width, indent, ni);
        let prev = para_fold(ls, items.drop_last(), width, indent, ni);
        match items.last() {
            TextOrInline::Inline(Inline::Image { url, placeholder, .. }) => {
                let l2 = if prev.1.len() > 0 {
                    add_span_lines(prev.0, prev.1, Seq::empty(), width, indent, false, ni)
                } else {
                    prev.0
                };
                if prev.1.len() > 0 {
                    lemma_extends_append(prev.0, span_lines(prev.1, Seq::empty(), width as int, indent as int, false, ni, prev.0.len() as int));
                    lemma_extends_trans(ls, prev.0, l2);
                }
                let img = image_out(l2, url@, strings_view(placeholder@));
                assert(img =~= l2 + (seq![empty_line()] + strings_view(placeholder@).map_values(
                    |r: Seq<char>| single_line(r, SpanStyle::Base(BaseStyle::Plain), LineTypeView::ImagePlaceholder { src: url@ }),
                ) + seq![empty_line()]));
                lemma_extends_append(l2, img.subrange(l2.len() as int, img.len() as int));
                assert(img =~= l2 + img.subrange(l2.len() as int, img.len() as int));
                lemma_extends_trans(ls, l2, img);
            },
            _ => {},
        }
    }
}

proof fn lemma_paragraph_extends(
    env: RenderEnv,
    ls: Seq<LineView>,
    content: Seq<TextOrInline>,
    width: usize,
    indent: usize,
    ni: Option<usize>,
    ctx: RenderContext,
)
    ensures
        extends(ls, paragraph_out(env, ls, content, width, indent, ni, ctx)),
{
    if ctx == RenderContext::InsideContainer && !has_visible(content) {
        lemma_extends_append(ls, Seq::empty());
        assert(ls + Seq::<LineView>::empty() =~= ls);
    } else {
        let f = para_fold(ls, content, width, indent, ni);
        lemma_para_fold_extends(ls, content, width, indent, ni);
        let l3 = if f.1.len() > 0 {
            add_span_lines(f.0, f.1, Seq::empty(), width, indent, ctx == RenderContext::TopLevel, ni)
        } else if !f.2 {
            f.0.push(blank_line())
        } else {
            f.0
        };
        if f.1.len() > 0 {
            lemma_extends_append(f.0, span_lines(f.1, Seq::empty(), width as int, indent as int, ctx == RenderContext::TopLevel, ni, f.0.len() as int));
        } else if !f.2 {
            lemma_extends_append(f.0, seq![blank_line()]);
            assert(f.0.push(blank_line()) =~= f.0 + seq![blank_line()]);
        } else {
            lemma_extends_append(f.0, Seq::empty());
            assert(f.0 + Seq::<LineView>::empty() =~= f.0);
        }
        lemma_extends_trans(ls, f.0, l3);
        match ni {
            Some(i) => {
                lemma_comments_out_extends(env, l3, node_cs(comments_view(env.comments@), i), width, indent);
                lemma_extends_trans(ls, l3, paragraph_out(env, ls, content, width, indent, ni, ctx));
            },
            None => {},
        }
    }
}

proof fn lemma_push_extends(a: Seq<LineView>, l: LineView)
    ensures
        extends(a, a.push(l)),
{
    lemma_extends_append(a, seq![l]);
    assert(a.push(l) =~= a + seq![l]);
}

/// Rendering a node leaves every line before it as it was: what a node
/// renders goes after the lines already there.
pub proof fn law_render_keeps_earlier_lines(
    env: RenderEnv,
    ls: Seq<LineView>,
    node: Node,
    width: usize,
    indent: usize,
    ni: Option<usize>,
    ctx: RenderContext,
)
    ensures
        extends(ls, node_out(env, ls, node, width, indent, ni, ctx)),
    decreases node, 9int,
{
    let body = match node.block {
        Block::Heading { level, content } => heading_out(ls, level, content@, width),
        Block::Paragraph { content } => paragraph_out(env, ls, content@, width, indent, ni, ctx),
        Block::CodeBlock { language, content } => code_out(env, ls, opt_chars(language), content@, width, indent, ni),
        Block::List { kind, items } => list_out(env, ls, kind, items@, width, indent, ni),
        Block::Table { lines } => table_out(ls, strings_view(lines@)),
        Block::Quote { content } => quote_out(env, ls, content@, width, indent),
        Block::ThematicBreak => break_out(ls, width),
        Block::DefinitionList { items } => deflist_out(env, ls, items@, width),
        Block::EpubBlock { content, .. } => epub_out(env, ls, content@, width),
    };
    match node.block {
        Block::Heading { level, content } => {
            lemma_extends_append(ls, body.subrange(ls.len() as int, body.len() as int));
            assert(body =~= ls + body.subrange(ls.len() as int, body.len() as int));
        },
        Block::Paragraph { content } => lemma_paragraph_extends(env, ls, content@, width, indent, ni, ctx),
        Block::CodeBlock { language, content } => {
            lemma_extends_append(ls, body.subrange(ls.len() as int, body.len() as int));
            assert(body =~= ls + body.subrange(ls.len() as int, body.len() as int));
        },
        Block::List { kind, items } => lemma_list_extends(env, ls, kind, items@, width, indent, ni),
        Block::Table { lines } => {
            if strings_view(lines@).len() == 0 {
                lemma_extends_append(ls, Seq::empty());
                assert(ls + Seq::<LineView>::empty() =~= ls);
            } else {
                lemma_extends_append(ls, body.subrange(ls.len() as int, body.len() as int));
                assert(body =~= ls + body.subrange(ls.len() as int, body.len() as int));
            }
        },
        Block::Quote { content } => lemma_quote_extends(env, ls, content@, width, indent),
        Block::ThematicBreak => {
            lemma_extends_append(ls, body.subrange(ls.len() as int, body.len() as int));
            assert(body =~= ls + body.subrange(ls.len() as int, body.len() as int));
        },
        Block::DefinitionList { items } => lemma_deflist_extends(env, ls, items@, width),
        Block::EpubBlock { content, .. } => lemma_epub_extends(env, ls, content@, width),
    }
    let r = mark_first(body, ls.len() as int, node_anchor_of(node), ni);
    assert forall|j: int| 0 <= j < ls.len() implies #[trigger] r[j] == ls[j] by {
        assert(body[j] == ls[j]);
    }
}

proof fn lemma_blocks_extends(env: RenderEnv, ls: Seq<LineView>, ns: Seq<Node>, width: usize, indent: usize)
    ensures
        extends(ls, blocks_out(env, ls, ns, width, indent)),
    decreases ns, 5int,
{
    if ns.len() == 0 {
        lemma_extends_append(ls, Seq::empty());
        assert(ls + Seq::<LineView>::empty() =~= ls);
    } else {
        lemma_blocks_extends(env, ls, ns.drop_last(), width, indent);
        let prev = blocks_out(env, ls, ns.drop_last(), width, indent);
        law_render_keeps_earlier_lines(env, prev, ns.last(), width, indent, None, RenderContext::InsideContainer);
        lemma_extends_trans(ls, prev, blocks_out(env, ls, ns, width, indent));
    }
}

/// Every block of a list item gives its lines: for the last item of a list,
/// an item with one block more than another (and the same blocks before it)
/// renders as the other, followed by the lines of that last block rendered
/// one level in. So an item's lines are its first block's lines followed by
/// those of each further block in turn, one level in.
pub proof fn law_item_blocks_all_rendered(
    env: RenderEnv,
    ls: Seq<LineView>,
    kind: ListKind,
    item: ListItem,
    shorter: ListItem,
    idx: int,
    total: int,
    width: usize,
    indent: usize,
    ni: Option<usize>,
)
    requires
        item.content@.len() >= 2,
        shorter.content@ == item.content@.drop_last(),
        idx + 1 >= total,
    ensures
        item_out(env, ls, kind, item, idx, total, width, indent, ni) == node_out(
            env,
            item_out(env, ls, kind, shorter, idx, total, width, indent, ni),
            item.content@.last(),
            width,
            inc(indent),
            None,
            RenderContext::InsideContainer,
        ),
{
    let blocks = item.content@;
    let fewer = shorter.content@;
    assert(blocks[0] == fewer[0]);
    assert(blocks.drop_first().drop_last() =~= fewer.drop_first());
    assert(blocks.drop_first().last() == blocks.last());
}

proof fn lemma_list_extends(
    env: RenderEnv,
    ls: Seq<LineView>,
    kind: ListKind,
    items: Seq<ListItem>,
    width: usize,
    indent: usize,
    ni: Option<usize>,
)
    ensures
        extends(ls, list_out(env, ls, kind, items, width, indent, ni)),
    decreases items, 8int,
{
    lemma_list_items_extends(env, ls, kind, items, items.len() as int, width, indent, ni);
    let body = list_items_out(env, ls, kind, items, items.len() as int, width, indent, ni);
    lemma_push_extends(body, empty_line());
    lemma_extends_trans(ls, body, body.push(empty_line()));
    match ni {
        Some(i) => if node_cs(comments_view(env.comments@), i).len() > 0 {
            lemma_comments_out_extends(env, body.push(empty_line()), node_cs(comments_view(env.comments@), i), width, indent);
            lemma_extends_trans(ls, body.push(empty_line()), list_out(env, ls, kind, items, width, indent, ni));
        },
        None => {},
    }
}

proof fn lemma_list_items_extends(
    env: RenderEnv,
    ls: Seq<LineView>,
    kind: ListKind,
    items: Seq<ListItem>,
    total: int,
    width: usize,
    indent: usize,
    ni: Option<usize>,
)
    ensures
        extends(ls, list_items_out(env, ls, kind, items, total, width, indent, ni)),
    decreases items, 7int,
{
    if items.len() == 0 {
        lemma_extends_append(ls, Seq::empty());
        assert(ls + Seq::<LineView>::empty() =~= ls);
    } else {
        lemma_list_items_extends(env, ls, kind, items.drop_last(), total, width, indent, ni);
        let prev = list_items_out(env, ls, kind, items.drop_last(), total, width, indent, ni);
        lemma_item_extends(env, prev, kind, items.last(), items.len() - 1, total, width, indent, ni);
        lemma_extends_trans(ls, prev, list_items_out(env, ls, kind, items, total, width, indent, ni));
    }
}

proof fn lemma_item_extends(
    env: RenderEnv,
    ls: Seq<LineView>,
    kind: ListKind,
    item: ListItem,
    idx: int,
    total: int,
    width: usize,
    indent: usize,
    ni: Option<usize>,
)
    ensures
        extends(ls, item_out(env, ls, kind, item, idx, total, width, indent, ni)),
    decreases item, 6int,
{
    let blocks = item.content@;
    if blocks.len() == 0 {
        lemma_extends_append(ls, Seq::empty());
        assert(ls + Seq::<LineView>::empty() =~= ls);
    } else {
        let first = match blocks[0].block {
            Block::Paragraph { content } => mark_list_lines(
                add_span_lines(ls, items_spans(content@), list_prefix(kind, idx), width, indent, false, None),
                ls.len() as int,
                indent,
                idx == 0,
                ni,
            ),
            _ => node_out(env, ls, blocks[0], width, inc(indent), None, RenderContext::InsideContainer),
        };
        match blocks[0].block {
            Block::Paragraph { content } => {
                let added = add_span_lines(ls, items_spans(content@), list_prefix(kind, idx), width, indent, false, None);
                lemma_extends_append(ls, span_lines(items_spans(content@), list_prefix(kind, idx), width as int, indent as int, false, None, ls.len() as int));
                assert forall|j: int| 0 <= j < ls.len() implies #[trigger] first[j] == ls[j] by {
                    assert(added[j] == ls[j]);
                }
            },
            _ => law_render_keeps_earlier_lines(env, ls, blocks[0], width, inc(indent), None, RenderContext::InsideContainer),
        }
        lemma_blocks_extends(env, first, blocks.drop_first(), width, inc(indent));
        let rest = blocks_out(env, first, blocks.drop_first(), width, inc(indent));
        lemma_extends_trans(ls, first, rest);
        lemma_push_extends(rest, empty_line());
        lemma_extends_trans(ls, rest, rest.push(empty_line()));
    }
}

proof fn lemma_quote_extends(env: RenderEnv, ls: Seq<LineView>, content: Seq<Node>, width: usize, indent: usize)
    ensures
        extends(ls, quote_out(env, ls, content, width, indent)),
    decreases content, 8int,
{
    lemma_quote_blocks_extends(env, ls, content, width, indent);
    let b = quote_blocks(env, ls, content, width, indent);
    lemma_push_extends(b, empty_line());
    lemma_extends_trans(ls, b, b.push(empty_line()));
}

proof fn lemma_quote_blocks_extends(env: RenderEnv, ls: Seq<LineView>, ns: Seq<Node>, width: usize, indent: usize)
    ensures
        extends(ls, quote_blocks(env, ls, ns, width, indent)),
    decreases ns, 7int,
{
    if ns.len() == 0 {
        lemma_extends_append(ls, Seq::empty());
        assert(ls + Seq::<LineView>::empty() =~= ls);
    } else {
        lemma_quote_blocks_extends(env, ls, ns.drop_last(), width, indent);
        let prev = quote_blocks(env, ls, ns.drop_last(), width, indent);
        match ns.last().block {
            Block::Paragraph { content } => {
                lemma_extends_append(prev, span_lines(
                    items_spans(content@).map_values(|r: RichView| quoted(r)),
                    "> "@,
                    width as int,
                    indent as int,
                    false,
                    None,
                    prev.len() as int,
                ));
            },
            _ => law_render_keeps_earlier_lines(env, prev, ns.last(), width, inc(indent), None, RenderContext::InsideContainer),
        }
        lemma_extends_trans(ls, prev, quote_blocks(env, ls, ns, width, indent));
    }
}

proof fn lemma_deflist_extends(env: RenderEnv, ls: Seq<LineView>, items: Seq<DefinitionListItem>, width: usize)
    ensures
        extends(ls, deflist_out(env, ls, items, width)),
    decreases items, 8int,
{
    lemma_defs_items_extends(env, ls, items, items.len() as int, width);
    let b = defs_items(env, ls, items, items.len() as int, width);
    lemma_push_extends(b, empty_line());
    lemma_extends_trans(ls, b, b.push(empty_line()));
}

proof fn lemma_defs_items_extends(env: RenderEnv, ls: Seq<LineView>, items: Seq<DefinitionListItem>, total: int, width: usize)
    ensures
        extends(ls, defs_items(env, ls, items, total, width)),
    decreases items, 7int,
{
    if items.len() == 0 {
        lemma_extends_append(ls, Seq::empty());
        assert(ls + Seq::<LineView>::empty() =~= ls);
    } else {
        lemma_defs_items_extends(env, ls, items.drop_last(), total, width);
        let prev = defs_items(env, ls, items.drop_last(), total, width);
        lemma_def_item_extends(env, prev, items.last(), items.len() - 1, total, width);
        lemma_extends_trans(ls, prev, defs_items(env, ls, items, total, width));
    }
}

proof fn lemma_def_item_extends(env: RenderEnv, ls: Seq<LineView>, item: DefinitionListItem, idx: int, total: int, width: usize)
    ensures
        extends(ls, def_item(env, ls, item, idx, total, width)),
    decreases item, 6int,
{
    let t = add_span_lines(ls, items_spans(item.term@).map_values(|r: RichView| termed(r)), Seq::empty(), width, 0, false, None);
    lemma_extends_append(ls, span_lines(items_spans(item.term@).map_values(|r: RichView| termed(r)), Seq::empty(), width as int, 0, false, None, ls.len() as int));
    lemma_defs_blocks_extends(env, t, item.definitions@, sat_sub(width as int, 4) as usize);
    let d = defs_blocks(env, t, item.definitions@, sat_sub(width as int, 4) as usize);
    lemma_extends_trans(ls, t, d);
    lemma_push_extends(d, empty_line());
    lemma_extends_trans(ls, d, d.push(empty_line()));
}

proof fn lemma_defs_blocks_extends(env: RenderEnv, ls: Seq<LineView>, ds: Seq<Vec<Node>>, width: usize)
    ensures
        extends(ls, defs_blocks(env, ls, ds, width)),
    decreases ds, 5int,
{
    if ds.len() == 0 {
        lemma_extends_append(ls, Seq::empty());
        assert(ls + Seq::<LineView>::empty() =~= ls);
    } else {
        lemma_defs_blocks_extends(env, ls, ds.drop_last(), width);
        let prev = defs_blocks(env, ls, ds.drop_last(), width);
        lemma_blocks_extends(env, prev, ds.last()@, width, 2);
        lemma_extends_trans(ls, prev, defs_blocks(env, ls, ds, width));
    }
}

proof fn lemma_epub_extends(env: RenderEnv, ls: Seq<LineView>, content: Seq<Node>, width: usize)
    ensures
        extends(ls, epub_out(env, ls, content, width)),
    decreases content, 8int,
{
    let start = ls.push(dots_line(width)).push(empty_line());
    lemma_push_extends(ls, dots_line(width));
    lemma_push_extends(ls.push(dots_line(width)), empty_line());
    lemma_extends_trans(ls, ls.push(dots_line(width)), start);
    lemma_epub_blocks_extends(env, start, content, None, width);
    let b = epub_blocks(env, start, content, None, width);
    lemma_extends_trans(ls, start, b);
    lemma_push_extends(b, dots_line(width));
    lemma_push_extends(b.push(dots_line(width)), empty_line());
    lemma_extends_trans(ls, b, b.push(dots_line(width)));
    lemma_extends_trans(ls, b.push(dots_line(width)), b.push(dots_line(width)).push(empty_line()));
}

proof fn lemma_epub_blocks_extends(env: RenderEnv, ls: Seq<LineView>, ns: Seq<Node>, follow: Option<BlockTag>, width: usize)
    ensures
        extends(ls, epub_blocks(env, ls, ns, follow, width)),
    decreases ns, 7int,
{
    if ns.len() == 0 {
        lemma_extends_append(ls, Seq::empty());
        assert(ls + Seq::<LineView>::empty() =~= ls);
    } else {
        let tag = block_tag(ns.last().block);
        lemma_epub_blocks_extends(env, ls, ns.drop_last(), Some(tag), width);
        let prev = epub_blocks(env, ls, ns.drop_last(), Some(tag), width);
        let r = match ns.last().block {
            Block::Heading { content, .. } => heading_out(prev, HeadingLevel::H5, content@, width),
            _ => node_out(env, prev, ns.last(), width, 0, None, RenderContext::InsideContainer),
        };
        match ns.last().block {
            Block::Heading { content, .. } => {
                lemma_extends_append(prev, r.subrange(prev.len() as int, r.len() as int));
                assert(r =~= prev + r.subrange(prev.len() as int, r.len() as int));
            },
            _ => law_render_keeps_earlier_lines(env, prev, ns.last(), width, 0, None, RenderContext::InsideContainer),
        }
        lemma_extends_trans(ls, prev, r);
        lemma_push_extends(r, empty_line());
        lemma_extends_trans(ls, r, r.push(empty_line()));
    }
}

} // verus!
