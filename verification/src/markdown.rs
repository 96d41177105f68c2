//! The chapter's document as the reader renders it: blocks of styled text,
//! links and images, and the spans a rendered line is made of.
use vstd::prelude::*;
use crate::text::{chars_of, push_all, string_from_chars};

verus! {

/// How a run of text is styled in the document.
#[derive(Clone, Copy, Debug, PartialEq, Eq, Structural)]
pub enum TextStyle {
    Strong,
    Emphasis,
    Code,
    Strikethrough,
}

/// Where a link leads.
#[derive(Clone, Copy, Debug, PartialEq, Eq, Structural)]
pub enum LinkType {
    External,
    InternalChapter,
    InternalAnchor,
}

/// A run of text with its style.
pub struct TextNode {
    pub content: String,
    pub style: Option<TextStyle>,
}

/// An inline element of a text.
pub enum Inline {
    Link {
        text: Vec<TextOrInline>,
        url: String,
        link_type: LinkType,
        target_chapter: Option<String>,
        target_anchor: Option<String>,
    },
    /// An image: its alternative text, its source, and the lines its
    /// placeholder is drawn as until it is shown.
    Image { alt_text: String, url: String, placeholder: Vec<String> },
    Anchor { id: String },
    LineBreak,
    SoftBreak,
}

/// One item of a text: a styled run or an inline element.
pub enum TextOrInline {
    Text(TextNode),
    Inline(Inline),
}

/// How a span of running text is drawn: as it is, as normal text, in one
/// of the text styles, or as a link of its kind.
#[derive(Clone, Copy, Debug, PartialEq, Eq, Structural)]
pub enum BaseStyle {
    Plain,
    Normal,
    Strong,
    Emphasis,
    Code,
    Strikethrough,
    Link(LinkType),
}

/// How a rendered span is drawn: running text, running text in a quote or
/// a definition term, a heading line or its rule, a rule, a code line
/// (marked when a comment covers it), a comment on code, or a note.
#[derive(Clone, Copy, Debug, PartialEq, Eq, Structural)]
pub enum SpanStyle {
    Base(BaseStyle),
    Quoted(BaseStyle),
    Term(BaseStyle),
    Heading(u8),
    HeadingRule(u8),
    Rule,
    CodeText(bool),
    CodeComment,
    Note,
}

/// A piece of a rendered line with its style.
pub struct StyledSpan {
    pub content: String,
    pub style: SpanStyle,
}

/// A link shown on a rendered line: its text and target, and the line and
/// columns it covers.
pub struct LinkInfo {
    pub text: String,
    pub url: String,
    pub line: usize,
    pub start_col: usize,
    pub end_col: usize,
    pub link_type: LinkType,
    pub target_chapter: Option<String>,
    pub target_anchor: Option<String>,
}

/// A span that may carry a link.
pub enum RichSpan {
    Text(StyledSpan),
    Link { span: StyledSpan, info: LinkInfo },
}

pub open spec fn opt_chars(o: Option<String>) -> Option<Seq<char>> {
    match o {
        Some(s) => Some(s@),
        None => None,
    }
}

pub struct LinkView {
    pub text: Seq<char>,
    pub url: Seq<char>,
    pub line: int,
    pub start_col: int,
    pub end_col: int,
    pub link_type: LinkType,
    pub target_chapter: Option<Seq<char>>,
    pub target_anchor: Option<Seq<char>>,
}

impl View for LinkInfo {
    type V = LinkView;

    open spec fn view(&self) -> LinkView {
        LinkView {
            text: self.text@,
            url: self.url@,
            line: self.line as int,
            start_col: self.start_col as int,
            end_col: self.end_col as int,
            link_type: self.link_type,
            target_chapter: opt_chars(self.target_chapter),
            target_anchor: opt_chars(self.target_anchor),
        }
    }
}

/// A rich span as the contracts read it: its text, its style, and its link.
pub struct RichView {
    pub text: Seq<char>,
    pub style: SpanStyle,
    pub link: Option<LinkView>,
}

impl View for RichSpan {
    type V = RichView;

    open spec fn view(&self) -> RichView {
        match self {
            RichSpan::Text(s) => RichView { text: s.content@, style: s.style, link: None },
            RichSpan::Link { span, info } => RichView {
                text: span.content@,
                style: span.style,
                link: Some(info@),
            },
        }
    }
}

pub open spec fn rich_view(s: Seq<RichSpan>) -> Seq<RichView> {
    s.map_values(|r: RichSpan| r@)
}

/// A rich span with the same style and link, holding `text`.
pub open spec fn with_text(r: RichView, text: Seq<char>) -> RichView {
    RichView { text, style: r.style, link: r.link }
}

/// A span drawn as it is.
pub open spec fn plain(text: Seq<char>) -> RichView {
    RichView { text, style: SpanStyle::Base(BaseStyle::Plain), link: None }
}

pub fn clone_opt(o: &Option<String>) -> (r: Option<String>)
    ensures
        opt_chars(r) == opt_chars(*o),
{
    match o {
        Some(s) => Some(s.clone()),
        None => None,
    }
}

impl LinkInfo {
    pub fn duplicate(&self) -> (r: LinkInfo)
        ensures
            r@ == self@,
    {
        LinkInfo {
            text: self.text.clone(),
            url: self.url.clone(),
            line: self.line,
            start_col: self.start_col,
            end_col: self.end_col,
            link_type: self.link_type,
            target_chapter: clone_opt(&self.target_chapter),
            target_anchor: clone_opt(&self.target_anchor),
        }
    }
}

impl RichSpan {
    /// The span to draw.
    pub fn into_span(self) -> (r: StyledSpan)
        ensures
            r.content@ == self@.text,
            r.style == self@.style,
    {
        match self {
            RichSpan::Text(span) => span,
            RichSpan::Link { span, .. } => span,
        }
    }

    /// The link the span carries, if any.
    pub fn link_info(&self) -> (r: Option<&LinkInfo>)
        ensures
            match r {
                Some(i) => self@.link == Some(i@),
                None => self@.link is None,
            },
    {
        match self {
            RichSpan::Text(_) => None,
            RichSpan::Link { info, .. } => Some(info),
        }
    }

    /// The span's text.
    pub fn text(&self) -> (r: &String)
        ensures
            r@ == self@.text,
    {
        match self {
            RichSpan::Text(span) => &span.content,
            RichSpan::Link { span, .. } => &span.content,
        }
    }

    /// The same span with another text.
    pub fn with_content(&self, content: String) -> (r: RichSpan)
        ensures
            r@ == with_text(self@, content@),
    {
        match self {
            RichSpan::Text(span) => RichSpan::Text(StyledSpan { content, style: span.style }),
            RichSpan::Link { span, info } => RichSpan::Link {
                span: StyledSpan { content, style: span.style },
                info: info.duplicate(),
            },
        }
    }

    pub fn duplicate(&self) -> (r: RichSpan)
        ensures
            r@ == self@,
    {
        self.with_content(self.text().clone())
    }
}

/// The plain text of a text: runs as they are, a link by its text, an image
/// by its alternative text, a line break as a newline and a soft break as a
/// space; anchors add nothing.
pub open spec fn text_string(items: Seq<TextOrInline>) -> Seq<char>
    decreases items, 0int,
{
    if items.len() == 0 {
        Seq::empty()
    } else {
        text_string(items.drop_last()) + item_string(items.last())
    }
}

pub open spec fn item_string(item: TextOrInline) -> Seq<char>
    decreases item, 1int,
{
    match item {
        TextOrInline::Text(t) => t.content@,
        TextOrInline::Inline(Inline::Link { text, .. }) => text_string(text@),
        TextOrInline::Inline(Inline::Image { alt_text, .. }) => alt_text@,
        TextOrInline::Inline(Inline::Anchor { .. }) => Seq::empty(),
        TextOrInline::Inline(Inline::LineBreak) => seq!['\n'],
        TextOrInline::Inline(Inline::SoftBreak) => seq![' '],
    }
}

/// The plain text of a document text.
pub fn text_to_string(text: &Vec<TextOrInline>) -> (r: String)
    ensures
        r@ == text_string(text@),
    decreases text,
{
    let mut out: Vec<char> = Vec::new();
    let mut k: usize = 0;
    proof {
        assert(text@.take(0) =~= Seq::<TextOrInline>::empty());
    }
    while k < text.len()
        invariant
            k <= text@.len(),
            out@ == text_string(text@.take(k as int)),
        decreases text@.len() - k,
    {
        proof {
            assert(text@.take(k + 1).drop_last() =~= text@.take(k as int));
            assert(text@.take(k + 1).last() == text@[k as int]);
            assert(text_string(text@.take(k + 1)) == text_string(text@.take(k as int)) + item_string(
                text@[k as int],
            ));
        }
        let ghost before = out@;
        match &text[k] {
            TextOrInline::Text(t) => {
                let cs = chars_of(t.content.as_str());
                push_all(&mut out, cs.as_slice());
            },
            TextOrInline::Inline(Inline::Link { text: inner, .. }) => {
                let s = text_to_string(inner);
                let cs = chars_of(s.as_str());
                push_all(&mut out, cs.as_slice());
            },
            TextOrInline::Inline(Inline::Image { alt_text, .. }) => {
                let cs = chars_of(alt_text.as_str());
                push_all(&mut out, cs.as_slice());
            },
            TextOrInline::Inline(Inline::Anchor { .. }) => {},
            TextOrInline::Inline(Inline::LineBreak) => {
                out.push('\n');
                proof {
                    assert(out@ =~= before + seq!['\n']);
                }
            },
            TextOrInline::Inline(Inline::SoftBreak) => {
                out.push(' ');
                proof {
                    assert(out@ =~= before + seq![' ']);
                }
            },
        }
        proof {
            assert(out@ =~= before + item_string(text@[k as int]));
            assert(out@ =~= text_string(text@.take(k + 1)));
        }
        k += 1;
    }
    proof {
        assert(text@.take(k as int) =~= text@);
    }
    string_from_chars(out.as_slice())
}

/// The style a run of text is drawn in.
pub open spec fn run_style(style: Option<TextStyle>) -> SpanStyle {
    match style {
        None => SpanStyle::Base(BaseStyle::Normal),
        Some(TextStyle::Strong) => SpanStyle::Base(BaseStyle::Strong),
        Some(TextStyle::Emphasis) => SpanStyle::Base(BaseStyle::Emphasis),
        Some(TextStyle::Code) => SpanStyle::Base(BaseStyle::Code),
        Some(TextStyle::Strikethrough) => SpanStyle::Base(BaseStyle::Strikethrough),
    }
}

/// The spans an item of a text renders as: a run in its style; a link in
/// the style of its kind, carrying its target (its line and columns not yet
/// placed); an image as `[image: alt]`; a line break as a newline, a soft
/// break as a space; an anchor as nothing.
pub open spec fn item_spans(item: TextOrInline) -> Seq<RichView> {
    match item {
        TextOrInline::Text(t) => seq![RichView { text: t.content@, style: run_style(t.style), link: None }],
        TextOrInline::Inline(Inline::Link { text, url, link_type, target_chapter, target_anchor }) => {
            let s = text_string(text@);
            seq![
                RichView {
                    text: s,
                    style: SpanStyle::Base(BaseStyle::Link(link_type)),
                    link: Some(
                        LinkView {
                            text: s,
                            url: url@,
                            line: 0,
                            start_col: 0,
                            end_col: 0,
                            link_type,
                            target_chapter: opt_chars(target_chapter),
                            target_anchor: opt_chars(target_anchor),
                        },
                    ),
                },
            ]
        },
        TextOrInline::Inline(Inline::Image { alt_text, .. }) => seq![plain("[image: "@ + alt_text@ + "]"@)],
        TextOrInline::Inline(Inline::Anchor { .. }) => Seq::empty(),
        TextOrInline::Inline(Inline::LineBreak) => seq![plain(seq!['\n'])],
        TextOrInline::Inline(Inline::SoftBreak) => seq![plain(seq![' '])],
    }
}

/// The spans an item of a text renders as.
pub fn render_text_or_inline(item: &TextOrInline) -> (r: Vec<RichSpan>)
    ensures
        rich_view(r@) == item_spans(*item),
{
    let mut out: Vec<RichSpan> = Vec::new();
    match item {
        TextOrInline::Text(t) => {
            let style = match t.style {
                None => SpanStyle::Base(BaseStyle::Normal),
                Some(TextStyle::Strong) => SpanStyle::Base(BaseStyle::Strong),
                Some(TextStyle::Emphasis) => SpanStyle::Base(BaseStyle::Emphasis),
                Some(TextStyle::Code) => SpanStyle::Base(BaseStyle::Code),
                Some(TextStyle::Strikethrough) => SpanStyle::Base(BaseStyle::Strikethrough),
            };
            out.push(RichSpan::Text(StyledSpan { content: t.content.clone(), style }));
            proof {
                assert(rich_view(out@) =~= item_spans(*item));
            }
        },
        TextOrInline::Inline(Inline::Link { text, url, link_type, target_chapter, target_anchor }) => {
            let s = text_to_string(text);
            let info = LinkInfo {
                text: s.clone(),
                url: url.clone(),
                line: 0,
                start_col: 0,
                end_col: 0,
                link_type: *link_type,
                target_chapter: clone_opt(target_chapter),
                target_anchor: clone_opt(target_anchor),
            };
            out.push(RichSpan::Link { span: StyledSpan { content: s, style: SpanStyle::Base(BaseStyle::Link(*link_type)) }, info });
            proof {
                assert(rich_view(out@) =~= item_spans(*item));
            }
        },
        TextOrInline::Inline(Inline::Image { alt_text, .. }) => {
            let mut cs = chars_of("[image: ");
            let alt = chars_of(alt_text.as_str());
            push_all(&mut cs, alt.as_slice());
            cs.push(']');
            proof {
                reveal_strlit("[image: ");
                reveal_strlit("]");
                assert(cs@ =~= "[image: "@ + alt_text@ + "]"@);
            }
            out.push(RichSpan::Text(StyledSpan { content: string_from_chars(cs.as_slice()), style: SpanStyle::Base(BaseStyle::Plain) }));
        },
        TextOrInline::Inline(Inline::Anchor { .. }) => {},
        TextOrInline::Inline(Inline::LineBreak) => {
            let mut v: Vec<char> = Vec::new();
            v.push('\n');
            out.push(RichSpan::Text(StyledSpan { content: string_from_chars(v.as_slice()), style: SpanStyle::Base(BaseStyle::Plain) }));
        },
        TextOrInline::Inline(Inline::SoftBreak) => {
            let mut v: Vec<char> = Vec::new();
            v.push(' ');
            out.push(RichSpan::Text(StyledSpan { content: string_from_chars(v.as_slice()), style: SpanStyle::Base(BaseStyle::Plain) }));
        },
    }
    proof {
        assert(rich_view(out@) =~= item_spans(*item));
    }
    out
}

} // verus!
