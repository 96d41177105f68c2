//! Rendering runs of styled text into the reader's lines: wrapping, the
//! spans each wrapped line is made of, and where its links stand.
use vstd::prelude::*;
use crate::markdown::{RichSpan, RichView, StyledSpan, SpanStyle, BaseStyle, LinkInfo, LinkView, rich_view, with_text, plain};
use crate::text::{chars_of, push_all, string_from_chars, occurs_at_exec, repeat, repeat_chars};
use crate::reader::{ReaderLine, LineType, LineView, LineTypeView, lines_view, empty_line, styled_view, FragmentView};
use crate::code_block::{wrapped_lines, wrap_line, strings_view};
use crate::markdown::LinkType;

verus! {

/// Each character of the spans' texts, with the index of its span.
pub open spec fn flat_chars(spans: Seq<RichView>) -> Seq<(char, int)>
    decreases spans.len(),
{
    if spans.len() == 0 {
        Seq::empty()
    } else {
        flat_chars(spans.drop_last()) + spans.last().text.map_values(|c: char| (c, spans.len() - 1))
    }
}

pub open spec fn chars_only(f: Seq<(char, int)>) -> Seq<char> {
    f.map_values(|p: (char, int)| p.0)
}

/// The first position from `i` on where `w` stands in `s`.
pub open spec fn match_from(s: Seq<char>, w: Seq<char>, i: int) -> Option<int>
    decreases s.len() + 1 - i,
{
    if i < 0 || i + w.len() > s.len() {
        None
    } else if s.subrange(i, i + w.len()) == w {
        Some(i)
    } else {
        match_from(s, w, i + 1)
    }
}

/// The characters grouped into runs of one span each, in order.
pub open spec fn runs(f: Seq<(char, int)>) -> Seq<(Seq<char>, int)>
    decreases f.len(),
{
    if f.len() == 0 {
        Seq::empty()
    } else {
        let r = runs(f.drop_last());
        let p = f.last();
        if r.len() > 0 && r.last().1 == p.1 {
            r.update(r.len() - 1, (r.last().0.push(p.0), p.1))
        } else {
            r.push((seq![p.0], p.1))
        }
    }
}

/// The texts of the spans, one after another.
pub open spec fn spans_text(spans: Seq<RichView>) -> Seq<char>
    decreases spans.len(),
{
    if spans.len() == 0 {
        Seq::empty()
    } else {
        spans_text(spans.drop_last()) + spans.last().text
    }
}

/// The spans a wrapped line is made of: the run of the spans' text that
/// the line is, found at its first place, cut where the span changes and
/// each piece styled as its span; an empty line is one empty span, and a
/// line not found is one span of its text as it is.
pub open spec fn mapped_spans(w: Seq<char>, spans: Seq<RichView>) -> Seq<RichView> {
    if w.len() == 0 {
        seq![plain(Seq::empty())]
    } else {
        match match_from(chars_only(flat_chars(spans)), w, 0) {
            None => seq![plain(w)],
            Some(p) => runs(flat_chars(spans).subrange(p, p + w.len())).map_values(
                |r: (Seq<char>, int)| with_text(spans[r.1], r.0),
            ),
        }
    }
}

proof fn lemma_flat_chars(spans: Seq<RichView>)
    ensures
        chars_only(flat_chars(spans)) == spans_text(spans),
        forall|j: int| 0 <= j < flat_chars(spans).len() ==> 0 <= #[trigger] flat_chars(spans)[j].1 < spans.len(),
    decreases spans.len(),
{
    if spans.len() > 0 {
        lemma_flat_chars(spans.drop_last());
        assert(chars_only(flat_chars(spans)) =~= spans_text(spans));
    }
}

proof fn lemma_match_from(s: Seq<char>, w: Seq<char>, i: int)
    ensures
        match_from(s, w, i) matches Some(p) ==> i <= p && p + w.len() <= s.len() && s.subrange(p, p + w.len()) == w,
    decreases s.len() + 1 - i,
{
    if !(i < 0 || i + w.len() > s.len()) && s.subrange(i, i + w.len()) != w {
        lemma_match_from(s, w, i + 1);
    }
}

/// The first place of `w` in `s`.
fn find_match(s: &Vec<char>, w: &Vec<char>) -> (r: Option<usize>)
    ensures
        match r {
            Some(p) => match_from(s@, w@, 0) == Some(p as int),
            None => match_from(s@, w@, 0) is None,
        },
{
    let n = s.len();
    let mut i: usize = 0;
    while i <= n && w.len() <= n - i
        invariant
            n == s@.len(),
            match_from(s@, w@, 0) == match_from(s@, w@, i as int),
        decreases n + 1 - i,
    {
        if occurs_at_exec(s.as_slice(), w.as_slice(), i) {
            return Some(i);
        }
        if i == n {
            proof {
                assert(match_from(s@, w@, i + 1) is None);
            }
            return None;
        }
        i += 1;
    }
    None
}

pub open spec fn pairs(c: Seq<char>, k: Seq<usize>) -> Seq<(char, int)> {
    Seq::new(c.len(), |j: int| (c[j], k[j] as int))
}

/// The spans a wrapped line of the spans' text is made of.
#[verifier::rlimit(40)]
pub fn map_wrapped_line_to_rich_spans(wrapped_line: &str, spans: &Vec<RichSpan>) -> (r: Vec<RichSpan>)
    ensures
        rich_view(r@) == mapped_spans(wrapped_line@, rich_view(spans@)),
{
    let ghost sv = rich_view(spans@);
    let w = chars_of(wrapped_line);
    if w.len() == 0 {
        let mut out: Vec<RichSpan> = Vec::new();
        out.push(RichSpan::Text(StyledSpan { content: String::new(), style: SpanStyle::Base(BaseStyle::Plain) }));
        proof {
            assert(rich_view(out@) =~= mapped_spans(wrapped_line@, sv));
        }
        return out;
    }
    let mut fc: Vec<char> = Vec::new();
    let mut fi: Vec<usize> = Vec::new();
    let mut k: usize = 0;
    proof {
        assert(pairs(fc@, fi@) =~= flat_chars(sv.take(0)));
    }
    while k < spans.len()
        invariant
            sv == rich_view(spans@),
            k <= spans@.len(),
            fc@.len() == fi@.len(),
            pairs(fc@, fi@) == flat_chars(sv.take(k as int)),
        decreases spans@.len() - k,
    {
        let t = chars_of(spans[k].text().as_str());
        let ghost start = pairs(fc@, fi@);
        let mut j: usize = 0;
        while j < t.len()
            invariant
                fc@.len() == fi@.len(),
                j <= t@.len(),
                pairs(fc@, fi@) == start + t@.take(j as int).map_values(|c: char| (c, k as int)),
            decreases t@.len() - j,
        {
            let ghost old_fc = fc@;
            let ghost old_fi = fi@;
            fc.push(t[j]);
            fi.push(k);
            proof {
                assert(t@.take(j + 1) =~= t@.take(j as int).push(t@[j as int]));
                assert(t@.take(j + 1).map_values(|c: char| (c, k as int)) =~= t@.take(j as int).map_values(
                    |c: char| (c, k as int),
                ).push((t@[j as int], k as int)));
                assert(pairs(fc@, fi@) =~= pairs(old_fc, old_fi).push((t@[j as int], k as int)));
                assert(pairs(fc@, fi@) =~= start + t@.take(j + 1).map_values(|c: char| (c, k as int)));
            }
            j += 1;
        }
        proof {
            assert(sv.take(k + 1).drop_last() =~= sv.take(k as int));
            assert(sv.take(k + 1).last().text == t@);
            assert(t@.take(j as int) =~= t@);
            assert(pairs(fc@, fi@) =~= flat_chars(sv.take(k + 1)));
        }
        k += 1;
    }
    proof {
        assert(sv.take(k as int) =~= sv);
        assert(chars_only(flat_chars(sv)) =~= fc@);
    }
    let ghost f = flat_chars(sv);
    let wl = w.len();
    let fl = fc.len();
    let found = find_match(&fc, &w);
    let pos = match found {
        None => {
            let mut out: Vec<RichSpan> = Vec::new();
            out.push(RichSpan::Text(StyledSpan { content: string_from_chars(w.as_slice()), style: SpanStyle::Base(BaseStyle::Plain) }));
            proof {
                assert(rich_view(out@) =~= mapped_spans(wrapped_line@, sv));
            }
            return out;
        },
        Some(p) => p,
    };
    proof {
        lemma_match_from(fc@, w@, 0);
        lemma_flat_chars(sv);
    }
    let ghost sl = f.subrange(pos as int, pos + wl);
    let mut result: Vec<RichSpan> = Vec::new();
    let mut cur: Option<usize> = None;
    let mut text: Vec<char> = Vec::new();
    let mut m: usize = 0;
    let ghost fmap = |x: (Seq<char>, int)| with_text(sv[x.1], x.0);
    proof {
        assert(sl.take(0) =~= Seq::<(char, int)>::empty());
    }
    while m < wl
        invariant
            sv == rich_view(spans@),
            f == flat_chars(sv),
            pairs(fc@, fi@) == f,
            fc@.len() == fi@.len(),
            pos + wl <= fc@.len(),
            fl == fc@.len(),
            sl == f.subrange(pos as int, pos + wl),
            forall|j: int| 0 <= j < f.len() ==> 0 <= #[trigger] f[j].1 < sv.len(),
            fmap == (|x: (Seq<char>, int)| with_text(sv[x.1], x.0)),
            m <= wl,
            m == 0 ==> cur is None && result@.len() == 0,
            m > 0 ==> cur == Some(runs(sl.take(m as int)).last().1 as usize) && text@ == runs(
                sl.take(m as int),
            ).last().0 && runs(sl.take(m as int)).len() > 0 && rich_view(result@) == runs(
                sl.take(m as int),
            ).drop_last().map_values(fmap) && (runs(sl.take(m as int)).last().1 as usize) < spans@.len()
                && runs(sl.take(m as int)).last().1 >= 0,
        decreases wl - m,
    {
        let at: usize = pos + m;
        let c = fc[at];
        let k = fi[at];
        let ghost r = runs(sl.take(m as int));
        proof {
            assert(sl.take(m + 1).drop_last() =~= sl.take(m as int));
            assert(sl.take(m + 1).last() == (c, k as int));
            assert(f[pos + m] == (c, k as int));
        }
        let same = match cur {
            Some(ci) => ci == k,
            None => false,
        };
        if same {
            text.push(c);
            proof {
                assert(runs(sl.take(m + 1)) == r.update(r.len() - 1, (r.last().0.push(c), k as int)));
                assert(runs(sl.take(m + 1)).drop_last() =~= r.drop_last());
            }
        } else {
            if m > 0 {
                let ci = match cur {
                    Some(x) => x,
                    None => 0,
                };
                let piece = string_from_chars(text.as_slice());
                let ghost before = result@;
                result.push(spans[ci].with_content(piece));
                proof {
                    assert(rich_view(result@) =~= rich_view(before).push(fmap(r.last())));
                    assert(r.drop_last().map_values(fmap).push(fmap(r.last())) =~= r.map_values(fmap));
                }
            }
            text = Vec::new();
            text.push(c);
            cur = Some(k);
            proof {
                assert(runs(sl.take(m + 1)) == r.push((seq![c], k as int)));
                assert(runs(sl.take(m + 1)).drop_last() =~= r);
                assert(text@ =~= seq![c]);
                if m == 0 {
                    assert(r.len() == 0);
                    assert(rich_view(result@) =~= r.map_values(fmap));
                }
            }
        }
        m += 1;
    }
    let ghost r = runs(sl.take(m as int));
    proof {
        assert(sl.take(m as int) =~= sl);
    }
    let ci = match cur {
        Some(x) => x,
        None => 0,
    };
    let piece = string_from_chars(text.as_slice());
    let ghost before = result@;
    result.push(spans[ci].with_content(piece));
    proof {
        assert(rich_view(result@) =~= rich_view(before).push(fmap(r.last())));
        assert(r.drop_last().map_values(fmap).push(fmap(r.last())) =~= r.map_values(fmap));
        assert(rich_view(result@) =~= mapped_spans(wrapped_line@, sv));
    }
    result
}


/// `a - b`, held at zero.
pub open spec fn sat_sub(a: int, b: int) -> int {
    if a >= b {
        a - b
    } else {
        0
    }
}

/// The width text is wrapped to: the width less the indentation (two
/// columns a level) and the prefix, at least one column.
pub open spec fn text_width(width: int, indent: int, prefix_width: int) -> int {
    let a = sat_sub(width, 2 * indent);
    let b = if prefix_width > 0 {
        sat_sub(a, prefix_width)
    } else {
        a
    };
    if b < 1 {
        1
    } else {
        b
    }
}

/// What stands before a wrapped line: the indentation, then the prefix on
/// the first line and as many spaces on the others.
pub open spec fn line_lead(prefix: Seq<char>, indent: int, first: bool) -> Seq<char> {
    repeat(' ', (2 * indent) as nat) + if first {
        prefix
    } else {
        repeat(' ', prefix.len())
    }
}

/// The spans of the lead: the indentation and the prefix (or its padding),
/// each only when it is not empty.
pub open spec fn lead_spans(prefix: Seq<char>, indent: int, first: bool) -> Seq<RichView> {
    (if indent > 0 {
        seq![plain(repeat(' ', (2 * indent) as nat))]
    } else {
        Seq::empty()
    }) + (if prefix.len() > 0 {
        seq![
            plain(
                if first {
                    prefix
                } else {
                    repeat(' ', prefix.len())
                },
            ),
        ]
    } else {
        Seq::empty()
    })
}

/// A span as drawn, without its link.
pub open spec fn unlinked(r: RichView) -> RichView {
    RichView { text: r.text, style: r.style, link: None }
}

/// A count held at `usize::MAX`.
pub open spec fn sat_usize(x: int) -> int {
    if x <= usize::MAX {
        x
    } else {
        usize::MAX as int
    }
}

/// The links among the spans of a line, placed on the line: each covers
/// its span's columns, after `shift` columns of lead (columns held at
/// `usize::MAX`).
pub open spec fn line_links(rich: Seq<RichView>, col: int, line: int, shift: int) -> Seq<LinkView>
    decreases rich.len(),
{
    if rich.len() == 0 {
        Seq::empty()
    } else {
        let r = rich[0];
        let rest = line_links(rich.drop_first(), col + r.text.len(), line, shift);
        match r.link {
            Some(l) => seq![
                LinkView {
                    text: l.text,
                    url: l.url,
                    line,
                    start_col: sat_usize(col + shift),
                    end_col: sat_usize(col + r.text.len() + shift),
                    link_type: l.link_type,
                    target_chapter: l.target_chapter,
                    target_anchor: l.target_anchor,
                },
            ] + rest,
            None => rest,
        }
    }
}

/// The spans of the `i`th wrapped line: all of them when the text makes
/// one line, else the pieces the line is made of.
pub open spec fn wrapped_rich(spans: Seq<RichView>, w: Seq<Seq<char>>, i: int) -> Seq<RichView> {
    if i == 0 && w.len() == 1 {
        spans
    } else {
        mapped_spans(w[i], spans)
    }
}

/// The `i`th line of a run of spans wrapped into lines `w`.
pub open spec fn span_line(
    spans: Seq<RichView>,
    w: Seq<Seq<char>>,
    i: int,
    prefix: Seq<char>,
    indent: int,
    node_index: Option<usize>,
    line: int,
) -> LineView {
    let rich = wrapped_rich(spans, w, i);
    LineView {
        spans: lead_spans(prefix, indent, i == 0) + rich.map_values(|r: RichView| unlinked(r)),
        raw_text: line_lead(prefix, indent, i == 0) + w[i],
        line_type: LineTypeView::Text,
        links: line_links(rich, 0, line, 2 * indent + prefix.len()),
        node_anchor: None,
        node_index,
        code_line: None,
        fragments: Seq::empty(),
    }
}

/// The lines a run of spans renders as: its text wrapped to the text width,
/// each line led by the indentation and the prefix (first line) or padding,
/// all of them marked with `node_index`; then an empty line if asked for.
/// `first_line` is the number of lines before them.
pub open spec fn span_lines(
    spans: Seq<RichView>,
    prefix: Seq<char>,
    width: int,
    indent: int,
    add_empty_line_after: bool,
    node_index: Option<usize>,
    first_line: int,
) -> Seq<LineView> {
    let w = wrapped_lines(spans_text(spans), text_width(width, indent, prefix.len() as int) as usize);
    Seq::new(w.len(), |i: int| span_line(spans, w, i, prefix, indent, node_index, first_line + i)) + if add_empty_line_after {
        seq![empty_line()]
    } else {
        Seq::empty()
    }
}

pub open spec fn prefix_view(prefix: Option<&str>) -> Seq<char> {
    match prefix {
        Some(p) => p@,
        None => Seq::empty(),
    }
}

/// The links of a line's spans, placed on line `line` after `shift` columns.
fn place_links(rich: &Vec<RichSpan>, line: usize, shift: usize, Ghost(full_shift): Ghost<int>) -> (r: Vec<LinkInfo>)
    requires
        shift == sat_usize(full_shift),
        full_shift >= 0,
    ensures
        r@.map_values(|l: LinkInfo| l@) == line_links(rich_view(rich@), 0, line as int, full_shift),
{
    let ghost rv = rich_view(rich@);
    let mut out: Vec<LinkInfo> = Vec::new();
    let mut col: usize = 0;
    let ghost mut col_int: int = 0;
    let mut k: usize = 0;
    proof {
        assert(rv.skip(0) =~= rv);
        assert(out@.map_values(|l: LinkInfo| l@) =~= Seq::<LinkView>::empty());
    }
    while k < rich.len()
        invariant
            rv == rich_view(rich@),
            k <= rich@.len(),
            col_int >= 0,
            col == sat_usize(col_int),
            shift == sat_usize(full_shift),
            full_shift >= 0,
            out@.map_values(|l: LinkInfo| l@) + line_links(rv.skip(k as int), col_int, line as int, full_shift)
                == line_links(rv, 0, line as int, full_shift),
        decreases rich@.len() - k,
    {
        let len = chars_of(rich[k].text().as_str()).len();
        proof {
            assert(rv.skip(k as int)[0] == rv[k as int]);
            assert(rv.skip(k as int).drop_first() =~= rv.skip(k + 1));
            assert(rv[k as int].text.len() == len);
        }
        let ghost before = out@.map_values(|l: LinkInfo| l@);
        match rich[k].link_info() {
            Some(info) => {
                let mut l = info.duplicate();
                l.line = line;
                l.start_col = col.saturating_add(shift);
                l.end_col = col.saturating_add(len).saturating_add(shift);
                out.push(l);
                proof {
                    assert(l@.start_col == sat_usize(col_int + full_shift));
                    assert(l@.end_col == sat_usize(col_int + len + full_shift));
                    assert(out@.map_values(|l: LinkInfo| l@) =~= before.push(l@));
                }
            },
            None => {},
        }
        col = col.saturating_add(len);
        proof {
            col_int = col_int + len;
        }
        k += 1;
    }
    proof {
        assert(rv.skip(k as int) =~= Seq::<RichView>::empty());
        assert(out@.map_values(|l: LinkInfo| l@) + Seq::<LinkView>::empty() =~= out@.map_values(
            |l: LinkInfo| l@,
        ));
    }
    out
}

/// Two spaces for each level of indentation.
fn indent_spaces(indent: usize) -> (r: Vec<char>)
    ensures
        r@ == repeat(' ', (2 * indent) as nat),
{
    let mut v: Vec<char> = Vec::new();
    let mut k: usize = 0;
    while k < indent
        invariant
            k <= indent,
            v@ == repeat(' ', (2 * k) as nat),
        decreases indent - k,
    {
        v.push(' ');
        v.push(' ');
        proof {
            assert(v@ =~= repeat(' ', (2 * (k + 1)) as nat));
        }
        k += 1;
    }
    v
}

/// The text of the spans, one after another.
fn spans_plain_text(spans: &Vec<RichSpan>) -> (r: Vec<char>)
    ensures
        r@ == spans_text(rich_view(spans@)),
{
    let ghost sv = rich_view(spans@);
    let mut out: Vec<char> = Vec::new();
    let mut k: usize = 0;
    proof {
        assert(sv.take(0) =~= Seq::<RichView>::empty());
    }
    while k < spans.len()
        invariant
            sv == rich_view(spans@),
            k <= spans@.len(),
            out@ == spans_text(sv.take(k as int)),
        decreases spans@.len() - k,
    {
        let t = chars_of(spans[k].text().as_str());
        push_all(&mut out, t.as_slice());
        proof {
            assert(sv.take(k + 1).drop_last() =~= sv.take(k as int));
        }
        k += 1;
    }
    proof {
        assert(sv.take(k as int) =~= sv);
    }
    out
}

fn duplicate_spans(spans: &Vec<RichSpan>) -> (r: Vec<RichSpan>)
    ensures
        rich_view(r@) == rich_view(spans@),
{
    let mut out: Vec<RichSpan> = Vec::new();
    let mut k: usize = 0;
    while k < spans.len()
        invariant
            k <= spans@.len(),
            rich_view(out@) == rich_view(spans@).take(k as int),
        decreases spans@.len() - k,
    {
        let ghost before = out@;
        let d = spans[k].duplicate();
        out.push(d);
        proof {
            assert(out@ =~= before.push(d));
            assert(rich_view(out@) =~= rich_view(before).push(d@));
            assert(rich_view(out@) =~= rich_view(spans@).take(k + 1));
        }
        k += 1;
    }
    proof {
        assert(rich_view(spans@).take(k as int) =~= rich_view(spans@));
    }
    out
}

/// Renders a run of spans as lines of text added to `lines`: wrapped to the
/// width less the indentation and the prefix, the first line led by the
/// prefix and the others by as many spaces, each carrying its spans and its
/// links where they stand, and an empty line after when asked for.
pub fn render_text_spans(
    spans: &Vec<RichSpan>,
    prefix: Option<&str>,
    lines: &mut Vec<ReaderLine>,
    width: usize,
    indent: usize,
    add_empty_line_after: bool,
    node_index: Option<usize>,
)
    ensures
        final(lines)@.len() >= old(lines)@.len(),
        lines_view(final(lines)@) == lines_view(old(lines)@) + span_lines(
            rich_view(spans@),
            prefix_view(prefix),
            width as int,
            indent as int,
            add_empty_line_after,
            node_index,
            old(lines)@.len() as int,
        ),
{
    let ghost sv = rich_view(spans@);
    let ghost old_lines = lines_view(lines@);
    let ghost first_line = lines@.len() as int;
    let pre: Vec<char> = match prefix {
        Some(p) => chars_of(p),
        None => Vec::new(),
    };
    proof {
        assert(pre@ == prefix_view(prefix));
    }
    let pw = pre.len();
    let indent_chars = indent_spaces(indent);
    let padding = repeat_chars(' ', pw);
    let plain_text = spans_plain_text(spans);
    let a = if indent <= width / 2 { width - 2 * indent } else { 0 };
    let b = if pw > 0 {
        if a >= pw { a - pw } else { 0 }
    } else {
        a
    };
    let avail = if b < 1 { 1 } else { b };
    let pt = string_from_chars(plain_text.as_slice());
    let wrapped = wrap_line(pt.as_str(), avail);
    let ghost w = strings_view(wrapped@);
    proof {
        assert(w == wrapped_lines(spans_text(sv), text_width(width as int, indent as int, pw as int) as usize));
    }
    let n = wrapped.len();
    let mut i: usize = 0;
    while i < n
        invariant
            sv == rich_view(spans@),
            n == wrapped@.len(),
            w == strings_view(wrapped@),
            w.len() == n,
            i <= n,
            pre@ == prefix_view(prefix),
            pw == pre@.len(),
            indent_chars@ == repeat(' ', (2 * indent) as nat),
            padding@ == repeat(' ', pw as nat),
            lines@.len() == first_line + i,
            lines_view(lines@) == old_lines + Seq::new(
                i as nat,
                |j: int| span_line(sv, w, j, pre@, indent as int, node_index, first_line + j),
            ),
        decreases n - i,
    {
        let line_text = &wrapped[i];
        let rich = if i == 0 && n == 1 {
            duplicate_spans(spans)
        } else {
            map_wrapped_line_to_rich_spans(line_text.as_str(), spans)
        };
        let ghost rv = rich_view(rich@);
        proof {
            assert(w[i as int] == line_text@);
            assert(rv == wrapped_rich(sv, w, i as int));
        }
        let shift = if indent > (usize::MAX - pw) / 2 { usize::MAX } else { 2 * indent + pw };
        let ghost full_shift = 2 * indent + pw;
        proof {
            assert(shift == sat_usize(full_shift));
        }
        let links = place_links(&rich, lines.len(), shift, Ghost(full_shift));
        let mut line_spans: Vec<StyledSpan> = Vec::new();
        if indent > 0 {
            line_spans.push(StyledSpan { content: string_from_chars(indent_chars.as_slice()), style: SpanStyle::Base(BaseStyle::Plain) });
        }
        if pw > 0 {
            let lead = if i == 0 {
                string_from_chars(pre.as_slice())
            } else {
                string_from_chars(padding.as_slice())
            };
            line_spans.push(StyledSpan { content: lead, style: SpanStyle::Base(BaseStyle::Plain) });
        }
        let ghost lead_count = line_spans@.len();
        let ghost lead_view = line_spans@.map_values(|s: StyledSpan| styled_view(s));
        proof {
            reveal_strlit("");
            assert(lead_view =~= lead_spans(pre@, indent as int, i == 0));
        }
        let mut k: usize = 0;
        while k < rich.len()
            invariant
                k <= rich@.len(),
                rv == rich_view(rich@),
                lead_count == line_spans@.len() - k,
                line_spans@.len() >= k,
                line_spans@.take(lead_count as int).map_values(|s: StyledSpan| styled_view(s)) == lead_view,
                line_spans@.skip(lead_count as int).map_values(|s: StyledSpan| styled_view(s))
                    == rv.take(k as int).map_values(|r: RichView| unlinked(r)),
            decreases rich@.len() - k,
        {
            let ghost before = line_spans@;
            let span = rich[k].duplicate().into_span();
            line_spans.push(span);
            proof {
                assert(styled_view(span) == unlinked(rv[k as int]));
                assert(line_spans@.take(lead_count as int) =~= before.take(lead_count as int));
                assert(line_spans@.skip(lead_count as int) =~= before.skip(lead_count as int).push(span));
                assert(rv.take(k + 1) =~= rv.take(k as int).push(rv[k as int]));
                assert(rv.take(k + 1).map_values(|r: RichView| unlinked(r)) =~= rv.take(k as int).map_values(
                    |r: RichView| unlinked(r),
                ).push(unlinked(rv[k as int])));
                assert(before.skip(lead_count as int).push(span).map_values(|s: StyledSpan| styled_view(s))
                    =~= before.skip(lead_count as int).map_values(|s: StyledSpan| styled_view(s)).push(
                    styled_view(span),
                ));
                assert(line_spans@.skip(lead_count as int).map_values(|s: StyledSpan| styled_view(s))
                    =~= rv.take(k + 1).map_values(|r: RichView| unlinked(r)));
            }
            k += 1;
        }
        let mut raw: Vec<char> = Vec::new();
        push_all(&mut raw, indent_chars.as_slice());
        if i == 0 {
            push_all(&mut raw, pre.as_slice());
        } else {
            push_all(&mut raw, padding.as_slice());
        }
        let body = chars_of(line_text.as_str());
        push_all(&mut raw, body.as_slice());
        let line = ReaderLine {
            spans: line_spans,
            raw_text: string_from_chars(raw.as_slice()),
            line_type: LineType::Text,
            links,
            node_anchor: None,
            node_index,
            code_line: None,
            inline_code_comments: Vec::new(),
        };
        proof {
            assert(rv.take(rich@.len() as int) =~= rv);
            assert(line_spans@ =~= line_spans@.take(lead_count as int) + line_spans@.skip(lead_count as int));
            assert(line@.spans =~= lead_spans(pre@, indent as int, i == 0) + rv.map_values(|r: RichView| unlinked(r)));
            assert(line@.raw_text =~= line_lead(pre@, indent as int, i == 0) + w[i as int]);
            assert(line@.fragments =~= Seq::<FragmentView>::empty());
            assert(line@.links == line_links(rv, 0, first_line + i, 2 * indent + pre@.len()));
            assert(line@.line_type == LineTypeView::Text);
            assert(line@.node_anchor is None);
            assert(line@ == span_line(sv, w, i as int, pre@, indent as int, node_index, first_line + i));
        }
        let ghost before_lines = lines_view(lines@);
        lines.push(line);
        proof {
            assert(lines_view(lines@) =~= before_lines.push(line@));
            assert(lines_view(lines@) =~= old_lines + Seq::new(
                (i + 1) as nat,
                |j: int| span_line(sv, w, j, pre@, indent as int, node_index, first_line + j),
            ));
        }
        i += 1;
    }
    let ghost body_lines = lines_view(lines@);
    if add_empty_line_after {
        lines.push(ReaderLine::empty());
        proof {
            assert(lines_view(lines@) =~= body_lines.push(empty_line()));
        }
    }
    proof {
        assert(lines_view(lines@) =~= old_lines + span_lines(
            sv,
            prefix_view(prefix),
            width as int,
            indent as int,
            add_empty_line_after,
            node_index,
            first_line,
        ));
    }
}

} // verus!
