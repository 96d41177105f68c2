//! Layout of a code block in the reader: its lines, which of them comments
//! cover, the short comments written after a line and the longer ones shown
//! below it.
use vstd::prelude::*;
use crate::comments::{Comment, CommentTarget, CommentView, comments_view};
use crate::reader::{FragmentView, InlineCodeCommentFragment};
use crate::text::{chars_of, string_from_chars, trim, repeat, repeat_chars, push_all, trim_chars};
use crate::widget::book_stat::{first_newline, lemma_first_newline, lemma_first_newline_at, text_lines};

verus! {

/// The text split at each newline, as `str::split('\n')` does: a text
/// without newline is one piece, and a final newline leaves an empty piece.
pub open spec fn split_newlines(s: Seq<char>) -> Seq<Seq<char>>
    decreases s.len(),
{
    proof {
        lemma_first_newline(s);
    }
    let i = first_newline(s);
    if i < 0 {
        seq![s]
    } else {
        seq![s.take(i)] + split_newlines(s.skip(i + 1))
    }
}

/// The text without its trailing newlines and carriage returns.
pub open spec fn trim_newlines_end(s: Seq<char>) -> Seq<char>
    decreases s.len(),
{
    if s.len() > 0 && (s.last() == '\n' || s.last() == '\r') {
        trim_newlines_end(s.drop_last())
    } else {
        s
    }
}

/// The text without its trailing carriage returns.
pub open spec fn trim_cr_end(s: Seq<char>) -> Seq<char>
    decreases s.len(),
{
    if s.len() > 0 && s.last() == '\r' {
        trim_cr_end(s.drop_last())
    } else {
        s
    }
}

/// End of the line that starts at `pos`: the index of the next newline, or
/// the length of the text.
fn line_end(chars: &Vec<char>, pos: usize) -> (j: usize)
    requires
        pos <= chars@.len(),
    ensures
        pos <= j <= chars@.len(),
        forall|k: int| pos <= k < j ==> #[trigger] chars@[k] != '\n',
        j < chars@.len() ==> chars@[j as int] == '\n',
{
    let n = chars.len();
    let mut j = pos;
    while j < n && chars[j] != '\n'
        invariant
            n == chars@.len(),
            pos <= j <= n,
            forall|k: int| pos <= k < j ==> #[trigger] chars@[k] != '\n',
        decreases n - j,
    {
        j += 1;
    }
    j
}

pub open spec fn seqs_view(v: Seq<Vec<char>>) -> Seq<Seq<char>> {
    v.map_values(|x: Vec<char>| x@)
}

/// The lines of the text, as `str::lines` gives them.
pub fn lines_of(chars: &Vec<char>) -> (r: Vec<Vec<char>>)
    ensures
        seqs_view(r@) == text_lines(chars@),
{
    let n = chars.len();
    let ghost s = chars@;
    let mut out: Vec<Vec<char>> = Vec::new();
    let mut pos: usize = 0;
    proof {
        assert(s.skip(0) =~= s);
        assert(seqs_view(out@) =~= Seq::<Seq<char>>::empty());
    }
    while pos < n
        invariant
            n == s.len(),
            s == chars@,
            pos <= n,
            text_lines(s) == seqs_view(out@) + text_lines(s.skip(pos as int)),
        decreases n - pos,
    {
        let j = line_end(chars, pos);
        let end = if j < n && j > pos && chars[j - 1] == '\r' {
            j - 1
        } else {
            j
        };
        let piece = crate::text::slice_to_vec(chars.as_slice(), pos, end);
        proof {
            let u = s.skip(pos as int);
            assert forall|k: int| 0 <= k < j - pos implies #[trigger] u[k] != '\n' by {
                assert(u[k] == s[pos + k]);
            }
            if j < n {
                assert(u[j - pos] == s[j as int]);
            }
            lemma_first_newline_at(u, j - pos);
            let line = if j < n {
                let l = u.take(j - pos);
                if l.len() > 0 && l.last() == '\r' {
                    l.drop_last()
                } else {
                    l
                }
            } else {
                u
            };
            assert(piece@ =~= line);
            if j < n {
                assert(u.skip(j - pos + 1) =~= s.skip(j + 1));
                assert(text_lines(u) == seq![line] + text_lines(s.skip(j + 1)));
            } else {
                assert(text_lines(u) == seq![line]);
                assert(s.skip(n as int) =~= Seq::<char>::empty());
                assert(text_lines(s.skip(n as int)) =~= Seq::<Seq<char>>::empty());
            }
        }
        let ghost before = out@;
        out.push(piece);
        proof {
            assert(seqs_view(out@) =~= seqs_view(before).push(piece@));
            assert(text_lines(s) =~= seqs_view(out@) + text_lines(if j < n {
                s.skip(j + 1)
            } else {
                s.skip(n as int)
            }));
        }
        pos = if j < n {
            j + 1
        } else {
            n
        };
    }
    proof {
        assert(s.skip(pos as int) =~= Seq::<char>::empty());
        assert(text_lines(s.skip(pos as int)) =~= Seq::<Seq<char>>::empty());
    }
    out
}

/// The pieces of the text between newlines, as `str::split('\n')` gives them.
pub fn split_at_newlines(chars: &Vec<char>) -> (r: Vec<Vec<char>>)
    ensures
        seqs_view(r@) == split_newlines(chars@),
{
    let n = chars.len();
    let ghost s = chars@;
    let mut out: Vec<Vec<char>> = Vec::new();
    let mut pos: usize = 0;
    proof {
        assert(s.skip(0) =~= s);
        assert(seqs_view(out@) =~= Seq::<Seq<char>>::empty());
    }
    loop
        invariant
            n == s.len(),
            s == chars@,
            pos <= n,
            split_newlines(s) == seqs_view(out@) + split_newlines(s.skip(pos as int)),
        decreases n - pos,
    {
        let j = line_end(chars, pos);
        let piece = crate::text::slice_to_vec(chars.as_slice(), pos, j);
        let ghost u = s.skip(pos as int);
        proof {
            assert forall|k: int| 0 <= k < j - pos implies #[trigger] u[k] != '\n' by {
                assert(u[k] == s[pos + k]);
            }
            if j < n {
                assert(u[j - pos] == s[j as int]);
            }
            lemma_first_newline_at(u, j - pos);
        }
        let ghost before = out@;
        if j < n {
            out.push(piece);
            proof {
                assert(piece@ =~= u.take(j - pos));
                assert(u.skip(j - pos + 1) =~= s.skip(j + 1));
                assert(seqs_view(out@) =~= seqs_view(before).push(piece@));
                assert(split_newlines(s) =~= seqs_view(out@) + split_newlines(s.skip(j + 1)));
            }
            pos = j + 1;
        } else {
            out.push(piece);
            proof {
                assert(piece@ =~= u);
                assert(seqs_view(out@) =~= seqs_view(before).push(piece@));
                assert(split_newlines(u) == seq![u]);
                assert(split_newlines(s) =~= seqs_view(out@));
            }
            return out;
        }
    }
}

/// The characters without their trailing newlines and carriage returns.
fn trim_newlines_end_exec(v: &Vec<char>) -> (r: Vec<char>)
    ensures
        r@ == trim_newlines_end(v@),
{
    let mut j = v.len();
    proof {
        assert(v@.take(j as int) =~= v@);
    }
    while j > 0 && (v[j - 1] == '\n' || v[j - 1] == '\r')
        invariant
            j <= v@.len(),
            trim_newlines_end(v@) == trim_newlines_end(v@.take(j as int)),
        decreases j,
    {
        proof {
            assert(v@.take(j as int).drop_last() =~= v@.take(j - 1));
        }
        j -= 1;
    }
    proof {
        if j > 0 {
            assert(v@.take(j as int).last() == v@[j - 1]);
        }
        assert(v@.subrange(0, j as int) =~= v@.take(j as int));
    }
    crate::text::slice_to_vec(v.as_slice(), 0, j)
}

/// The characters without their trailing carriage returns.
pub(crate) fn trim_cr_end_exec(v: &Vec<char>) -> (r: Vec<char>)
    ensures
        r@ == trim_cr_end(v@),
{
    let mut j = v.len();
    proof {
        assert(v@.take(j as int) =~= v@);
    }
    while j > 0 && v[j - 1] == '\r'
        invariant
            j <= v@.len(),
            trim_cr_end(v@) == trim_cr_end(v@.take(j as int)),
        decreases j,
    {
        proof {
            assert(v@.take(j as int).drop_last() =~= v@.take(j - 1));
        }
        j -= 1;
    }
    proof {
        if j > 0 {
            assert(v@.take(j as int).last() == v@[j - 1]);
        }
        assert(v@.subrange(0, j as int) =~= v@.take(j as int));
    }
    crate::text::slice_to_vec(v.as_slice(), 0, j)
}

/// The lines of a code block: a single empty line for an empty block.
pub open spec fn code_lines_of(content: Seq<char>) -> Seq<Seq<char>> {
    if content.len() == 0 {
        seq![Seq::<char>::empty()]
    } else {
        text_lines(content)
    }
}

/// A line index held within the `n` lines of a block.
pub open spec fn clamp_line(v: usize, n: nat) -> int {
    if v < n - 1 {
        v as int
    } else {
        n - 1
    }
}

/// First line of a comment's range within the block, ends put in order.
pub open spec fn span_first(r: (usize, usize), n: nat) -> int {
    let a = clamp_line(r.0, n);
    let b = clamp_line(r.1, n);
    if b < a {
        b
    } else {
        a
    }
}

/// Last line of a comment's range within the block, ends put in order.
pub open spec fn span_last(r: (usize, usize), n: nat) -> int {
    let a = clamp_line(r.0, n);
    let b = clamp_line(r.1, n);
    if b < a {
        a
    } else {
        b
    }
}

/// The comment is on a range of code lines that takes in line `i`.
pub open spec fn covers(c: CommentView, n: nat, i: int) -> bool {
    match c.target {
        CommentTarget::CodeBlock { line_range, .. } => span_first(line_range, n) <= i
            <= span_last(line_range, n),
        _ => false,
    }
}

/// Some comment covers line `i`: the line is drawn highlighted.
pub open spec fn line_covered(cs: Seq<CommentView>, n: nat, i: int) -> bool {
    exists|k: int| 0 <= k < cs.len() && covers(#[trigger] cs[k], n, i)
}

/// A code comment is shown at the last line of its range.
pub open spec fn anchored_at(c: CommentView, n: nat, i: int) -> bool {
    match c.target {
        CommentTarget::CodeBlock { line_range, .. } => span_last(line_range, n) == i,
        _ => false,
    }
}

/// A comment on one line whose text is one line is written after the code.
pub open spec fn is_single_line(c: CommentView) -> bool {
    match c.target {
        CommentTarget::CodeBlock { line_range, .. } => line_range.0 == line_range.1
            && !trim_newlines_end(c.content).contains('\n'),
        _ => false,
    }
}

pub open spec fn single_at(n: nat, i: int) -> spec_fn(CommentView) -> bool {
    |c: CommentView| anchored_at(c, n, i) && is_single_line(c)
}

pub open spec fn multi_at(n: nat, i: int) -> spec_fn(CommentView) -> bool {
    |c: CommentView| anchored_at(c, n, i) && !is_single_line(c)
}

/// The first line with more than white space.
pub open spec fn first_nonblank(lines: Seq<Seq<char>>) -> Option<Seq<char>>
    decreases lines.len(),
{
    if lines.len() == 0 {
        None
    } else if trim(lines[0]).len() > 0 {
        Some(lines[0])
    } else {
        first_nonblank(lines.drop_first())
    }
}

/// What an inline comment shows of its text: its first line with more than
/// white space, trimmed.
pub open spec fn comment_summary(content: Seq<char>) -> Seq<char> {
    match first_nonblank(text_lines(content)) {
        Some(l) => trim(l),
        None => "(comment)"@,
    }
}

pub open spec fn piece_prefix(first: bool) -> Seq<char> {
    if first {
        seq![' ', ' ', '⟵', ' ']
    } else {
        seq![' ', '|', ' ', '⟵', ' ']
    }
}

pub open spec fn sat_sub(a: int, b: int) -> int {
    if a > b {
        a - b
    } else {
        0
    }
}

/// The text cut to `room` characters, the last an ellipsis, when longer.
pub open spec fn shortened(line: Seq<char>, room: int) -> Seq<char> {
    if line.len() > room {
        if room - 1 == 0 {
            seq!['…']
        } else {
            line.take(room - 1).push('…')
        }
    } else {
        line
    }
}

/// What an inline comment adds to its code line, the line being
/// `appended` characters long so far and `width` wide.
pub open spec fn piece_text(c: CommentView, first: bool, appended: int, width: int) -> Seq<char> {
    let prefix = piece_prefix(first);
    let room = sat_sub(sat_sub(width, appended), prefix.len() as int);
    if room == 0 {
        prefix
    } else {
        prefix + shortened(comment_summary(c.content), room)
    }
}

/// The text that the inline comments add after a code line.
pub open spec fn inline_text(cs: Seq<CommentView>, first: bool, appended: int, width: int) -> Seq<char>
    decreases cs.len(),
{
    if cs.len() == 0 {
        Seq::empty()
    } else {
        let p = piece_text(cs[0], first, appended, width);
        p + inline_text(cs.drop_first(), false, appended + p.len(), width)
    }
}

/// Where each inline comment stands on its code line.
pub open spec fn inline_frags(cs: Seq<CommentView>, first: bool, appended: int, width: int) -> Seq<
    FragmentView,
>
    decreases cs.len(),
{
    if cs.len() == 0 {
        Seq::empty()
    } else {
        let p = piece_text(cs[0], first, appended, width);
        seq![
            FragmentView {
                chapter_href: cs[0].chapter_href,
                target: cs[0].target,
                start_column: appended,
                end_column: appended + p.len(),
            },
        ] + inline_frags(cs.drop_first(), false, appended + p.len(), width)
    }
}

/// The inline comments of a code line follow one another after the code,
/// each over at least one column, up to the end of the line's text: the
/// columns a selection is matched against are those the text shows.
pub proof fn law_inline_comments_tile_the_line(cs: Seq<CommentView>, first: bool, appended: int, width: int)
    ensures
        inline_frags(cs, first, appended, width).len() == cs.len(),
        cs.len() > 0 ==> inline_frags(cs, first, appended, width)[0].start_column == appended,
        cs.len() > 0 ==> inline_frags(cs, first, appended, width).last().end_column == appended
            + inline_text(cs, first, appended, width).len(),
        forall|k: int|
            0 <= k < cs.len() ==> #[trigger] inline_frags(cs, first, appended, width)[k].start_column
                < inline_frags(cs, first, appended, width)[k].end_column,
        forall|k: int|
            0 <= k < cs.len() - 1 ==> #[trigger] inline_frags(cs, first, appended, width)[k].end_column
                == inline_frags(cs, first, appended, width)[k + 1].start_column,
        forall|k: int|
            0 <= k < cs.len() ==> #[trigger] inline_frags(cs, first, appended, width)[k].chapter_href
                == cs[k].chapter_href && inline_frags(cs, first, appended, width)[k].target
                == cs[k].target,
    decreases cs.len(),
{
    if cs.len() > 0 {
        let p = piece_text(cs[0], first, appended, width);
        let rest = cs.drop_first();
        let f = inline_frags(cs, first, appended, width);
        let g = inline_frags(rest, false, appended + p.len(), width);
        law_inline_comments_tile_the_line(rest, false, appended + p.len(), width);
        assert(p.len() >= 4);
        assert(f == seq![f[0]] + g);
        assert forall|k: int| 0 <= k < cs.len() implies #[trigger] f[k].start_column < f[k].end_column by {
            if k > 0 {
                assert(f[k] == g[k - 1]);
            }
        }
        assert forall|k: int| 0 <= k < cs.len() - 1 implies #[trigger] f[k].end_column == f[k
            + 1].start_column by {
            assert(f[k + 1] == g[k]);
            if k > 0 {
                assert(f[k] == g[k - 1]);
            }
        }
        assert forall|k: int| 0 <= k < cs.len() implies #[trigger] f[k].chapter_href == cs[k].chapter_href
            && f[k].target == cs[k].target by {
            if k > 0 {
                assert(f[k] == g[k - 1]);
                assert(rest[k - 1] == cs[k]);
            }
        }
        let t = inline_text(cs, first, appended, width);
        assert(t == p + inline_text(rest, false, appended + p.len(), width));
        if rest.len() > 0 {
            assert(f.last() == g.last());
        } else {
            assert(f.last() == f[0]);
            assert(inline_text(rest, false, appended + p.len(), width).len() == 0);
        }
    }
}

pub open spec fn frags_view(v: Seq<InlineCodeCommentFragment>) -> Seq<FragmentView> {
    v.map_values(|f: InlineCodeCommentFragment| f@)
}

fn comment_summary_exec(content: &str) -> (r: Vec<char>)
    ensures
        r@ == comment_summary(content@),
{
    let chars = chars_of(content);
    let lines = lines_of(&chars);
    let ghost ls = seqs_view(lines@);
    let mut k: usize = 0;
    proof {
        assert(ls.skip(0) =~= ls);
    }
    while k < lines.len()
        invariant
            ls == seqs_view(lines@),
            ls == text_lines(content@),
            k <= ls.len(),
            first_nonblank(ls) == first_nonblank(ls.skip(k as int)),
        decreases ls.len() - k,
    {
        let t = trim_chars(lines[k].as_slice());
        proof {
            assert(ls.skip(k as int)[0] == lines@[k as int]@);
            assert(ls.skip(k as int).drop_first() =~= ls.skip(k + 1));
        }
        if t.len() > 0 {
            return t;
        }
        k += 1;
    }
    proof {
        assert(ls.skip(k as int).len() == 0);
        reveal_strlit("(comment)");
    }
    chars_of("(comment)")
}

proof fn lemma_shortened_len(line: Seq<char>, room: int)
    requires
        room >= 1,
    ensures
        shortened(line, room).len() <= room,
{
}

/// The piece an inline comment adds, and a bound on the line it makes.
fn piece_exec(c: &Comment, first: bool, appended: usize, width: usize) -> (p: Vec<char>)
    ensures
        p@ == piece_text(c@, first, appended as int, width as int),
        p@.len() <= 5 || appended + p@.len() <= width,
{
    let mut p: Vec<char> = if first {
        vec![' ', ' ', '⟵', ' ']
    } else {
        vec![' ', '|', ' ', '⟵', ' ']
    };
    proof {
        assert(p@ =~= piece_prefix(first));
    }
    let prefix_len = p.len();
    let available_width = width.saturating_sub(appended);
    let room = available_width.saturating_sub(prefix_len);
    if room == 0 {
        return p;
    }
    let line = comment_summary_exec(c.content.as_str());
    let ghost pre = p@;
    if line.len() > room {
        let allowed = room - 1;
        if allowed == 0 {
            p.push('…');
            proof {
                assert(p@ =~= pre + seq!['…']);
            }
        } else {
            let head = crate::text::slice_to_vec(line.as_slice(), 0, allowed);
            push_all(&mut p, head.as_slice());
            p.push('…');
            proof {
                assert(head@ =~= line@.take(allowed as int));
                assert(p@ =~= pre + line@.take(allowed as int).push('…'));
            }
        }
    } else {
        push_all(&mut p, line.as_slice());
    }
    proof {
        lemma_shortened_len(line@, room as int);
    }
    p
}

/// A code line with the inline comments written after it: the line's text
/// and where each comment stands on it.
fn code_line_text(
    base: &Vec<char>,
    comments: &[Comment],
    singles: &Vec<usize>,
    width: usize,
) -> (r: (Vec<char>, Vec<InlineCodeCommentFragment>))
    requires
        forall|k: int| 0 <= k < singles@.len() ==> #[trigger] singles@[k] < comments@.len(),
        base@.len() + 5 * singles@.len() <= usize::MAX,
    ensures
        r.0@ == base@ + inline_text(
            singles@.map_values(|k: usize| comments@[k as int]@),
            true,
            base@.len() as int,
            width as int,
        ),
        frags_view(r.1@) == inline_frags(
            singles@.map_values(|k: usize| comments@[k as int]@),
            true,
            base@.len() as int,
            width as int,
        ),
{
    let ghost sv = singles@.map_values(|k: usize| comments@[k as int]@);
    let ghost b = base@.len() as int;
    let mut text: Vec<char> = crate::text::slice_to_vec(base.as_slice(), 0, base.len());
    let mut frags: Vec<InlineCodeCommentFragment> = Vec::new();
    let mut k: usize = 0;
    proof {
        assert(text@ =~= base@);
        assert(sv.skip(0) =~= sv);
        assert(frags_view(frags@) =~= Seq::<FragmentView>::empty());
    }
    while k < singles.len()
        invariant
            sv == singles@.map_values(|k: usize| comments@[k as int]@),
            b == base@.len(),
            forall|j: int| 0 <= j < singles@.len() ==> #[trigger] singles@[j] < comments@.len(),
            base@.len() + 5 * singles@.len() <= usize::MAX,
            k <= singles@.len(),
            text@.len() <= b + 5 * k || text@.len() <= width + 5 * k,
            text@.len() >= b,
            text@ + inline_text(sv.skip(k as int), k == 0, text@.len() as int, width as int)
                == base@ + inline_text(sv, true, b, width as int),
            frags_view(frags@) + inline_frags(
                sv.skip(k as int),
                k == 0,
                text@.len() as int,
                width as int,
            ) == inline_frags(sv, true, b, width as int),
        decreases singles@.len() - k,
    {
        let idx = singles[k];
        let c = &comments[idx];
        let appended = text.len();
        let p = piece_exec(c, k == 0, appended, width);
        let ghost rest = sv.skip(k as int);
        proof {
            assert(rest[0] == sv[k as int]);
            assert(sv[k as int] == c@);
            assert(rest.drop_first() =~= sv.skip(k + 1));
        }
        let ghost before_text = text@;
        let ghost before_frags = frags_view(frags@);
        push_all(&mut text, p.as_slice());
        let f = InlineCodeCommentFragment {
            chapter_href: c.chapter_href.clone(),
            target: c.target,
            start_column: appended,
            end_column: text.len(),
        };
        frags.push(f);
        proof {
            assert(frags_view(frags@) =~= before_frags.push(f@));
            assert(text@ == before_text + p@);
            assert(before_text + inline_text(rest, k == 0, appended as int, width as int) =~= text@
                + inline_text(sv.skip(k + 1), false, text@.len() as int, width as int));
            assert(before_frags + inline_frags(rest, k == 0, appended as int, width as int)
                =~= frags_view(frags@) + inline_frags(
                sv.skip(k + 1),
                false,
                text@.len() as int,
                width as int,
            ));
        }
        k += 1;
    }
    proof {
        assert(sv.skip(k as int).len() == 0);
        assert(text@ + Seq::<char>::empty() =~= text@);
        assert(frags_view(frags@) + Seq::<FragmentView>::empty() =~= frags_view(frags@));
    }
    (text, frags)
}

/// The lines `textwrap::wrap(text, width)` gives for a text and a width.
pub uninterp spec fn wrapped_lines(text: Seq<char>, width: usize) -> Seq<Seq<char>>;

pub open spec fn strings_view(v: Seq<String>) -> Seq<Seq<char>> {
    v.map_values(|x: String| x@)
}

/// Wraps text to a width with `textwrap::wrap` and its default options. The
/// result is named, not stated: it depends on the text and the width only.
#[verifier::external_body]
pub(crate) fn wrap_line(text: &str, width: usize) -> (r: Vec<String>)
    ensures
        strings_view(r@) == wrapped_lines(text@, width),
{
    textwrap::wrap(text, width).into_iter().map(std::borrow::Cow::into_owned).collect()
}

/// A row of a laid-out code block.
pub enum CodeBlockRow {
    /// An empty line.
    Blank,
    /// A line of code: its text (indentation, code, then the inline
    /// comments), where the code starts and ends in it, whether a comment
    /// covers the line, its index among the block's lines, and where the
    /// inline comments stand.
    Code {
        text: String,
        code_start: usize,
        code_end: usize,
        covered: bool,
        line_index: usize,
        total_lines: usize,
        fragments: Vec<InlineCodeCommentFragment>,
    },
    /// A line of a longer comment shown under the code line it ends at.
    Note { chapter_href: String, target: CommentTarget, prefix: String, segment: String },
}

/// A row as the contracts read it.
pub enum RowView {
    Blank,
    Code {
        text: Seq<char>,
        code_start: nat,
        code_end: nat,
        covered: bool,
        line_index: nat,
        total_lines: nat,
        fragments: Seq<FragmentView>,
    },
    Note { chapter_href: Seq<char>, target: CommentTarget, prefix: Seq<char>, segment: Seq<char> },
}

impl View for CodeBlockRow {
    type V = RowView;

    open spec fn view(&self) -> RowView {
        match self {
            CodeBlockRow::Blank => RowView::Blank,
            CodeBlockRow::Code {
                text,
                code_start,
                code_end,
                covered,
                line_index,
                total_lines,
                fragments,
            } => RowView::Code {
                text: text@,
                code_start: *code_start as nat,
                code_end: *code_end as nat,
                covered: *covered,
                line_index: *line_index as nat,
                total_lines: *total_lines as nat,
                fragments: frags_view(fragments@),
            },
            CodeBlockRow::Note { chapter_href, target, prefix, segment } => RowView::Note {
                chapter_href: chapter_href@,
                target: *target,
                prefix: prefix@,
                segment: segment@,
            },
        }
    }
}

pub open spec fn rows_view(v: Seq<CodeBlockRow>) -> Seq<RowView> {
    v.map_values(|r: CodeBlockRow| r@)
}

/// The lines of a longer comment: each line of its text wrapped, blank lines
/// kept once where several follow each other.
pub open spec fn comment_segments(parts: Seq<Seq<char>>, prev_blank: bool, avail: usize) -> Seq<
    Seq<char>,
>
    decreases parts.len(),
{
    if parts.len() == 0 {
        Seq::empty()
    } else {
        let line = trim_cr_end(parts[0]);
        if trim(line).len() == 0 {
            if prev_blank {
                comment_segments(parts.drop_first(), true, avail)
            } else {
                seq![Seq::<char>::empty()] + comment_segments(parts.drop_first(), true, avail)
            }
        } else {
            wrapped_lines(line, avail) + comment_segments(parts.drop_first(), false, avail)
        }
    }
}

/// The width a longer comment is wrapped to: the width less its arrow
/// prefix as UTF-8 bytes, at least ten.
pub open spec fn note_width(width: int, indent: nat) -> usize {
    let w = sat_sub(width, (2 * indent + 4) as int);
    if w > 10 {
        w as usize
    } else {
        10
    }
}

pub open spec fn note_segments(content: Seq<char>, avail: usize) -> Seq<Seq<char>> {
    let body = trim_newlines_end(content);
    if trim(body).len() == 0 {
        seq!["(no content)"@]
    } else {
        comment_segments(split_newlines(body), false, avail)
    }
}

pub open spec fn note_prefix(indent: nat, first: bool) -> Seq<char> {
    repeat(' ', 2 * indent) + if first {
        seq!['⟵', ' ']
    } else {
        seq![' ', ' ', ' ']
    }
}

/// The rows of a longer comment: an arrow before the first, an indentation
/// before the others.
pub open spec fn note_rows(c: CommentView, width: int, indent: nat) -> Seq<RowView> {
    let segs = note_segments(c.content, note_width(width, indent));
    Seq::new(
        segs.len(),
        |k: int|
            RowView::Note {
                chapter_href: c.chapter_href,
                target: c.target,
                prefix: note_prefix(indent, k == 0),
                segment: segs[k],
            },
    )
}

fn comment_segments_exec(parts: &Vec<Vec<char>>, avail: usize) -> (r: Vec<Vec<char>>)
    requires
        avail >= 1,
    ensures
        seqs_view(r@) == comment_segments(seqs_view(parts@), false, avail),
{
    let ghost ps = seqs_view(parts@);
    let mut out: Vec<Vec<char>> = Vec::new();
    let mut prev_blank = false;
    let mut k: usize = 0;
    proof {
        assert(ps.skip(0) =~= ps);
        assert(seqs_view(out@) =~= Seq::<Seq<char>>::empty());
    }
    while k < parts.len()
        invariant
            ps == seqs_view(parts@),
            avail >= 1,
            k <= ps.len(),
            seqs_view(out@) + comment_segments(ps.skip(k as int), prev_blank, avail)
                == comment_segments(ps, false, avail),
        decreases ps.len() - k,
    {
        let line = trim_cr_end_exec(&parts[k]);
        let ghost rest = ps.skip(k as int);
        proof {
            assert(rest[0] == parts@[k as int]@);
            assert(rest.drop_first() =~= ps.skip(k + 1));
        }
        let ghost before = seqs_view(out@);
        if crate::text::is_whitespace_only(line.as_slice()) {
            if !prev_blank {
                out.push(Vec::new());
                proof {
                    assert(seqs_view(out@) =~= before.push(Seq::<char>::empty()));
                    assert(before + comment_segments(rest, false, avail) =~= seqs_view(out@)
                        + comment_segments(ps.skip(k + 1), true, avail));
                }
                prev_blank = true;
            }
        } else {
            let text = string_from_chars(line.as_slice());
            let wrapped = wrap_line(text.as_str(), avail);
            let mut j: usize = 0;
            let ghost w = strings_view(wrapped@);
            proof {
                assert(w.take(0) =~= Seq::<Seq<char>>::empty());
                assert(seqs_view(out@) =~= before + w.take(0));
            }
            while j < wrapped.len()
                invariant
                    w == strings_view(wrapped@),
                    j <= w.len(),
                    seqs_view(out@) == before + w.take(j as int),
                decreases w.len() - j,
            {
                let piece = chars_of(wrapped[j].as_str());
                let ghost b2 = seqs_view(out@);
                out.push(piece);
                proof {
                    assert(seqs_view(out@) =~= b2.push(piece@));
                    assert(w.take(j + 1) =~= w.take(j as int).push(w[j as int]));
                }
                j += 1;
            }
            proof {
                assert(w.take(j as int) =~= w);
                assert(before + comment_segments(rest, prev_blank, avail) =~= seqs_view(out@)
                    + comment_segments(ps.skip(k + 1), false, avail));
            }
            prev_blank = false;
        }
        k += 1;
    }
    proof {
        assert(ps.skip(k as int).len() == 0);
        assert(seqs_view(out@) + Seq::<Seq<char>>::empty() =~= seqs_view(out@));
    }
    out
}

/// Lays out a longer comment on a code block as rows shown under the code.
pub fn render_inline_code_comment(comment: &Comment, width: usize, indent: usize) -> (r: Vec<
    CodeBlockRow,
>)
    requires
        2 * indent + 4 <= usize::MAX,
    ensures
        rows_view(r@) == note_rows(comment@, width as int, indent as nat),
{
    let indent_chars = repeat_chars(' ', 2 * indent);
    let mut arrow = repeat_chars(' ', 2 * indent);
    arrow.push('⟵');
    arrow.push(' ');
    let mut cont = repeat_chars(' ', 2 * indent);
    cont.push(' ');
    cont.push(' ');
    cont.push(' ');
    proof {
        assert(arrow@ =~= note_prefix(indent as nat, true));
        assert(cont@ =~= note_prefix(indent as nat, false));
    }
    let byte_len = 2 * indent + 4;
    let w = width.saturating_sub(byte_len);
    let avail: usize = if w > 10 {
        w
    } else {
        10
    };
    let chars = chars_of(comment.content.as_str());
    let body = trim_newlines_end_exec(&chars);
    let segs: Vec<Vec<char>> = if crate::text::is_whitespace_only(body.as_slice()) {
        proof {
            reveal_strlit("(no content)");
        }
        let mut v: Vec<Vec<char>> = Vec::new();
        v.push(chars_of("(no content)"));
        proof {
            assert(seqs_view(v@) =~= note_segments(comment@.content, avail));
        }
        v
    } else {
        let parts = split_at_newlines(&body);
        comment_segments_exec(&parts, avail)
    };
    let ghost sv = seqs_view(segs@);
    let ghost want = note_rows(comment@, width as int, indent as nat);
    proof {
        assert(note_width(width as int, indent as nat) == avail);
        assert(sv == note_segments(comment@.content, avail));
    }
    let mut rows: Vec<CodeBlockRow> = Vec::new();
    let mut k: usize = 0;
    while k < segs.len()
        invariant
            sv == seqs_view(segs@),
            want.len() == sv.len(),
            want == note_rows(comment@, width as int, indent as nat),
            sv == note_segments(comment@.content, note_width(width as int, indent as nat)),
            arrow@ == note_prefix(indent as nat, true),
            cont@ == note_prefix(indent as nat, false),
            k <= sv.len(),
            rows_view(rows@) == want.take(k as int),
        decreases sv.len() - k,
    {
        let prefix = if k == 0 {
            string_from_chars(arrow.as_slice())
        } else {
            string_from_chars(cont.as_slice())
        };
        let row = CodeBlockRow::Note {
            chapter_href: comment.chapter_href.clone(),
            target: comment.target,
            prefix,
            segment: string_from_chars(segs[k].as_slice()),
        };
        let ghost before = rows_view(rows@);
        rows.push(row);
        proof {
            assert(rows_view(rows@) =~= before.push(row@));
            assert(want[k as int] == row@);
            assert(want.take(k + 1) =~= want.take(k as int).push(want[k as int]));
        }
        k += 1;
    }
    proof {
        assert(want.take(k as int) =~= want);
    }
    rows
}

/// The rows of a code line: the line, then its longer comments.
pub open spec fn code_row(lines: Seq<Seq<char>>, i: int, cs: Seq<CommentView>, width: int, indent: nat) -> RowView {
    let n = lines.len();
    let base = repeat(' ', 2 * indent) + lines[i];
    let singles = cs.filter(single_at(n, i));
    RowView::Code {
        text: base + inline_text(singles, true, base.len() as int, width),
        code_start: 2 * indent,
        code_end: base.len(),
        covered: line_covered(cs, n, i),
        line_index: i as nat,
        total_lines: n,
        fragments: inline_frags(singles, true, base.len() as int, width),
    }
}

pub open spec fn notes_of(ms: Seq<CommentView>, width: int, indent: nat) -> Seq<RowView>
    decreases ms.len(),
{
    if ms.len() == 0 {
        Seq::empty()
    } else {
        note_rows(ms[0], width, indent) + notes_of(ms.drop_first(), width, indent)
    }
}

/// The rows of the code lines from `from` on.
pub open spec fn line_rows(lines: Seq<Seq<char>>, from: int, cs: Seq<CommentView>, width: int, indent: nat) -> Seq<
    RowView,
>
    decreases lines.len() - from,
{
    if from < 0 || from >= lines.len() {
        Seq::empty()
    } else {
        seq![code_row(lines, from, cs, width, indent)] + notes_of(
            cs.filter(multi_at(lines.len(), from)),
            width,
            indent,
        ) + line_rows(lines, from + 1, cs, width, indent)
    }
}

/// The rows of a code block: an empty row first when asked, the code lines
/// with their comments (those of the block's node, when it has one), and an
/// empty row last.
pub open spec fn code_block_rows(
    content: Seq<char>,
    cs: Seq<CommentView>,
    node_index: Option<usize>,
    width: int,
    indent: nat,
    spacing_before: bool,
) -> Seq<RowView> {
    let comments = if node_index is Some {
        cs
    } else {
        Seq::empty()
    };
    (if spacing_before {
        seq![RowView::Blank]
    } else {
        Seq::empty()
    }) + line_rows(code_lines_of(content), 0, comments, width, indent) + seq![RowView::Blank]
}

pub proof fn lemma_text_lines_bounded(s: Seq<char>)
    ensures
        s.len() > 0 ==> text_lines(s).len() >= 1,
        forall|k: int| 0 <= k < text_lines(s).len() ==> (#[trigger] text_lines(s)[k]).len() <= s.len(),
    decreases s.len(),
{
    if s.len() > 0 {
        lemma_first_newline(s);
        let i = first_newline(s);
        if i >= 0 {
            lemma_text_lines_bounded(s.skip(i + 1));
            let rest = text_lines(s.skip(i + 1));
            let l = s.take(i);
            let line = if l.len() > 0 && l.last() == '\r' {
                l.drop_last()
            } else {
                l
            };
            assert forall|k: int| 0 <= k < text_lines(s).len() implies (#[trigger] text_lines(s)[k]).len()
                <= s.len() by {
                if k > 0 {
                    assert(text_lines(s)[k] == rest[k - 1]);
                }
            }
        }
    }
}

/// The first and last line of a code comment's range within `n` lines.
fn comment_span(c: &Comment, n: usize) -> (r: Option<(usize, usize)>)
    requires
        n >= 1,
    ensures
        match c@.target {
            CommentTarget::CodeBlock { line_range, .. } => r == Some(
                (span_first(line_range, n as nat) as usize, span_last(line_range, n as nat) as usize),
            ),
            _ => r is None,
        },
{
    match c.target {
        CommentTarget::CodeBlock { line_range, .. } => {
            let a = if line_range.0 < n - 1 {
                line_range.0
            } else {
                n - 1
            };
            let b = if line_range.1 < n - 1 {
                line_range.1
            } else {
                n - 1
            };
            if b < a {
                Some((b, a))
            } else {
                Some((a, b))
            }
        },
        _ => None,
    }
}

fn is_single_line_exec(c: &Comment) -> (b: bool)
    ensures
        b == is_single_line(c@),
{
    match c.target {
        CommentTarget::CodeBlock { line_range, .. } => {
            if line_range.0 != line_range.1 {
                return false;
            }
            let chars = chars_of(c.content.as_str());
            let body = trim_newlines_end_exec(&chars);
            !crate::text::contains_char(body.as_slice(), '\n')
        },
        _ => false,
    }
}

pub open spec fn picked(cs: Seq<CommentView>, idx: Seq<usize>) -> Seq<CommentView> {
    idx.map_values(|k: usize| cs[k as int])
}

/// Indices of the comments shown at line `i`: those written after the line
/// when `single`, else those shown under it.
fn select_comments(comments: &[Comment], n: usize, i: usize, single: bool) -> (r: Vec<usize>)
    requires
        n >= 1,
    ensures
        forall|k: int| 0 <= k < r@.len() ==> #[trigger] r@[k] < comments@.len(),
        r@.len() <= comments@.len(),
        picked(comments_view(comments@), r@) == comments_view(comments@).filter(
            if single {
                single_at(n as nat, i as int)
            } else {
                multi_at(n as nat, i as int)
            },
        ),
{
    let ghost cs = comments_view(comments@);
    let ghost pred = if single {
        single_at(n as nat, i as int)
    } else {
        multi_at(n as nat, i as int)
    };
    let mut out: Vec<usize> = Vec::new();
    let mut j: usize = 0;
    proof {
        reveal(Seq::filter);
        assert(cs.take(0).filter(pred) =~= Seq::<CommentView>::empty());
        assert(picked(cs, out@) =~= Seq::<CommentView>::empty());
    }
    while j < comments.len()
        invariant
            cs == comments_view(comments@),
            pred == (if single {
                single_at(n as nat, i as int)
            } else {
                multi_at(n as nat, i as int)
            }),
            n >= 1,
            j <= comments@.len(),
            out@.len() <= j,
            forall|k: int| 0 <= k < out@.len() ==> #[trigger] out@[k] < comments@.len(),
            picked(cs, out@) == cs.take(j as int).filter(pred),
        decreases comments@.len() - j,
    {
        let c = &comments[j];
        let span = comment_span(c, n);
        let anchored = match span {
            Some((_, last)) => last == i,
            None => false,
        };
        let keep = anchored && (is_single_line_exec(c) == single);
        proof {
            assert(cs[j as int] == c@);
            assert(cs.take(j + 1) =~= cs.take(j as int).push(c@));
            cs.take(j as int).lemma_filter_push(c@, pred);
            assert(keep == pred(c@));
        }
        let ghost before = out@;
        if keep {
            out.push(j);
            proof {
                assert(picked(cs, out@) =~= picked(cs, before).push(c@));
            }
        } else {
            proof {
                assert(picked(cs, out@) =~= picked(cs, before));
            }
        }
        j += 1;
    }
    proof {
        assert(cs.take(j as int) =~= cs);
    }
    out
}

fn covered_exec(comments: &[Comment], n: usize, i: usize) -> (b: bool)
    requires
        n >= 1,
    ensures
        b == line_covered(comments_view(comments@), n as nat, i as int),
{
    let ghost cs = comments_view(comments@);
    let mut j: usize = 0;
    while j < comments.len()
        invariant
            cs == comments_view(comments@),
            n >= 1,
            j <= comments@.len(),
            forall|k: int| 0 <= k < j ==> !covers(#[trigger] cs[k], n as nat, i as int),
        decreases comments@.len() - j,
    {
        let c = &comments[j];
        proof {
            assert(cs[j as int] == c@);
        }
        match comment_span(c, n) {
            Some((first, last)) => {
                if first <= i && i <= last {
                    return true;
                }
            },
            None => {},
        }
        j += 1;
    }
    false
}

/// Lays out a code block: its lines, each marked when a comment covers it
/// and followed by its comments, the short ones on the line itself, the
/// longer ones under it. `node_comments` are the comments of the block's
/// node; a block without a node shows none.
pub fn render_code_block(
    content: &str,
    node_comments: &[Comment],
    node_index: Option<usize>,
    width: usize,
    indent: usize,
    add_spacing_before: bool,
) -> (r: Vec<CodeBlockRow>)
    requires
        2 * indent + content@.len() + 5 * node_comments@.len() + 4 <= usize::MAX,
    ensures
        rows_view(r@) == code_block_rows(
            content@,
            comments_view(node_comments@),
            node_index,
            width as int,
            indent as nat,
            add_spacing_before,
        ),
{
    let no_comments: Vec<Comment> = Vec::new();
    let comments: &[Comment] = match node_index {
        Some(_) => node_comments,
        None => no_comments.as_slice(),
    };
    let ghost cs = comments_view(comments@);
    proof {
        assert(cs == if node_index is Some {
            comments_view(node_comments@)
        } else {
            Seq::<CommentView>::empty()
        });
    }
    let chars = chars_of(content);
    let lines: Vec<Vec<char>> = if chars.len() == 0 {
        let mut v: Vec<Vec<char>> = Vec::new();
        v.push(Vec::new());
        proof {
            assert(seqs_view(v@) =~= seq![Seq::<char>::empty()]);
        }
        v
    } else {
        lines_of(&chars)
    };
    let ghost ls = seqs_view(lines@);
    proof {
        lemma_text_lines_bounded(content@);
        assert(ls == code_lines_of(content@));
        assert forall|k: int| 0 <= k < ls.len() implies (#[trigger] ls[k]).len() <= content@.len() by {
            if chars@.len() > 0 {
                assert(ls[k] == text_lines(content@)[k]);
            }
        }
    }
    let n = lines.len();
    let indent_chars = repeat_chars(' ', 2 * indent);
    let ghost want = code_block_rows(
        content@,
        comments_view(node_comments@),
        node_index,
        width as int,
        indent as nat,
        add_spacing_before,
    );
    let ghost head: Seq<RowView> = if add_spacing_before {
        seq![RowView::Blank]
    } else {
        Seq::empty()
    };
    let mut rows: Vec<CodeBlockRow> = Vec::new();
    if add_spacing_before {
        rows.push(CodeBlockRow::Blank);
    }
    proof {
        assert(rows_view(rows@) =~= head);
    }
    let mut i: usize = 0;
    while i < n
        invariant
            n == ls.len(),
            n >= 1,
            ls == seqs_view(lines@),
            ls == code_lines_of(content@),
            cs == comments_view(comments@),
            comments@.len() <= node_comments@.len(),
            forall|k: int| 0 <= k < ls.len() ==> (#[trigger] ls[k]).len() <= content@.len(),
            2 * indent + content@.len() + 5 * node_comments@.len() + 4 <= usize::MAX,
            indent_chars@ == repeat(' ', 2 * indent as nat),
            i <= n,
            head + line_rows(ls, 0, cs, width as int, indent as nat) == rows_view(rows@)
                + line_rows(ls, i as int, cs, width as int, indent as nat),
        decreases n - i,
    {
        let mut base = crate::text::slice_to_vec(indent_chars.as_slice(), 0, indent_chars.len());
        push_all(&mut base, lines[i].as_slice());
        proof {
            assert(lines@[i as int]@ == ls[i as int]);
            assert(base@ =~= repeat(' ', 2 * indent as nat) + ls[i as int]);
        }
        let singles = select_comments(comments, n, i, true);
        let multis = select_comments(comments, n, i, false);
        let covered = covered_exec(comments, n, i);
        let (text, fragments) = code_line_text(&base, comments, &singles, width);
        let row = CodeBlockRow::Code {
            text: string_from_chars(text.as_slice()),
            code_start: 2 * indent,
            code_end: base.len(),
            covered,
            line_index: i,
            total_lines: n,
            fragments,
        };
        proof {
            assert(picked(cs, singles@) =~= singles@.map_values(|k: usize| comments@[k as int]@));
            assert(row@ == code_row(ls, i as int, cs, width as int, indent as nat));
        }
        let ghost before = rows_view(rows@);
        rows.push(row);
        proof {
            assert(rows_view(rows@) =~= before.push(row@));
        }
        let ghost ms = picked(cs, multis@);
        let mut m: usize = 0;
        proof {
            assert(ms.skip(0) =~= ms);
            assert(rows_view(rows@) + notes_of(ms.skip(0), width as int, indent as nat) =~= before
                + seq![row@] + notes_of(ms, width as int, indent as nat));
        }
        while m < multis.len()
            invariant
                ms == picked(cs, multis@),
                cs == comments_view(comments@),
                forall|k: int| 0 <= k < multis@.len() ==> #[trigger] multis@[k] < comments@.len(),
                2 * indent + 4 <= usize::MAX,
                m <= multis@.len(),
                rows_view(rows@) + notes_of(ms.skip(m as int), width as int, indent as nat) == before
                    + seq![row@] + notes_of(ms, width as int, indent as nat),
            decreases multis@.len() - m,
        {
            let idx = multis[m];
            let note = render_inline_code_comment(&comments[idx], width, indent);
            let ghost b2 = rows_view(rows@);
            proof {
                assert(ms[m as int] == cs[idx as int]);
                assert(cs[idx as int] == comments@[idx as int]@);
                assert(ms.skip(m as int)[0] == ms[m as int]);
                assert(ms.skip(m as int).drop_first() =~= ms.skip(m + 1));
            }
            let mut q: usize = 0;
            let ghost nv = rows_view(note@);
            while q < note.len()
                invariant
                    nv == rows_view(note@),
                    q <= note@.len(),
                    rows_view(rows@) == b2 + nv.take(q as int),
                decreases note@.len() - q,
            {
                let ghost b3 = rows_view(rows@);
                let r = note_row_copy(&note[q]);
                rows.push(r);
                proof {
                    assert(rows_view(rows@) =~= b3.push(nv[q as int]));
                    assert(nv.take(q + 1) =~= nv.take(q as int).push(nv[q as int]));
                }
                q += 1;
            }
            proof {
                assert(nv.take(q as int) =~= nv);
                assert(b2 + nv + notes_of(ms.skip(m + 1), width as int, indent as nat) =~= b2
                    + notes_of(ms.skip(m as int), width as int, indent as nat));
            }
            m += 1;
        }
        proof {
            assert(ms.skip(m as int).len() == 0);
            assert(ms == cs.filter(multi_at(n as nat, i as int)));
            assert(line_rows(ls, i as int, cs, width as int, indent as nat) == seq![row@] + notes_of(
                ms,
                width as int,
                indent as nat,
            ) + line_rows(ls, i + 1, cs, width as int, indent as nat));
            assert(rows_view(rows@) + Seq::<RowView>::empty() =~= rows_view(rows@));
            assert(before + line_rows(ls, i as int, cs, width as int, indent as nat) =~= rows_view(
                rows@,
            ) + line_rows(ls, i + 1, cs, width as int, indent as nat));
        }
        i += 1;
    }
    let ghost b4 = rows_view(rows@);
    rows.push(CodeBlockRow::Blank);
    proof {
        assert(line_rows(ls, n as int, cs, width as int, indent as nat) == Seq::<RowView>::empty());
        assert(rows_view(rows@) =~= b4.push(RowView::Blank));
        assert(want =~= head + line_rows(ls, 0, cs, width as int, indent as nat) + seq![
            RowView::Blank,
        ]);
    }
    rows
}

/// A copy of a row.
fn note_row_copy(r: &CodeBlockRow) -> (c: CodeBlockRow)
    ensures
        c@ == r@,
{
    match r {
        CodeBlockRow::Blank => CodeBlockRow::Blank,
        CodeBlockRow::Code {
            text,
            code_start,
            code_end,
            covered,
            line_index,
            total_lines,
            fragments,
        } => {
            let mut fs: Vec<InlineCodeCommentFragment> = Vec::new();
            let mut k: usize = 0;
            while k < fragments.len()
                invariant
                    k <= fragments@.len(),
                    frags_view(fs@) == frags_view(fragments@).take(k as int),
                decreases fragments@.len() - k,
            {
                let f = &fragments[k];
                let g = InlineCodeCommentFragment {
                    chapter_href: f.chapter_href.clone(),
                    target: f.target,
                    start_column: f.start_column,
                    end_column: f.end_column,
                };
                let ghost before = frags_view(fs@);
                fs.push(g);
                proof {
                    assert(frags_view(fs@) =~= before.push(g@));
                    assert(frags_view(fragments@).take(k + 1) =~= frags_view(fragments@).take(
                        k as int,
                    ).push(f@));
                }
                k += 1;
            }
            proof {
                assert(frags_view(fragments@).take(k as int) =~= frags_view(fragments@));
            }
            CodeBlockRow::Code {
                text: text.clone(),
                code_start: *code_start,
                code_end: *code_end,
                covered: *covered,
                line_index: *line_index,
                total_lines: *total_lines,
                fragments: fs,
            }
        },
        CodeBlockRow::Note { chapter_href, target, prefix, segment } => CodeBlockRow::Note {
            chapter_href: chapter_href.clone(),
            target: *target,
            prefix: prefix.clone(),
            segment: segment.clone(),
        },
    }
}

} // verus!
