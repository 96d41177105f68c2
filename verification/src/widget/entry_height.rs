//! How many lines an entry of the comments viewer takes at a given width:
//! its chapter title, its quote, and each comment's header and text,
//! wrapped.
use vstd::prelude::*;
use crate::code_block::{
    seqs_view, split_at_newlines, split_newlines, strings_view, trim_cr_end, trim_cr_end_exec, wrap_line,
    wrapped_lines,
};
use crate::comments::{Comment, CommentTarget, CommentView, Timestamp};
use crate::text::{chars_of, push_all, string_from_chars};
use crate::widget::book_stat::text_lines;
use crate::widget::comments_viewer::{CommentEntry, EntryView};

verus! {

/// The decimal digits of a number.
pub open spec fn decimal(n: nat) -> Seq<char>
    decreases n,
{
    if n < 10 {
        seq![digit_char(n)]
    } else {
        decimal(n / 10).push(digit_char(n % 10))
    }
}

pub open spec fn digit_char(d: nat) -> char {
    if d == 0 {
        '0'
    } else if d == 1 {
        '1'
    } else if d == 2 {
        '2'
    } else if d == 3 {
        '3'
    } else if d == 4 {
        '4'
    } else if d == 5 {
        '5'
    } else if d == 6 {
        '6'
    } else if d == 7 {
        '7'
    } else if d == 8 {
        '8'
    } else {
        '9'
    }
}

fn digit_exec(d: u128) -> (c: char)
    requires
        d < 10,
    ensures
        c == digit_char(d as nat),
{
    if d == 0 {
        '0'
    } else if d == 1 {
        '1'
    } else if d == 2 {
        '2'
    } else if d == 3 {
        '3'
    } else if d == 4 {
        '4'
    } else if d == 5 {
        '5'
    } else if d == 6 {
        '6'
    } else if d == 7 {
        '7'
    } else if d == 8 {
        '8'
    } else {
        '9'
    }
}

/// The decimal digits of a number.
pub fn decimal_exec(n: u128) -> (r: Vec<char>)
    ensures
        r@ == decimal(n as nat),
    decreases n,
{
    if n < 10 {
        let mut v: Vec<char> = Vec::new();
        v.push(digit_exec(n));
        proof {
            assert(v@ =~= seq![digit_char(n as nat)]);
        }
        v
    } else {
        let mut v = decimal_exec(n / 10);
        v.push(digit_exec(n % 10));
        v
    }
}

/// What chrono writes for a moment in UTC with the format `%m-%d-%y %H:%M`,
/// when the moment is one chrono can represent.
pub uninterp spec fn utc_minute_stamp(secs: i64, nanos: u32) -> Option<Seq<char>>;

/// The moment as `chrono::DateTime::from_timestamp` reads it, written with
/// chrono's `format("%m-%d-%y %H:%M")` (month, day, two-digit year, hour and
/// minute, in UTC); `None` where chrono cannot represent the moment. The text
/// is named, not stated.
#[verifier::external_body]
pub(crate) fn minute_stamp(t: Timestamp) -> (r: Option<String>)
    ensures
        match r {
            Some(s) => utc_minute_stamp(t.secs, t.nanos) == Some(s@),
            None => utc_minute_stamp(t.secs, t.nanos) is None,
        },
{
    match chrono::DateTime::from_timestamp(t.secs, t.nanos) {
        Some(d) => Some(d.format("%m-%d-%y %H:%M").to_string()),
        None => None,
    }
}

/// The header line of a comment in an entry: the lines of a code comment or
/// `Note`, the time it was changed, and its number when the entry holds
/// several comments. `None` when the time cannot be written.
pub open spec fn header_text(comment_count: nat, idx: int, c: CommentView) -> Option<Seq<char>> {
    match utc_minute_stamp(c.updated_at.secs, c.updated_at.nanos) {
        None => None,
        Some(ts) => {
            let base = match c.target {
                CommentTarget::CodeBlock { line_range, .. } => if line_range.0 == line_range.1 {
                    "Line "@ + decimal((line_range.0 + 1) as nat) + " // "@ + ts
                } else {
                    "Lines "@ + decimal((line_range.0 + 1) as nat) + "-"@ + decimal((line_range.1 + 1) as nat) + " // "@
                        + ts
                },
                CommentTarget::Paragraph { .. } => "Note // "@ + ts,
            };
            Some(
                if comment_count > 1 {
                    "["@ + decimal((idx + 1) as nat) + "] "@ + base
                } else {
                    base
                },
            )
        },
    }
}

/// The header of the entry's comment `idx`, or `None` when its time cannot
/// be written.
pub fn comment_header_text(entry: &CommentEntry, idx: usize, comment: &Comment) -> (r: Option<String>)
    ensures
        match r {
            Some(s) => header_text(entry@.comments.len(), idx as int, comment@) == Some(s@),
            None => header_text(entry@.comments.len(), idx as int, comment@) is None,
        },
{
    let ts = match minute_stamp(comment.updated_at) {
        Some(s) => s,
        None => {
            return None;
        },
    };
    let tsc = chars_of(ts.as_str());
    let mut base: Vec<char>;
    proof {
        reveal_strlit("Line ");
        reveal_strlit("Lines ");
        reveal_strlit(" // ");
        reveal_strlit("-");
        reveal_strlit("Note // ");
        reveal_strlit("[");
        reveal_strlit("] ");
    }
    match comment.target {
        CommentTarget::CodeBlock { line_range, .. } => {
            if line_range.0 == line_range.1 {
                base = chars_of("Line ");
                let d = decimal_exec(line_range.0 as u128 + 1);
                push_all(&mut base, d.as_slice());
                let sep = chars_of(" // ");
                push_all(&mut base, sep.as_slice());
                push_all(&mut base, tsc.as_slice());
            } else {
                base = chars_of("Lines ");
                let d0 = decimal_exec(line_range.0 as u128 + 1);
                push_all(&mut base, d0.as_slice());
                base.push('-');
                let d1 = decimal_exec(line_range.1 as u128 + 1);
                push_all(&mut base, d1.as_slice());
                let sep = chars_of(" // ");
                push_all(&mut base, sep.as_slice());
                push_all(&mut base, tsc.as_slice());
                proof {
                    assert(seq!['-'] =~= "-"@);
                }
            }
        },
        CommentTarget::Paragraph { .. } => {
            base = chars_of("Note // ");
            push_all(&mut base, tsc.as_slice());
        },
    }
    if entry.comment_count() > 1 {
        let mut full = chars_of("[");
        let d = decimal_exec(idx as u128 + 1);
        push_all(&mut full, d.as_slice());
        let close = chars_of("] ");
        push_all(&mut full, close.as_slice());
        push_all(&mut full, base.as_slice());
        Some(string_from_chars(full.as_slice()))
    } else {
        Some(string_from_chars(base.as_slice()))
    }
}


/// The lines of the pieces between newlines: an empty piece (once its
/// carriage returns are gone) stays an empty line, others are wrapped.
pub open spec fn wrap_parts(parts: Seq<Seq<char>>, width: usize) -> Seq<Seq<char>>
    decreases parts.len(),
{
    if parts.len() == 0 {
        Seq::empty()
    } else {
        let l = trim_cr_end(parts[0]);
        (if l.len() == 0 {
            seq![Seq::<char>::empty()]
        } else {
            wrapped_lines(l, width)
        }) + wrap_parts(parts.drop_first(), width)
    }
}

/// The text wrapped to the width (at least one column), line by line; at
/// least one line.
pub open spec fn wrap_text_lines(text: Seq<char>, width: usize) -> Seq<Seq<char>> {
    let w: usize = if width > 1 {
        width
    } else {
        1
    };
    let r = wrap_parts(split_newlines(text), w);
    if r.len() == 0 {
        seq![Seq::<char>::empty()]
    } else {
        r
    }
}

/// Wraps the text to the width, line by line.
pub fn wrap_text(text: &str, width: usize) -> (r: Vec<String>)
    ensures
        strings_view(r@) == wrap_text_lines(text@, width),
{
    let w: usize = if width > 1 {
        width
    } else {
        1
    };
    let chars = chars_of(text);
    let parts = split_at_newlines(&chars);
    let ghost ps = seqs_view(parts@);
    let mut out: Vec<String> = Vec::new();
    let mut k: usize = 0;
    proof {
        assert(ps.skip(0) =~= ps);
        assert(strings_view(out@) =~= Seq::<Seq<char>>::empty());
    }
    while k < parts.len()
        invariant
            ps == seqs_view(parts@),
            w >= 1,
            k <= ps.len(),
            strings_view(out@) + wrap_parts(ps.skip(k as int), w) == wrap_parts(ps, w),
        decreases ps.len() - k,
    {
        let line = trim_cr_end_exec(&parts[k]);
        let ghost rest = ps.skip(k as int);
        proof {
            assert(rest[0] == parts@[k as int]@);
            assert(rest.drop_first() =~= ps.skip(k + 1));
        }
        let ghost before = strings_view(out@);
        let ghost added: Seq<Seq<char>> = if line@.len() == 0 {
            seq![Seq::<char>::empty()]
        } else {
            wrapped_lines(line@, w)
        };
        if line.len() == 0 {
            out.push(String::new());
            proof {
                assert(strings_view(out@) =~= before + added);
            }
        } else {
            let piece = string_from_chars(line.as_slice());
            let wrapped = wrap_line(piece.as_str(), w);
            let mut j: usize = 0;
            proof {
                assert(strings_view(wrapped@) == added);
                assert(added.take(0) =~= Seq::<Seq<char>>::empty());
                assert(strings_view(out@) =~= before + added.take(0));
            }
            while j < wrapped.len()
                invariant
                    strings_view(wrapped@) == added,
                    j <= added.len(),
                    strings_view(out@) == before + added.take(j as int),
                decreases added.len() - j,
            {
                let ghost b2 = strings_view(out@);
                let seg = string_from_chars(chars_of(wrapped[j].as_str()).as_slice());
                out.push(seg);
                proof {
                    assert(strings_view(out@) =~= b2.push(added[j as int]));
                    assert(added.take(j + 1) =~= added.take(j as int).push(added[j as int]));
                }
                j += 1;
            }
            proof {
                assert(added.take(j as int) =~= added);
            }
        }
        proof {
            assert(before + wrap_parts(rest, w) =~= strings_view(out@) + wrap_parts(ps.skip(k + 1), w));
        }
        k += 1;
    }
    proof {
        assert(ps.skip(k as int).len() == 0);
        assert(strings_view(out@) =~= wrap_parts(ps, w));
    }
    if out.len() == 0 {
        out.push(String::new());
        proof {
            assert(strings_view(out@) =~= seq![Seq::<char>::empty()]);
        }
    }
    out
}

/// Number of lines the text takes wrapped to the width.
pub open spec fn wrap_count(text: Seq<char>, width: usize) -> nat {
    wrap_text_lines(text, width).len()
}

pub fn wrapped_line_count(text: &str, width: usize) -> (n: usize)
    ensures
        n == wrap_count(text@, width),
{
    wrap_text(text, width).len()
}

/// Lines the comment's text takes: each of its lines wrapped.
pub open spec fn content_height(lines: Seq<Seq<char>>, width: usize) -> nat
    decreases lines.len(),
{
    if lines.len() == 0 {
        0
    } else {
        wrap_count(lines[0], width) + content_height(lines.drop_first(), width)
    }
}

/// Lines the comments from `from` on take: header, text, and a blank line
/// between two comments. `None` when a header cannot be written.
pub open spec fn comments_height(cs: Seq<CommentView>, from: int, width: usize) -> Option<nat>
    decreases cs.len() - from,
{
    if from < 0 || from >= cs.len() {
        Some(0)
    } else {
        match header_text(cs.len(), from, cs[from]) {
            None => None,
            Some(h) => match comments_height(cs, from + 1, width) {
                None => None,
                Some(rest) => Some(
                    wrap_count(h, width) + content_height(text_lines(cs[from].content), width) + (if from
                        < cs.len() - 1 {
                        1nat
                    } else {
                        0nat
                    }) + rest,
                ),
            },
        }
    }
}

pub open spec fn sat_sub_usize(a: usize, b: usize) -> usize {
    if a > b {
        (a - b) as usize
    } else {
        0
    }
}

/// Lines an entry takes at the width: the chapter title when shown, the
/// quote (four columns narrower), the comments (two columns narrower), and
/// a blank line. `None` when a comment's header cannot be written.
pub open spec fn entry_height(e: EntryView, width: usize, show_chapter_header: bool) -> Option<nat> {
    match comments_height(e.comments, 0, sat_sub_usize(width, 2)) {
        None => None,
        Some(c) => Some(
            (if show_chapter_header {
                wrap_count(e.chapter_title, width)
            } else {
                0
            }) + wrap_count(e.quoted_text, sat_sub_usize(width, 4)) + c + 1,
        ),
    }
}

/// The sum, or `None` past `usize::MAX`.
fn add_within(a: usize, b: usize) -> (r: Option<usize>)
    ensures
        match r {
            Some(s) => s == a + b,
            None => a + b > usize::MAX,
        },
{
    if a > usize::MAX - b {
        None
    } else {
        Some(a + b)
    }
}

fn content_height_exec(content: &str, width: usize) -> (r: Option<usize>)
    ensures
        match r {
            Some(h) => h == content_height(text_lines(content@), width),
            None => content_height(text_lines(content@), width) > usize::MAX,
        },
{
    let chars = chars_of(content);
    let lines = crate::code_block::lines_of(&chars);
    let ghost ls = seqs_view(lines@);
    let mut k = lines.len();
    let mut total: usize = 0;
    proof {
        assert(ls.skip(k as int) =~= Seq::<Seq<char>>::empty());
    }
    while k > 0
        invariant
            ls == seqs_view(lines@),
            ls == text_lines(content@),
            k <= ls.len(),
            total == content_height(ls.skip(k as int), width),
        decreases k,
    {
        let line = string_from_chars(lines[k - 1].as_slice());
        let c = wrapped_line_count(line.as_str(), width);
        proof {
            assert(ls.skip(k - 1)[0] == ls[k - 1]);
            assert(ls.skip(k - 1).drop_first() =~= ls.skip(k as int));
        }
        match add_within(c, total) {
            Some(t) => {
                total = t;
            },
            None => {
                proof {
                    lemma_content_height_suffix(ls, k - 1, width);
                }
                return None;
            },
        }
        k -= 1;
    }
    proof {
        assert(ls.skip(0) =~= ls);
    }
    Some(total)
}

proof fn lemma_content_height_suffix(ls: Seq<Seq<char>>, k: int, width: usize)
    requires
        0 <= k <= ls.len(),
    ensures
        content_height(ls.skip(k), width) <= content_height(ls, width),
    decreases k,
{
    if k > 0 {
        lemma_content_height_suffix(ls.drop_first(), k - 1, width);
        assert(ls.drop_first().skip(k - 1) =~= ls.skip(k));
    } else {
        assert(ls.skip(0) =~= ls);
    }
}

proof fn lemma_comments_height_suffix(cs: Seq<CommentView>, from: int, width: usize)
    requires
        0 <= from,
        comments_height(cs, 0, width) is Some,
    ensures
        comments_height(cs, from, width) is Some,
        comments_height(cs, from, width).unwrap() <= comments_height(cs, 0, width).unwrap(),
    decreases from,
{
    if from > 0 && from <= cs.len() {
        lemma_comments_height_suffix(cs, from - 1, width);
    }
}

/// Lines an entry takes at the width, or `None` when a comment's header
/// cannot be written or the count passes `usize::MAX`.
pub fn calculate_entry_height_for_width(entry: &CommentEntry, content_width: usize, show_chapter_header: bool) -> (r:
    Option<usize>)
    ensures
        match r {
            Some(h) => entry_height(entry@, content_width, show_chapter_header) == Some(h as nat),
            None => entry_height(entry@, content_width, show_chapter_header) matches Some(h) ==> h
                > usize::MAX,
        },
{
    let comment_width = content_width.saturating_sub(2);
    let quote_width = content_width.saturating_sub(4);
    let ghost cs = entry@.comments;
    let n = entry.comment_count();
    let mut k = n;
    let mut below: usize = 0;
    while k > 0
        invariant
            cs == entry@.comments,
            n == cs.len(),
            k <= n,
            comment_width == sat_sub_usize(content_width, 2),
            comments_height(cs, k as int, comment_width) == Some(below as nat),
        decreases k,
    {
        let idx = k - 1;
        let c = &entry.comments[idx];
        proof {
            assert(cs[idx as int] == c@);
        }
        let header = match comment_header_text(entry, idx, c) {
            Some(h) => h,
            None => {
                proof {
                    lemma_none_propagates(cs, idx as int, comment_width);
                }
                return None;
            },
        };
        let hc = wrapped_line_count(header.as_str(), comment_width);
        let body = match content_height_exec(c.content.as_str(), comment_width) {
            Some(b) => b,
            None => {
                proof {
                    lemma_overflow_propagates(cs, idx as int, comment_width);
                }
                return None;
            },
        };
        let gap: usize = if idx + 1 < n {
            1
        } else {
            0
        };
        let step = match add_within(hc, body) {
            Some(a) => match add_within(a, gap) {
                Some(b) => add_within(b, below),
                None => None,
            },
            None => None,
        };
        match step {
            Some(t) => {
                below = t;
            },
            None => {
                proof {
                    lemma_overflow_propagates(cs, idx as int, comment_width);
                }
                return None;
            },
        }
        k -= 1;
    }
    let title = if show_chapter_header {
        wrapped_line_count(entry.chapter_title.as_str(), content_width)
    } else {
        0
    };
    let quote = wrapped_line_count(entry.quoted_text.as_str(), quote_width);
    proof {
        assert(quote_width == sat_sub_usize(content_width, 4));
    }
    match add_within(title, quote) {
        Some(a) => match add_within(a, below) {
            Some(b) => add_within(b, 1),
            None => None,
        },
        None => None,
    }
}

proof fn lemma_none_propagates(cs: Seq<CommentView>, from: int, width: usize)
    requires
        0 <= from < cs.len(),
        header_text(cs.len(), from, cs[from]) is None,
    ensures
        comments_height(cs, 0, width) is None,
    decreases from,
{
    if from > 0 {
        lemma_none_propagates_up(cs, from, width);
    }
}

proof fn lemma_none_propagates_up(cs: Seq<CommentView>, from: int, width: usize)
    requires
        0 <= from < cs.len(),
        comments_height(cs, from, width) is None,
    ensures
        comments_height(cs, 0, width) is None,
    decreases from,
{
    if from > 0 {
        lemma_none_propagates_up(cs, from - 1, width);
    }
}

proof fn lemma_overflow_propagates(cs: Seq<CommentView>, from: int, width: usize)
    requires
        0 <= from < cs.len(),
        comments_height(cs, from, width) is None || comments_height(cs, from, width).unwrap()
            > usize::MAX,
    ensures
        comments_height(cs, 0, width) is None || comments_height(cs, 0, width).unwrap() > usize::MAX,
{
    if comments_height(cs, 0, width) is Some {
        lemma_comments_height_suffix(cs, from, width);
    }
}

} // verus!
