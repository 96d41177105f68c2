//! Square and n-th roots drawn with a radical sign.
use vstd::prelude::*;
use crate::mathml::math_box::{BoxView, MathBox, CopyMode, text_box, blank_box, overlay};
use crate::mathml::concat::res_view;
use crate::mathml::error::{MathErr, MathMLError, MAX_EXTENT, fits, too_large, err_too_large};
use crate::mathml::layout::{
    checked_text, checked_text_exec, row_text, row_text_exec, joined_text, joined_text_exec,
    max_nat,
};
use crate::mathml::unicode::{unicode_superscript, to_unicode_superscript};
use crate::text::{repeat, trim_start, utf8_len, push_all, repeat_chars, utf8_len_of, trim_start_chars};

verus! {

/// `dst` with the first `k` lines drawn on rows `0..k`, spaces left out.
pub open spec fn draw_lines(dst: BoxView, lines: Seq<Seq<char>>, k: int) -> BoxView
    decreases k,
{
    if k <= 0 {
        dst
    } else {
        overlay(
            draw_lines(dst, lines, k - 1),
            text_box(lines[k - 1]),
            0,
            k - 1,
            CopyMode::SkipSpace,
        )
    }
}

pub open spec fn chars3(a: char, b: char, c: char) -> Seq<char> {
    seq![a, b, c]
}

/// The radical sign for content `height` rows tall (three at least) with an
/// overline of `length` cells.
pub open spec fn sqrt_radical(height: nat, length: nat) -> Seq<Seq<char>> {
    let h = if height < 3 {
        3
    } else {
        height
    };
    let top = repeat(' ', h + 1) + seq!['⟋'] + repeat('─', length);
    let mids = Seq::new(
        (h - 3) as nat,
        |k: int| repeat(' ', (h + 1 - (k + 1)) as nat) + chars3('╱', ' ', ' '),
    );
    seq![top] + mids + seq![seq!['_', ' ', ' ', '╱', ' ', ' '], seq![' ', '\\', '╱', ' ', ' ']]
}

/// `msqrt` around content laid out as `inner`.
pub open spec fn sqrt_layout(inner: BoxView) -> Result<BoxView, MathErr> {
    if inner.height == 1 {
        checked_text(seq!['√', '('] + row_text(inner) + seq![')'])
    } else if inner.height + 1 > MAX_EXTENT || inner.width + 10 > MAX_EXTENT {
        Err(too_large())
    } else {
        let lines = sqrt_radical(inner.height + 1, inner.width + 4);
        let w = max_nat(lines[0].len(), inner.width + 10);
        let h = lines.len();
        if w > MAX_EXTENT || h > MAX_EXTENT {
            Err(too_large())
        } else {
            let drawn = draw_lines(blank_box(w, h, inner.baseline + 1), lines, h as int);
            Ok(overlay(drawn, inner, (inner.height + 3) as int, 1, CopyMode::SkipBlank))
        }
    }
}

fn line_of(pad: usize, a: char, fill: char, len: usize) -> (r: Vec<char>)
    ensures
        r@ == repeat(' ', pad as nat) + seq![a] + repeat(fill, len as nat),
{
    let mut r = repeat_chars(' ', pad);
    r.push(a);
    let tail = repeat_chars(fill, len);
    push_all(&mut r, tail.as_slice());
    r
}

fn chars_exec(s: &str) -> (r: Vec<char>)
    ensures
        r@ == s@,
{
    crate::text::chars_of(s)
}

fn generate_sqrt_radical(height: usize, length: usize) -> (r: Vec<Vec<char>>)
    requires
        height <= MAX_EXTENT + 1,
        length <= MAX_EXTENT + 10,
    ensures
        r@.map_values(|l: Vec<char>| l@) == sqrt_radical(height as nat, length as nat),
{
    let h: usize = if height < 3 {
        3
    } else {
        height
    };
    let ghost spec_lines = sqrt_radical(height as nat, length as nat);
    let mut lines: Vec<Vec<char>> = Vec::new();
    lines.push(line_of(h + 1, '⟋', '─', length));
    let mut i: usize = 1;
    while i < h - 2
        invariant
            3 <= h <= MAX_EXTENT + 1,
            h == if height < 3 { 3 } else { height },
            spec_lines == sqrt_radical(height as nat, length as nat),
            1 <= i <= h - 2,
            lines@.len() == i,
            forall|k: int| 0 <= k < i ==> (#[trigger] lines@[k])@ == spec_lines[k],
        decreases h - 2 - i,
    {
        let mut l = repeat_chars(' ', h + 1 - i);
        l.push('╱');
        l.push(' ');
        l.push(' ');
        proof {
            assert(l@ =~= repeat(' ', (h + 1 - i) as nat) + chars3('╱', ' ', ' '));
            assert(spec_lines[i as int] == repeat(' ', (h + 1 - i) as nat) + chars3('╱', ' ', ' '));
        }
        lines.push(l);
        i += 1;
    }
    let l1 = chars_exec("_  ╱  ");
    let l2 = chars_exec(" \\╱  ");
    proof {
        reveal_strlit("_  ╱  ");
        reveal_strlit(" \\╱  ");
        assert(l1@ =~= seq!['_', ' ', ' ', '╱', ' ', ' ']);
        assert(l2@ =~= seq![' ', '\\', '╱', ' ', ' ']);
    }
    lines.push(l1);
    lines.push(l2);
    proof {
        assert(lines@.map_values(|l: Vec<char>| l@) =~= spec_lines);
    }
    lines
}

/// Draws the lines on the rows of `result`, leaving spaces out.
fn draw_lines_exec(result: &mut MathBox, lines: &Vec<Vec<char>>)
    requires
        lines@.len() <= MAX_EXTENT,
        forall|k: int| 0 <= k < lines@.len() ==> (#[trigger] lines@[k])@.len() <= MAX_EXTENT,
    ensures
        final(result)@ == draw_lines(
            old(result)@,
            lines@.map_values(|l: Vec<char>| l@),
            lines@.len() as int,
        ),
{
    let ghost start = result@;
    let ghost ls = lines@.map_values(|l: Vec<char>| l@);
    let mut y: usize = 0;
    while y < lines.len()
        invariant
            y <= lines@.len() <= MAX_EXTENT,
            ls == lines@.map_values(|l: Vec<char>| l@),
            forall|k: int| 0 <= k < lines@.len() ==> (#[trigger] lines@[k])@.len() <= MAX_EXTENT,
            result@ == draw_lines(start, ls, y as int),
        decreases lines@.len() - y,
    {
        let line = MathBox::from_chars(lines[y].clone());
        proof {
            assert(ls[y as int] == lines@[y as int]@);
        }
        result.copy_from(&line, 0, y, CopyMode::SkipSpace);
        y += 1;
    }
}

proof fn lemma_draw_lines_dims(dst: BoxView, lines: Seq<Seq<char>>, k: int)
    ensures
        draw_lines(dst, lines, k).width == dst.width,
        draw_lines(dst, lines, k).height == dst.height,
        draw_lines(dst, lines, k).baseline == dst.baseline,
    decreases k,
{
    if k > 0 {
        lemma_draw_lines_dims(dst, lines, k - 1);
    }
}

pub fn process_square_root(inner: &MathBox) -> (r: Result<MathBox, MathMLError>)
    requires
        fits(inner@),
    ensures
        res_view(r) == sqrt_layout(inner@),
        r matches Ok(b) ==> fits(b@),
{
    if inner.height() == 1 {
        let mut t: Vec<char> = Vec::new();
        t.push('√');
        t.push('(');
        let rt = row_text_exec(inner);
        push_all(&mut t, rt.as_slice());
        t.push(')');
        proof {
            assert(t@ =~= seq!['√', '('] + row_text(inner@) + seq![')']);
        }
        return checked_text_exec(t);
    }
    if inner.height() + 1 > MAX_EXTENT || inner.width() + 10 > MAX_EXTENT {
        return Err(err_too_large());
    }
    let lines = generate_sqrt_radical(inner.height() + 1, inner.width() + 4);
    let ghost ls = lines@.map_values(|l: Vec<char>| l@);
    proof {
        assert(ls[0] == lines@[0]@);
    }
    let top_len = lines[0].len();
    let w = if top_len >= inner.width() + 10 {
        top_len
    } else {
        inner.width() + 10
    };
    let h = lines.len();
    if w > MAX_EXTENT || h > MAX_EXTENT {
        return Err(err_too_large());
    }
    proof {
        assert forall|k: int| 0 <= k < lines@.len() implies (#[trigger] lines@[k])@.len()
            <= MAX_EXTENT by {
            assert(ls[k] == lines@[k]@);
        }
    }
    let mut result = MathBox::create_empty(w, h, inner.baseline() + 1);
    let ghost blank = result@;
    draw_lines_exec(&mut result, &lines);
    proof {
        lemma_draw_lines_dims(blank, ls, h as int);
    }
    result.copy_from(inner, inner.height() + 3, 1, CopyMode::SkipBlank);
    Ok(result)
}

// ---------------------------------------------------------------- n-th roots

/// The radical sign of an n-th root for content of the given size.
pub open spec fn root_lines(fh: nat, fw: nat) -> Seq<Seq<char>> {
    if fh == 3 {
        seq![
            repeat(' ', 5) + seq!['⟋'] + repeat('─', fw + 4),
            repeat(' ', 4) + chars3('╱', ' ', ' '),
            seq!['_', ' ', ' ', '╱', ' ', ' '],
            seq![' ', '\\', '╱', ' ', ' '],
        ]
    } else {
        let rlh = fh + 2;
        seq![repeat(' ', (rlh - 1) as nat) + seq!['⟋'] + repeat('─', fw + 4)] + Seq::new(
            (rlh - 1) as nat,
            |k: int|
                {
                    let i = k + 1;
                    let pad = (rlh - 1 - i) as nat;
                    if i == rlh - 1 {
                        repeat(' ', pad) + seq!['\\', '╱', ' ', ' ']
                    } else if i == rlh - 2 {
                        seq!['_'] + repeat(' ', pad) + chars3('╱', ' ', ' ')
                    } else {
                        repeat(' ', pad + 1) + chars3('╱', ' ', ' ')
                    }
                },
        )
    }
}

/// A line of the radical with the index written before the `_`, the others
/// shifted right by the index width.
pub open spec fn index_line(line: Seq<char>, index: Seq<char>, iw: nat) -> Seq<char> {
    let t = trim_start(line);
    if t.len() > 0 && t[0] == '_' {
        seq![' '] + index + line
    } else {
        repeat(' ', iw + 1) + line
    }
}

pub open spec fn max_len(lines: Seq<Seq<char>>) -> nat
    decreases lines.len(),
{
    if lines.len() == 0 {
        0
    } else {
        max_nat(max_len(lines.drop_last()), lines.last().len())
    }
}

/// `mroot` with the radicand and index laid out as given.
pub open spec fn nth_root_layout(radicand: BoxView, index: BoxView, use_unicode: bool) -> Result<
    BoxView,
    MathErr,
> {
    if radicand.height == 1 && index.height == 1 {
        let rt = row_text(radicand);
        let it = row_text(index);
        match unicode_superscript(it, use_unicode) {
            Some(u) => checked_text(u + seq!['√', '('] + rt + seq![')']),
            None => checked_text(seq!['['] + it + seq![']', '√', '('] + rt + seq![')']),
        }
    } else {
        let it = joined_text(index);
        let iw = utf8_len(it);
        let fh = radicand.height;
        let fw = radicand.width;
        if iw > MAX_EXTENT || fh + 2 > MAX_EXTENT || fw + 10 + iw > MAX_EXTENT {
            Err(too_large())
        } else {
            let lines = root_lines(fh, fw);
            let shown = Seq::new(lines.len(), |k: int| index_line(lines[k], it, iw));
            let w = max_nat(max_len(shown), fw + 10 + iw);
            let h = max_nat(lines.len(), 1 + fh);
            if w > MAX_EXTENT || h > MAX_EXTENT {
                Err(too_large())
            } else {
                let x = if fh == 3 {
                    7 + iw
                } else {
                    fh + 3 + iw + 1
                };
                let drawn = draw_lines(blank_box(w, h, radicand.baseline + 1), shown, shown.len() as int);
                Ok(overlay(drawn, radicand, x as int, 1, CopyMode::SkipBlank))
            }
        }
    }
}

fn root_lines_exec(fh: usize, fw: usize) -> (r: Vec<Vec<char>>)
    requires
        fh + 2 <= MAX_EXTENT,
        fw + 10 <= MAX_EXTENT,
    ensures
        r@.map_values(|l: Vec<char>| l@) == root_lines(fh as nat, fw as nat),
{
    let ghost sl = root_lines(fh as nat, fw as nat);
    let mut lines: Vec<Vec<char>> = Vec::new();
    if fh == 3 {
        lines.push(line_of(5, '⟋', '─', fw + 4));
        let mut l = repeat_chars(' ', 4);
        l.push('╱');
        l.push(' ');
        l.push(' ');
        lines.push(l);
        let l1 = chars_exec("_  ╱  ");
        let l2 = chars_exec(" \\╱  ");
        proof {
            reveal_strlit("_  ╱  ");
            reveal_strlit(" \\╱  ");
            assert(l1@ =~= seq!['_', ' ', ' ', '╱', ' ', ' ']);
            assert(l2@ =~= seq![' ', '\\', '╱', ' ', ' ']);
        }
        lines.push(l1);
        lines.push(l2);
        proof {
            assert(lines@[1]@ =~= repeat(' ', 4) + chars3('╱', ' ', ' '));
            assert(lines@.map_values(|l: Vec<char>| l@) =~= sl);
        }
        return lines;
    }
    let rlh = fh + 2;
    lines.push(line_of(rlh - 1, '⟋', '─', fw + 4));
    let mut i: usize = 1;
    while i < rlh
        invariant
            rlh == fh + 2,
            rlh <= MAX_EXTENT,
            fh != 3,
            sl == root_lines(fh as nat, fw as nat),
            1 <= i <= rlh,
            lines@.len() == i,
            forall|k: int| 0 <= k < i ==> (#[trigger] lines@[k])@ == sl[k],
        decreases rlh - i,
    {
        let pad = rlh - 1 - i;
        let mut l: Vec<char>;
        if i == rlh - 1 {
            l = repeat_chars(' ', pad);
            l.push('\\');
            l.push('╱');
            l.push(' ');
            l.push(' ');
            proof {
                assert(l@ =~= repeat(' ', pad as nat) + seq!['\\', '╱', ' ', ' ']);
            }
        } else if i == rlh - 2 {
            l = Vec::new();
            l.push('_');
            let sp = repeat_chars(' ', pad);
            push_all(&mut l, sp.as_slice());
            l.push('╱');
            l.push(' ');
            l.push(' ');
            proof {
                assert(l@ =~= seq!['_'] + repeat(' ', pad as nat) + chars3('╱', ' ', ' '));
            }
        } else {
            l = repeat_chars(' ', pad + 1);
            l.push('╱');
            l.push(' ');
            l.push(' ');
            proof {
                assert(l@ =~= repeat(' ', (pad + 1) as nat) + chars3('╱', ' ', ' '));
            }
        }
        proof {
            assert(sl[i as int] == l@);
        }
        lines.push(l);
        i += 1;
    }
    proof {
        assert(lines@.map_values(|l: Vec<char>| l@) =~= sl);
    }
    lines
}

proof fn lemma_root_lines_len(fh: nat, fw: nat)
    ensures
        forall|k: int|
            0 <= k < root_lines(fh, fw).len() ==> (#[trigger] root_lines(fh, fw)[k]).len() <= fh + fw
                + 10,
{
    let sl = root_lines(fh, fw);
    assert forall|k: int| 0 <= k < sl.len() implies (#[trigger] sl[k]).len() <= fh + fw + 10 by {
        if fh != 3 && k > 0 {
            let rlh = fh + 2;
            let i = k;
            let pad = (rlh - 1 - i) as nat;
            assert(sl[k] == Seq::new(
                (rlh - 1) as nat,
                |kk: int|
                    {
                        let i = kk + 1;
                        let pad = (rlh - 1 - i) as nat;
                        if i == rlh - 1 {
                            repeat(' ', pad) + seq!['\\', '╱', ' ', ' ']
                        } else if i == rlh - 2 {
                            seq!['_'] + repeat(' ', pad) + chars3('╱', ' ', ' ')
                        } else {
                            repeat(' ', pad + 1) + chars3('╱', ' ', ' ')
                        }
                    },
            )[k - 1]);
        }
    }
}

fn index_line_exec(line: &Vec<char>, index: &Vec<char>, iw: usize) -> (r: Vec<char>)
    requires
        iw <= MAX_EXTENT,
    ensures
        r@ == index_line(line@, index@, iw as nat),
{
    let t = trim_start_chars(line.as_slice());
    let mut r: Vec<char>;
    if t.len() > 0 && t[0] == '_' {
        r = Vec::new();
        r.push(' ');
        push_all(&mut r, index.as_slice());
        push_all(&mut r, line.as_slice());
        proof {
            assert(r@ =~= seq![' '] + index@ + line@);
        }
    } else {
        r = repeat_chars(' ', iw + 1);
        push_all(&mut r, line.as_slice());
    }
    r
}

proof fn lemma_max_len_take(lines: Seq<Seq<char>>, k: int)
    requires
        0 <= k < lines.len(),
    ensures
        max_len(lines.take(k + 1)) == max_nat(max_len(lines.take(k)), lines[k].len()),
{
    assert(lines.take(k + 1).drop_last() =~= lines.take(k));
}

proof fn lemma_max_len_ge(lines: Seq<Seq<char>>, k: int)
    requires
        0 <= k < lines.len(),
    ensures
        lines[k].len() <= max_len(lines),
    decreases lines.len(),
{
    if k < lines.len() - 1 {
        lemma_max_len_ge(lines.drop_last(), k);
    }
}

pub fn process_nth_root(radicand: &MathBox, index: &MathBox, use_unicode: bool) -> (r: Result<
    MathBox,
    MathMLError,
>)
    requires
        fits(radicand@),
        fits(index@),
    ensures
        res_view(r) == nth_root_layout(radicand@, index@, use_unicode),
        r matches Ok(b) ==> fits(b@),
{
    if radicand.height() == 1 && index.height() == 1 {
        let rt = row_text_exec(radicand);
        let it = row_text_exec(index);
        let mut t: Vec<char> = Vec::new();
        match to_unicode_superscript(it.as_slice(), use_unicode) {
            Some(u) => {
                push_all(&mut t, u.as_slice());
                t.push('√');
                t.push('(');
                push_all(&mut t, rt.as_slice());
                t.push(')');
                proof {
                    assert(t@ =~= u@ + seq!['√', '('] + rt@ + seq![')']);
                }
            },
            None => {
                t.push('[');
                push_all(&mut t, it.as_slice());
                t.push(']');
                t.push('√');
                t.push('(');
                push_all(&mut t, rt.as_slice());
                t.push(')');
                proof {
                    assert(t@ =~= seq!['['] + it@ + seq![']', '√', '('] + rt@ + seq![')']);
                }
            },
        }
        return checked_text_exec(t);
    }
    let it = joined_text_exec(index);
    let iw = utf8_len_of(it.as_slice());
    let fh = radicand.height();
    let fw = radicand.width();
    if iw > MAX_EXTENT || fh + 2 > MAX_EXTENT || fw + 10 + iw > MAX_EXTENT {
        return Err(err_too_large());
    }
    let lines = root_lines_exec(fh, fw);
    let ghost ls = lines@.map_values(|l: Vec<char>| l@);
    proof {
        lemma_root_lines_len(fh as nat, fw as nat);
        crate::text::lemma_utf8_len_ge(it@);
    }
    let mut shown: Vec<Vec<char>> = Vec::new();
    let mut widest: usize = 0;
    let mut k: usize = 0;
    let ghost spec_shown = Seq::new(ls.len(), |m: int| index_line(ls[m], it@, iw as nat));
    while k < lines.len()
        invariant
            ls == lines@.map_values(|l: Vec<char>| l@),
            spec_shown == Seq::new(ls.len(), |m: int| index_line(ls[m], it@, iw as nat)),
            k <= lines@.len(),
            iw <= MAX_EXTENT,
            shown@.len() == k,
            forall|m: int| 0 <= m < k ==> (#[trigger] shown@[m])@ == spec_shown[m],
            widest == max_len(spec_shown.take(k as int)),
            widest <= 4 * MAX_EXTENT,
            forall|m: int| 0 <= m < k ==> (#[trigger] shown@[m])@.len() <= 4 * MAX_EXTENT,
            it@.len() <= iw,
            fh + 2 <= MAX_EXTENT,
            fw + 10 <= MAX_EXTENT,
            ls == root_lines(fh as nat, fw as nat),
            forall|m: int| 0 <= m < ls.len() ==> (#[trigger] ls[m]).len() <= fh + fw + 10,
        decreases lines@.len() - k,
    {
        proof {
            assert(ls[k as int] == lines@[k as int]@);
            assert(ls[k as int].len() <= fh + fw + 10);
            lemma_max_len_take(spec_shown, k as int);
        }
        let l = index_line_exec(&lines[k], &it, iw);
        let n = l.len();
        if n > widest {
            widest = n;
        }
        shown.push(l);
        k += 1;
    }
    proof {
        assert(spec_shown.take(ls.len() as int) =~= spec_shown);
        assert(shown@.map_values(|l: Vec<char>| l@) =~= spec_shown);
    }
    let w = if widest >= fw + 10 + iw {
        widest
    } else {
        fw + 10 + iw
    };
    let h = if lines.len() >= 1 + fh {
        lines.len()
    } else {
        1 + fh
    };
    if w > MAX_EXTENT || h > MAX_EXTENT {
        return Err(err_too_large());
    }
    proof {
        assert forall|m: int| 0 <= m < shown@.len() implies (#[trigger] shown@[m])@.len()
            <= MAX_EXTENT by {
            lemma_max_len_ge(spec_shown, m);
        }
    }
    let mut result = MathBox::create_empty(w, h, radicand.baseline() + 1);
    let ghost blank = result@;
    draw_lines_exec(&mut result, &shown);
    proof {
        lemma_draw_lines_dims(blank, spec_shown, shown@.len() as int);
    }
    let x = if fh == 3 {
        7 + iw
    } else {
        fh + 3 + iw + 1
    };
    result.copy_from(radicand, x, 1, CopyMode::SkipBlank);
    Ok(result)
}

} // verus!
