//! Fenced expressions, braces and tables.
use vstd::prelude::*;
use crate::mathml::math_box::{BoxView, MathBox, CopyMode, text_box, blank_box, overlay};
use crate::mathml::concat::{
    views,
    all_fit,
    res_view,
    horizontal_concat,
    hconcat_boxes,
    paren_column,
    column_box,
    lemma_views_push,
};
use crate::mathml::error::{
    MathErr, MathMLError, MAX_EXTENT, fits, too_large, err_too_large, structure_err,
    structure_error,
};
use crate::mathml::layout::{checked_text, checked_text_exec, max_nat};
use crate::text::push_all;

verus! {

/// A column of the given bracket, as tall as `h`.
pub open spec fn bracket_column(c: char, h: nat) -> BoxView {
    column_box(paren_column(c, h), 0)
}

/// Content with a tall brace on its left.
pub open spec fn brace_layout(content: BoxView) -> Result<BoxView, MathErr> {
    if content.width + 2 > MAX_EXTENT {
        Err(too_large())
    } else {
        let b = blank_box(content.width + 2, content.height, content.baseline);
        let a = overlay(b, bracket_column('{', content.height), 0, 0, CopyMode::All);
        Ok(overlay(a, content, 1, 0, CopyMode::SkipBlank))
    }
}

/// Content of a height other than one between stretched brackets: `(`/`[` on
/// the left and `)`/`]` on the right; other delimiters leave their column blank.
pub open spec fn delimiters_layout(content: BoxView, open: Seq<char>, close: Seq<char>) -> Result<
    BoxView,
    MathErr,
> {
    let h = content.height;
    if h == 0 && (open == seq!['('] || open == seq!['['] || close == seq![')'] || close == seq![
        ']',
    ]) {
        Err(structure_err("fenced expression without content rows"@))
    } else if content.width + 2 > MAX_EXTENT {
        Err(too_large())
    } else {
        let w = content.width + 2;
        let b = blank_box(w, h, content.baseline);
        let a = if open == seq!['('] {
            overlay(b, bracket_column('(', h), 0, 0, CopyMode::All)
        } else if open == seq!['['] {
            overlay(b, bracket_column('[', h), 0, 0, CopyMode::All)
        } else {
            b
        };
        let c = overlay(a, content, 1, 0, CopyMode::SkipSpace);
        Ok(
            if close == seq![')'] {
                overlay(c, bracket_column(')', h), w - 1, 0, CopyMode::All)
            } else if close == seq![']'] {
                overlay(c, bracket_column(']', h), w - 1, 0, CopyMode::All)
            } else {
                c
            },
        )
    }
}

/// `mfenced` around content laid out as `content`.
pub open spec fn fenced_layout(content: BoxView, open: Seq<char>, close: Seq<char>) -> Result<
    BoxView,
    MathErr,
> {
    if open == seq!['{'] && content.height > 1 {
        brace_layout(content)
    } else if content.height == 1 {
        checked_text(open + content.rows[0] + close)
    } else {
        delimiters_layout(content, open, close)
    }
}

/// The characters of `paren_column`.
fn column_chars(c: char, h: usize) -> (r: Vec<char>)
    requires
        2 <= h,
    ensures
        r@ == paren_column(c, h as nat),
{
    let mid = h - 2;
    let mut v: Vec<char> = Vec::new();
    if c == '(' || c == ')' || c == '[' || c == ']' || c == '{' || c == '}' {
        let (top, fill, bottom) = if c == '(' {
            ('⎛', '⎜', '⎝')
        } else if c == ')' {
            ('⎞', '⎟', '⎠')
        } else if c == '[' {
            ('⎡', '⎢', '⎣')
        } else if c == ']' {
            ('⎤', '⎥', '⎦')
        } else if c == '{' {
            ('⎧', '⎪', '⎩')
        } else {
            ('⎫', '⎪', '⎭')
        };
        let center = if c == '{' {
            '⎨'
        } else if c == '}' {
            '⎬'
        } else {
            fill
        };
        v.push(top);
        let mut k: usize = 0;
        while k < mid
            invariant
                mid == h - 2,
                h >= 2,
                k <= mid,
                v@.len() == 1 + k,
                v@[0] == top,
                forall|m: int|
                    0 <= m < k ==> #[trigger] v@[1 + m] == if m + 1 == h / 2 {
                        center
                    } else {
                        fill
                    },
            decreases mid - k,
        {
            if k + 1 == h / 2 {
                v.push(center);
            } else {
                v.push(fill);
            }
            k += 1;
        }
        v.push(bottom);
        proof {
            let p = paren_column(c, h as nat);
            assert(p.len() == h);
            assert forall|k: int| 0 <= k < h implies v@[k] == p[k] by {
                if k == 0 {
                } else if k == h - 1 {
                } else {
                    assert(v@[1 + (k - 1)] == v@[k]);
                }
            }
            assert(v@ =~= p);
        }
    } else {
        let mut k: usize = 0;
        while k < h
            invariant
                k <= h,
                v@ == Seq::new(k as nat, |_m: int| c),
            decreases h - k,
        {
            v.push(c);
            proof {
                assert(v@ =~= Seq::new((k + 1) as nat, |_m: int| c));
            }
            k += 1;
        }
        proof {
            assert(v@ =~= paren_column(c, h as nat));
        }
    }
    v
}

pub fn create_multi_line_brace(content: &MathBox) -> (r: Result<MathBox, MathMLError>)
    requires
        fits(content@),
        content@.height >= 2,
    ensures
        res_view(r) == brace_layout(content@),
        r matches Ok(b) ==> fits(b@),
{
    if content.width() + 2 > MAX_EXTENT {
        return Err(err_too_large());
    }
    let mut result = MathBox::create_empty(content.width() + 2, content.height(), content.baseline());
    let col = MathBox::column(column_chars('{', content.height()), 0);
    result.copy_from(&col, 0, 0, CopyMode::All);
    result.copy_from(content, 1, 0, CopyMode::SkipBlank);
    Ok(result)
}

fn is_one(s: &Vec<char>, c: char) -> (b: bool)
    ensures
        b == (s@ == seq![c]),
{
    if s.len() == 1 && s[0] == c {
        proof {
            assert(s@ =~= seq![c]);
        }
        true
    } else {
        proof {
            if s@ == seq![c] {
                assert(s@.len() == 1);
            }
        }
        false
    }
}

pub fn create_multi_line_delimiters(content: &MathBox, open: &Vec<char>, close: &Vec<char>) -> (r: Result<
    MathBox,
    MathMLError,
>)
    requires
        fits(content@),
        content@.height != 1,
    ensures
        res_view(r) == delimiters_layout(content@, open@, close@),
        r matches Ok(b) ==> fits(b@),
{
    let h = content.height();
    let open_paren = is_one(open, '(');
    let open_bracket = is_one(open, '[');
    let close_paren = is_one(close, ')');
    let close_bracket = is_one(close, ']');
    if h == 0 && (open_paren || open_bracket || close_paren || close_bracket) {
        return Err(structure_error("fenced expression without content rows"));
    }
    if content.width() + 2 > MAX_EXTENT {
        return Err(err_too_large());
    }
    let w = content.width() + 2;
    let mut result = MathBox::create_empty(w, h, content.baseline());
    if open_paren {
        let col = MathBox::column(column_chars('(', h), 0);
        result.copy_from(&col, 0, 0, CopyMode::All);
    } else if open_bracket {
        let col = MathBox::column(column_chars('[', h), 0);
        result.copy_from(&col, 0, 0, CopyMode::All);
    }
    result.copy_from(content, 1, 0, CopyMode::SkipSpace);
    if close_paren {
        let col = MathBox::column(column_chars(')', h), 0);
        result.copy_from(&col, w - 1, 0, CopyMode::All);
    } else if close_bracket {
        let col = MathBox::column(column_chars(']', h), 0);
        result.copy_from(&col, w - 1, 0, CopyMode::All);
    }
    Ok(result)
}

pub fn fenced_exec(content: &MathBox, open: &Vec<char>, close: &Vec<char>) -> (r: Result<
    MathBox,
    MathMLError,
>)
    requires
        fits(content@),
    ensures
        res_view(r) == fenced_layout(content@, open@, close@),
        r matches Ok(b) ==> fits(b@),
{
    if is_one(open, '{') && content.height() > 1 {
        return create_multi_line_brace(content);
    }
    if content.height() == 1 {
        let mut t: Vec<char> = Vec::new();
        push_all(&mut t, open.as_slice());
        let row = content.row(0);
        push_all(&mut t, row.as_slice());
        push_all(&mut t, close.as_slice());
        return checked_text_exec(t);
    }
    create_multi_line_delimiters(content, open, close)
}

// ------------------------------------------------------------------ tables

pub open spec fn sum_heights(bs: Seq<BoxView>) -> nat
    decreases bs.len(),
{
    if bs.len() == 0 {
        0
    } else {
        sum_heights(bs.drop_last()) + bs.last().height
    }
}

pub open spec fn max_width(bs: Seq<BoxView>) -> nat
    decreases bs.len(),
{
    if bs.len() == 0 {
        0
    } else {
        max_nat(max_width(bs.drop_last()), bs.last().width)
    }
}

/// Top row of table row `k`: below the rows before it, with one blank line
/// before the second row when the table has a `where` clause.
pub open spec fn table_row_top(rows: Seq<BoxView>, gap: bool, k: int) -> int {
    sum_heights(rows.take(k)) + if gap && k >= 1 {
        1int
    } else {
        0int
    }
}

pub open spec fn place_table_rows(dst: BoxView, rows: Seq<BoxView>, gap: bool, k: int) -> BoxView
    decreases k,
{
    if k <= 0 {
        dst
    } else {
        overlay(
            place_table_rows(dst, rows, gap, k - 1),
            rows[k - 1],
            (dst.width - rows[k - 1].width) / 2,
            table_row_top(rows, gap, k - 1),
            CopyMode::All,
        )
    }
}

/// `mtable`: the rows stacked and centred, with a blank line before the second
/// row when it is a `where` clause; the baseline is the middle row.
pub open spec fn table_layout(rows: Seq<BoxView>, has_where: bool) -> Result<BoxView, MathErr> {
    if rows.len() == 0 {
        Ok(text_box(Seq::empty()))
    } else {
        let gap = has_where && rows.len() >= 2;
        let th = sum_heights(rows) + if gap {
            1nat
        } else {
            0nat
        };
        if th > MAX_EXTENT {
            Err(too_large())
        } else {
            let mw = max_width(rows);
            Ok(
                place_table_rows(
                    blank_box(mw, th, th / 2),
                    rows,
                    gap,
                    rows.len() as int,
                ),
            )
        }
    }
}

proof fn lemma_sum_heights_take(bs: Seq<BoxView>, k: int)
    requires
        0 <= k < bs.len(),
    ensures
        sum_heights(bs.take(k + 1)) == sum_heights(bs.take(k)) + bs[k].height,
        max_width(bs.take(k + 1)) == max_nat(max_width(bs.take(k)), bs[k].width),
{
    assert(bs.take(k + 1).drop_last() =~= bs.take(k));
}

proof fn lemma_sum_heights_prefix(bs: Seq<BoxView>, k: int)
    requires
        0 <= k <= bs.len(),
    ensures
        sum_heights(bs.take(k)) <= sum_heights(bs),
    decreases bs.len() - k,
{
    if k < bs.len() {
        lemma_sum_heights_take(bs, k);
        lemma_sum_heights_prefix(bs, k + 1);
    } else {
        assert(bs.take(k) =~= bs);
    }
}

proof fn lemma_max_width_ge(bs: Seq<BoxView>, k: int)
    requires
        0 <= k < bs.len(),
    ensures
        bs[k].width <= max_width(bs),
    decreases bs.len(),
{
    if k < bs.len() - 1 {
        lemma_max_width_ge(bs.drop_last(), k);
    }
}

proof fn lemma_place_table_rows_dims(dst: BoxView, rows: Seq<BoxView>, gap: bool, k: int)
    ensures
        place_table_rows(dst, rows, gap, k).width == dst.width,
        place_table_rows(dst, rows, gap, k).height == dst.height,
        place_table_rows(dst, rows, gap, k).baseline == dst.baseline,
    decreases k,
{
    if k > 0 {
        lemma_place_table_rows_dims(dst, rows, gap, k - 1);
    }
}

pub fn process_table(rows: &Vec<MathBox>, has_where: bool) -> (r: Result<MathBox, MathMLError>)
    requires
        all_fit(views(rows@)),
    ensures
        res_view(r) == table_layout(views(rows@), has_where),
        r matches Ok(b) ==> fits(b@),
{
    let ghost rv = views(rows@);
    let n = rows.len();
    if n == 0 {
        return Ok(MathBox::from_chars(Vec::new()));
    }
    let gap = has_where && n >= 2;
    let mut th: usize = 0;
    let mut mw: usize = 0;
    let mut k: usize = 0;
    while k < n
        invariant
            n == rv.len(),
            rv == views(rows@),
            all_fit(rv),
            k <= n,
            th == sum_heights(rv.take(k as int)),
            mw == max_width(rv.take(k as int)),
            th <= MAX_EXTENT,
            mw <= MAX_EXTENT,
        decreases n - k,
    {
        proof {
            lemma_sum_heights_take(rv, k as int);
            assert(rows@[k as int]@ == rv[k as int]);
            assert(fits(rv[k as int]));
        }
        let h = rows[k].height();
        if th + h > MAX_EXTENT {
            proof {
                lemma_sum_heights_prefix(rv, k + 1);
            }
            return Err(err_too_large());
        }
        th = th + h;
        if rows[k].width() > mw {
            mw = rows[k].width();
        }
        k += 1;
    }
    proof {
        assert(rv.take(n as int) =~= rv);
    }
    let ghost total = th;
    if gap {
        if th + 1 > MAX_EXTENT {
            return Err(err_too_large());
        }
        th = th + 1;
    }
    let mut result = MathBox::create_empty(mw, th, th / 2);
    let ghost blank = result@;
    let mut y: usize = 0;
    let mut k: usize = 0;
    while k < n
        invariant
            n == rv.len(),
            n >= 1,
            rv == views(rows@),
            all_fit(rv),
            k <= n,
            mw == max_width(rv),
            th <= MAX_EXTENT,
            blank.width == mw,
            y == sum_heights(rv.take(k as int)),
            y <= sum_heights(rv),
            sum_heights(rv) <= MAX_EXTENT,
            result@ == place_table_rows(blank, rv, gap, k as int),
        decreases n - k,
    {
        proof {
            lemma_sum_heights_take(rv, k as int);
            lemma_sum_heights_prefix(rv, k + 1);
            lemma_max_width_ge(rv, k as int);
            assert(rows@[k as int]@ == rv[k as int]);
            assert(fits(rv[k as int]));
        }
        let row = &rows[k];
        let top = if gap && k >= 1 {
            y + 1
        } else {
            y
        };
        result.copy_from(row, (mw - row.width()) / 2, top, CopyMode::All);
        y = y + row.height();
        proof {
            assert(rv.take(k + 1).take(k as int) =~= rv.take(k as int));
        }
        k += 1;
    }
    proof {
        lemma_place_table_rows_dims(blank, rv, gap, n as int);
    }
    Ok(result)
}

/// The cells with two spaces between each two neighbours, first `k` cells.
pub open spec fn with_gaps(cells: Seq<BoxView>, k: int) -> Seq<BoxView>
    decreases k,
{
    if k <= 0 {
        Seq::empty()
    } else {
        with_gaps(cells, k - 1) + seq![cells[k - 1]] + if k - 1 < cells.len() - 1 {
            seq![text_box(seq![' ', ' '])]
        } else {
            Seq::empty()
        }
    }
}

/// `mtr`: the cells side by side with two spaces between them.
pub open spec fn table_row_layout(cells: Seq<BoxView>) -> Result<BoxView, MathErr> {
    if cells.len() == 0 {
        Ok(text_box(Seq::empty()))
    } else {
        hconcat_boxes(with_gaps(cells, cells.len() as int))
    }
}

pub fn process_table_row(cells: &Vec<MathBox>) -> (r: Result<MathBox, MathMLError>)
    requires
        all_fit(views(cells@)),
    ensures
        res_view(r) == table_row_layout(views(cells@)),
        r matches Ok(b) ==> fits(b@),
{
    let ghost cv = views(cells@);
    let n = cells.len();
    if n == 0 {
        return Ok(MathBox::from_chars(Vec::new()));
    }
    let mut out: Vec<MathBox> = Vec::new();
    let mut k: usize = 0;
    while k < n
        invariant
            n == cv.len(),
            cv == views(cells@),
            all_fit(cv),
            k <= n,
            views(out@) == with_gaps(cv, k as int),
            all_fit(views(out@)),
        decreases n - k,
    {
        let ghost before = out@;
        out.push(cells[k].duplicate());
        proof {
            lemma_views_push(before, out@[before.len() as int]);
            assert(cells@[k as int]@ == cv[k as int]);
            assert(fits(cv[k as int]));
        }
        if k + 1 < n {
            let ghost mid = out@;
            let mut gap: Vec<char> = Vec::new();
            gap.push(' ');
            gap.push(' ');
            proof {
                assert(gap@ =~= seq![' ', ' ']);
            }
            out.push(MathBox::from_chars(gap));
            proof {
                lemma_views_push(mid, out@[mid.len() as int]);
            }
        }
        proof {
            assert(views(out@) =~= with_gaps(cv, (k + 1) as int));
            assert forall|m: int| 0 <= m < views(out@).len() implies fits(#[trigger] views(out@)[m]) by {
                if m < before.len() {
                    assert(views(out@)[m] == views(before)[m]);
                }
            }
        }
        k += 1;
    }
    horizontal_concat(&out)
}

/// The boxes that have a width, in order.
pub open spec fn wide_boxes(bs: Seq<BoxView>) -> Seq<BoxView>
    decreases bs.len(),
{
    if bs.len() == 0 {
        Seq::empty()
    } else if bs.last().width > 0 {
        wide_boxes(bs.drop_last()).push(bs.last())
    } else {
        wide_boxes(bs.drop_last())
    }
}

pub fn wide_boxes_exec(bs: &Vec<MathBox>) -> (r: Vec<MathBox>)
    requires
        all_fit(views(bs@)),
    ensures
        views(r@) == wide_boxes(views(bs@)),
        all_fit(views(r@)),
{
    let ghost bv = views(bs@);
    let n = bs.len();
    let mut out: Vec<MathBox> = Vec::new();
    let mut k: usize = 0;
    while k < n
        invariant
            n == bv.len(),
            bv == views(bs@),
            all_fit(bv),
            k <= n,
            views(out@) == wide_boxes(bv.take(k as int)),
            all_fit(views(out@)),
        decreases n - k,
    {
        proof {
            assert(bv.take(k + 1).drop_last() =~= bv.take(k as int));
            assert(bs@[k as int]@ == bv[k as int]);
            assert(fits(bv[k as int]));
        }
        if bs[k].width() > 0 {
            let ghost before = out@;
            out.push(bs[k].duplicate());
            proof {
                lemma_views_push(before, out@[before.len() as int]);
                assert forall|m: int| 0 <= m < views(out@).len() implies fits(
                    #[trigger] views(out@)[m],
                ) by {
                    if m < before.len() {
                        assert(views(out@)[m] == views(before)[m]);
                    }
                }
            }
        }
        k += 1;
    }
    proof {
        assert(bv.take(n as int) =~= bv);
    }
    out
}

/// `mtd`: its children side by side, or its text when no child has a width.
pub open spec fn table_cell_layout(children: Seq<BoxView>, text: Option<Seq<char>>) -> Result<
    BoxView,
    MathErr,
> {
    let wb = wide_boxes(children);
    if wb.len() > 0 {
        hconcat_boxes(wb)
    } else {
        match text {
            Some(t) => checked_text(t),
            None => Ok(text_box(Seq::empty())),
        }
    }
}

pub fn process_table_cell(children: &Vec<MathBox>, text: Option<Vec<char>>) -> (r: Result<
    MathBox,
    MathMLError,
>)
    requires
        all_fit(views(children@)),
    ensures
        res_view(r) == table_cell_layout(
            views(children@),
            match text {
                Some(t) => Some(t@),
                None => None,
            },
        ),
        r matches Ok(b) ==> fits(b@),
{
    let wb = wide_boxes_exec(children);
    if wb.len() > 0 {
        return horizontal_concat(&wb);
    }
    match text {
        Some(t) => checked_text_exec(t),
        None => Ok(MathBox::from_chars(Vec::new())),
    }
}

} // verus!
