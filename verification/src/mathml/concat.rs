//! Horizontal concatenation of boxes: operator spacing, tall parentheses,
//! single-line collapsing and baseline alignment.
use vstd::prelude::*;
use crate::mathml::math_box::{BoxView, MathBox, CopyMode, text_box, blank_box, overlay};
use crate::mathml::error::{MathErr, MathMLError, MAX_EXTENT, fits, too_large, err_too_large};
use crate::text::push_all;

verus! {

/// The models of a sequence of boxes.
pub open spec fn views(bs: Seq<MathBox>) -> Seq<BoxView> {
    bs.map_values(|b: MathBox| b@)
}

/// Every box is well formed and within the size limits.
pub open spec fn all_fit(bs: Seq<BoxView>) -> bool {
    forall|k: int| 0 <= k < bs.len() ==> fits(#[trigger] bs[k])
}

/// The boxes that have both a width and a height, in order.
pub open spec fn nonempty_boxes(bs: Seq<BoxView>) -> Seq<BoxView>
    decreases bs.len(),
{
    if bs.len() == 0 {
        Seq::empty()
    } else {
        let rest = nonempty_boxes(bs.drop_last());
        if bs.last().width > 0 && bs.last().height > 0 {
            rest.push(bs.last())
        } else {
            rest
        }
    }
}

/// Large operators around which a tall box gets spacing.
pub open spec fn is_large_operator(c: char) -> bool {
    c == '∏' || c == '∑' || c == '∫' || c == '⋃' || c == '⋂' || c == '⋁' || c == '⋀'
}

/// A box of at least three rows that shows a large operator.
pub open spec fn needs_operator_spacing(b: BoxView) -> bool {
    b.height > 2 && exists|y: int, x: int|
        0 <= y < b.height && 0 <= x < b.rows[y].len() && is_large_operator(#[trigger] b.rows[y][x])
}

/// The boxes emitted for the box at position `i`: spaces around large operators.
pub open spec fn spacing_piece(bs: Seq<BoxView>, i: int) -> Seq<BoxView> {
    let b = bs[i];
    let sp = text_box(seq![' ']);
    let pre: Seq<BoxView> = if i > 0 && needs_operator_spacing(b) { seq![sp] } else { Seq::empty() };
    let post: Seq<BoxView> = if i < bs.len() - 1 && needs_operator_spacing(b) {
        seq![sp]
    } else {
        Seq::empty()
    };
    pre + seq![b] + post
}

/// The spaced sequence built from the first `k` boxes.
pub open spec fn spaced_prefix(bs: Seq<BoxView>, k: int) -> Seq<BoxView>
    decreases k,
{
    if k <= 0 {
        Seq::empty()
    } else {
        spaced_prefix(bs, k - 1) + spacing_piece(bs, k - 1)
    }
}

pub open spec fn with_operator_spacing(bs: Seq<BoxView>) -> Seq<BoxView> {
    spaced_prefix(bs, bs.len() as int)
}

/// The bracket character of a one-character box.
pub open spec fn single_paren(b: BoxView) -> Option<char> {
    if b.height == 1 && b.width == 1 {
        let c = b.rows[0][0];
        if c == '(' || c == ')' || c == '[' || c == ']' || c == '{' || c == '}' {
            Some(c)
        } else {
            None
        }
    } else {
        None
    }
}

pub open spec fn closes(open: char, c: char) -> bool {
    (open == '(' && c == ')') || (open == '[' && c == ']') || (open == '{' && c == '}')
}

pub open spec fn nests(open: char, c: char) -> bool {
    (open == '(' || open == '[' || open == '{') && c == open
}

pub open spec fn closing_char(open: char) -> char {
    if open == '(' {
        ')'
    } else if open == '[' {
        ']'
    } else if open == '{' {
        '}'
    } else {
        open
    }
}

/// Position of the bracket that closes `open`, scanning from `j` with `depth`
/// brackets still open.
pub open spec fn find_close(bs: Seq<BoxView>, open: char, j: int, depth: int) -> Option<int>
    decreases bs.len() - j,
{
    if j < 0 || j >= bs.len() {
        None
    } else {
        match single_paren(bs[j]) {
            Some(c) => if closes(open, c) {
                if depth - 1 == 0 {
                    Some(j)
                } else {
                    find_close(bs, open, j + 1, depth - 1)
                }
            } else if nests(open, c) {
                find_close(bs, open, j + 1, depth + 1)
            } else {
                find_close(bs, open, j + 1, depth)
            },
            None => find_close(bs, open, j + 1, depth),
        }
    }
}

/// Largest height among the boxes at positions `from..to` (0 when none).
pub open spec fn max_height(bs: Seq<BoxView>, from: int, to: int) -> nat
    decreases to - from,
{
    if to <= from {
        0
    } else {
        let m = max_height(bs, from, to - 1);
        if bs[to - 1].height > m {
            bs[to - 1].height
        } else {
            m
        }
    }
}

/// One column of the given characters.
pub open spec fn column_box(chars: Seq<char>, baseline: nat) -> BoxView {
    BoxView {
        width: 1,
        height: chars.len(),
        baseline,
        rows: Seq::new(chars.len(), |y: int| seq![chars[y]]),
    }
}

/// The column drawn for a bracket of the given height (at least three rows).
pub open spec fn paren_column(c: char, h: nat) -> Seq<char> {
    let mid = (h - 2) as nat;
    if c == '(' {
        seq!['⎛'] + Seq::new(mid, |_k: int| '⎜') + seq!['⎝']
    } else if c == ')' {
        seq!['⎞'] + Seq::new(mid, |_k: int| '⎟') + seq!['⎠']
    } else if c == '[' {
        seq!['⎡'] + Seq::new(mid, |_k: int| '⎢') + seq!['⎣']
    } else if c == ']' {
        seq!['⎤'] + Seq::new(mid, |_k: int| '⎥') + seq!['⎦']
    } else if c == '{' {
        seq!['⎧'] + Seq::new(mid, |k: int| if k + 1 == h / 2 { '⎨' } else { '⎪' }) + seq!['⎩']
    } else if c == '}' {
        seq!['⎫'] + Seq::new(mid, |k: int| if k + 1 == h / 2 { '⎬' } else { '⎪' }) + seq!['⎭']
    } else {
        Seq::new(h, |_k: int| c)
    }
}

/// A bracket stretched to `h` rows (a plain one-character box below three rows).
pub open spec fn paren_box(c: char, h: nat) -> BoxView {
    if h < 3 {
        text_box(seq![c])
    } else {
        column_box(paren_column(c, h), h / 2)
    }
}

/// Tall brackets around groups of three or more rows, from position `i` on.
pub open spec fn upgrade_from(bs: Seq<BoxView>, i: int) -> Seq<BoxView>
    decreases bs.len() - i,
{
    if i < 0 || i >= bs.len() {
        Seq::empty()
    } else {
        let plain = seq![bs[i]] + upgrade_from(bs, i + 1);
        if i + 2 < bs.len() && single_paren(bs[i]) is Some {
            let open = single_paren(bs[i])->0;
            match find_close(bs, open, i + 1, 1) {
                Some(c) => if i < c < bs.len() && max_height(bs, i + 1, c) >= 3 {
                    let mh = max_height(bs, i + 1, c);
                    seq![paren_box(open, mh)] + bs.subrange(i + 1, c) + seq![
                        paren_box(closing_char(open), mh),
                    ] + upgrade_from(bs, c + 1)
                } else {
                    plain
                },
                None => plain,
            }
        } else {
            plain
        }
    }
}

pub open spec fn with_tall_brackets(bs: Seq<BoxView>) -> Seq<BoxView> {
    if bs.len() < 3 {
        bs
    } else {
        upgrade_from(bs, 0)
    }
}

/// The first row of a box (empty for a box without rows).
pub open spec fn first_row(b: BoxView) -> Seq<char> {
    if b.height == 0 {
        Seq::empty()
    } else {
        b.rows[0]
    }
}

pub open spec fn first_rows_concat(bs: Seq<BoxView>) -> Seq<char>
    decreases bs.len(),
{
    if bs.len() == 0 {
        Seq::empty()
    } else {
        first_rows_concat(bs.drop_last()) + first_row(bs.last())
    }
}

pub open spec fn sum_widths(bs: Seq<BoxView>) -> nat
    decreases bs.len(),
{
    if bs.len() == 0 {
        0
    } else {
        sum_widths(bs.drop_last()) + bs.last().width
    }
}

pub open spec fn max_baseline(bs: Seq<BoxView>) -> nat
    decreases bs.len(),
{
    if bs.len() == 0 {
        0
    } else {
        let m = max_baseline(bs.drop_last());
        if bs.last().baseline > m {
            bs.last().baseline
        } else {
            m
        }
    }
}

/// Largest extent below the baseline.
pub open spec fn max_depth(bs: Seq<BoxView>) -> nat
    decreases bs.len(),
{
    if bs.len() == 0 {
        0
    } else {
        let m = max_depth(bs.drop_last());
        let d = (bs.last().height - bs.last().baseline) as nat;
        if d > m {
            d
        } else {
            m
        }
    }
}

/// `dst` with the first `k` boxes laid side by side, baselines on row `base`.
pub open spec fn place_row(dst: BoxView, bs: Seq<BoxView>, base: int, k: int) -> BoxView
    decreases k,
{
    if k <= 0 {
        dst
    } else {
        overlay(
            place_row(dst, bs, base, k - 1),
            bs[k - 1],
            sum_widths(bs.take(k - 1)) as int,
            base - bs[k - 1].baseline,
            CopyMode::SkipBlank,
        )
    }
}

/// The boxes side by side, aligned on their baselines (after spacing and bracket
/// stretching), or the whole row as text when no box is taller than one row.
pub open spec fn hconcat_boxes(boxes: Seq<BoxView>) -> Result<BoxView, MathErr> {
    let nb = nonempty_boxes(boxes);
    if nb.len() == 0 {
        Ok(text_box(Seq::empty()))
    } else if nb.len() == 1 {
        Ok(nb[0])
    } else {
        let bs = with_tall_brackets(with_operator_spacing(nb));
        if sum_widths(bs) > MAX_EXTENT {
            Err(too_large())
        } else if forall|k: int| 0 <= k < bs.len() ==> (#[trigger] bs[k]).height <= 1 {
            if first_rows_concat(bs).len() > MAX_EXTENT {
                Err(too_large())
            } else {
                Ok(text_box(first_rows_concat(bs)))
            }
        } else {
            let above = max_baseline(bs);
            let below = max_depth(bs);
            if above + below > MAX_EXTENT {
                Err(too_large())
            } else {
                Ok(
                    place_row(
                        blank_box(sum_widths(bs), above + below, above),
                        bs,
                        above as int,
                        bs.len() as int,
                    ),
                )
            }
        }
    }
}

proof fn lemma_nonempty_all_fit(bs: Seq<BoxView>)
    requires
        all_fit(bs),
    ensures
        all_fit(nonempty_boxes(bs)),
        forall|k: int|
            0 <= k < nonempty_boxes(bs).len() ==> (#[trigger] nonempty_boxes(bs)[k]).width > 0
                && nonempty_boxes(bs)[k].height > 0,
    decreases bs.len(),
{
    if bs.len() > 0 {
        lemma_nonempty_all_fit(bs.drop_last());
        assert(bs.last() == bs[bs.len() - 1]);
    }
}

pub fn nonempty_boxes_exec(boxes: &Vec<MathBox>) -> (r: Vec<MathBox>)
    ensures
        views(r@) == nonempty_boxes(views(boxes@)),
{
    let ghost bv = views(boxes@);
    let mut out: Vec<MathBox> = Vec::new();
    let n = boxes.len();
    let mut i: usize = 0;
    while i < n
        invariant
            n == bv.len(),
            bv == views(boxes@),
            i <= n,
            views(out@) == nonempty_boxes(bv.take(i as int)),
        decreases n - i,
    {
        let b = &boxes[i];
        proof {
            assert(bv.take(i + 1).drop_last() =~= bv.take(i as int));
            assert(bv.take(i + 1).last() == bv[i as int]);
        }
        if b.width() > 0 && b.height() > 0 {
            out.push(b.duplicate());
            proof {
                assert(views(out@) =~= nonempty_boxes(bv.take(i as int)).push(bv[i as int]));
            }
        }
        i += 1;
    }
    proof {
        assert(bv.take(n as int) =~= bv);
    }
    out
}

pub proof fn lemma_views_push(s: Seq<MathBox>, b: MathBox)
    ensures
        views(s.push(b)) == views(s).push(b@),
{
    assert(views(s.push(b)) =~= views(s).push(b@));
}

/// The model of a rendering result.
pub open spec fn res_view(r: Result<MathBox, MathMLError>) -> Result<BoxView, MathErr> {
    match r {
        Ok(b) => Ok(b@),
        Err(e) => Err(e@),
    }
}

pub fn contains_math_operator_needing_spacing(b: &MathBox) -> (r: bool)
    ensures
        r == needs_operator_spacing(b@),
{
    b.shape();
    if b.height() <= 2 {
        return false;
    }
    let h = b.height();
    let w = b.width();
    let mut y: usize = 0;
    while y < h
        invariant
            h == b@.height,
            h > 2,
            w == b@.width,
            b@.wf(),
            y <= h,
            forall|yy: int, x: int|
                0 <= yy < y && 0 <= x < b@.rows[yy].len() ==> !is_large_operator(
                    #[trigger] b@.rows[yy][x],
                ),
        decreases h - y,
    {
        let mut x: usize = 0;
        while x < w
            invariant
                h == b@.height,
                h > 2,
                w == b@.width,
                b@.wf(),
                y < h,
                x <= w,
                forall|yy: int, xx: int|
                    0 <= yy < y && 0 <= xx < b@.rows[yy].len() ==> !is_large_operator(
                        #[trigger] b@.rows[yy][xx],
                    ),
                forall|xx: int| 0 <= xx < x ==> !is_large_operator(#[trigger] b@.rows[y as int][xx]),
            decreases w - x,
        {
            let c = b.get_char(x, y);
            if c == '∏' || c == '∑' || c == '∫' || c == '⋃' || c == '⋂' || c == '⋁' || c == '⋀' {
                assert(b@.rows[y as int].len() == w);
                assert(is_large_operator(b@.rows[y as int][x as int]));
                assert(exists|yy: int, xx: int|
                    0 <= yy < b@.height && 0 <= xx < b@.rows[yy].len() && is_large_operator(
                        #[trigger] b@.rows[yy][xx],
                    ));
                return true;
            }
            x += 1;
        }
        y += 1;
    }
    false
}

pub fn space_box() -> (r: MathBox)
    ensures
        r@ == text_box(seq![' ']),
{
    let mut v: Vec<char> = Vec::new();
    v.push(' ');
    proof {
        assert(v@ =~= seq![' ']);
    }
    MathBox::from_chars(v)
}

pub fn add_operator_spacing(bs: &Vec<MathBox>) -> (r: Vec<MathBox>)
    requires
        all_fit(views(bs@)),
    ensures
        views(r@) == with_operator_spacing(views(bs@)),
        all_fit(views(r@)),
{
    let ghost bv = views(bs@);
    let n = bs.len();
    let mut out: Vec<MathBox> = Vec::new();
    let mut i: usize = 0;
    while i < n
        invariant
            n == bv.len(),
            bv == views(bs@),
            i <= n,
            views(out@) == spaced_prefix(bv, i as int),
            all_fit(bv),
            all_fit(views(out@)),
        decreases n - i,
    {
        let needs = contains_math_operator_needing_spacing(&bs[i]);
        let ghost before = views(out@);
        if i > 0 && needs {
            out.push(space_box());
        }
        out.push(bs[i].duplicate());
        if i + 1 < n && needs {
            out.push(space_box());
        }
        proof {
            assert(bs@[i as int]@ == bv[i as int]);
            assert(views(out@) =~= before + spacing_piece(bv, i as int));
            assert(fits(bv[i as int]));
            assert forall|k: int| 0 <= k < views(out@).len() implies fits(#[trigger] views(out@)[k]) by {
                if k >= before.len() {
                    let p = spacing_piece(bv, i as int);
                    assert(views(out@)[k] == p[k - before.len()]);
                }
            }
        }
        i += 1;
    }
    out
}

pub fn is_single_paren(b: &MathBox) -> (r: Option<char>)
    ensures
        r == single_paren(b@),
{
    b.shape();
    if b.height() == 1 && b.width() == 1 {
        let c = b.get_char(0, 0);
        if c == '(' || c == ')' || c == '[' || c == ']' || c == '{' || c == '}' {
            Some(c)
        } else {
            None
        }
    } else {
        None
    }
}

fn find_close_exec(bs: &Vec<MathBox>, open: char, from: usize) -> (r: Option<usize>)
    requires
        1 <= from <= bs@.len(),
    ensures
        match r {
            Some(c) => find_close(views(bs@), open, from as int, 1) == Some(c as int) && from <= c
                < bs@.len(),
            None => find_close(views(bs@), open, from as int, 1) is None,
        },
{
    let ghost bv = views(bs@);
    let n = bs.len();
    let mut j = from;
    let mut depth: usize = 1;
    while j < n
        invariant
            n == bv.len(),
            bv == views(bs@),
            1 <= from <= j <= n,
            1 <= depth <= 1 + j - from,
            find_close(bv, open, j as int, depth as int) == find_close(bv, open, from as int, 1),
        decreases n - j,
    {
        proof {
            assert(bs@[j as int]@ == bv[j as int]);
        }
        match is_single_paren(&bs[j]) {
            Some(c) => {
                if (open == '(' && c == ')') || (open == '[' && c == ']') || (open == '{' && c == '}') {
                    if depth == 1 {
                        return Some(j);
                    }
                    depth -= 1;
                } else if (open == '(' || open == '[' || open == '{') && c == open {
                    depth += 1;
                }
            },
            None => {},
        }
        j += 1;
    }
    None
}

fn max_height_exec(bs: &Vec<MathBox>, from: usize, to: usize) -> (m: usize)
    requires
        from <= to <= bs@.len(),
        all_fit(views(bs@)),
    ensures
        m == max_height(views(bs@), from as int, to as int),
        m <= MAX_EXTENT,
{
    let ghost bv = views(bs@);
    let mut m: usize = 0;
    let mut k = from;
    while k < to
        invariant
            bv == views(bs@),
            all_fit(bv),
            from <= k <= to <= bv.len(),
            m == max_height(bv, from as int, k as int),
            m <= MAX_EXTENT,
        decreases to - k,
    {
        proof {
            assert(bs@[k as int]@ == bv[k as int]);
            assert(fits(bv[k as int]));
        }
        let h = bs[k].height();
        if h > m {
            m = h;
        }
        k += 1;
    }
    m
}

/// A bracket of the given height: a tall column from three rows on.
pub fn create_multiline_paren(c: char, h: usize) -> (r: MathBox)
    ensures
        r@ == paren_box(c, h as nat),
{
    if h < 3 {
        let mut v: Vec<char> = Vec::new();
        v.push(c);
        proof {
            assert(v@ =~= seq![c]);
        }
        return MathBox::from_chars(v);
    }
    let mid = h - 2;
    let mut v: Vec<char> = Vec::new();
    if c == '(' || c == ')' || c == '[' || c == ']' || c == '{' || c == '}' {
        let (top, fill, bottom) = if c == '(' {
            ('⎛', '⎜', '⎝')
        } else if c == ')' {
            ('⎞', '⎟', '⎠')
        } else if c == '[' {
            ('⎡', '⎢', '⎣')
        } else if c == ']' {
            ('⎤', '⎥', '⎦')
        } else if c == '{' {
            ('⎧', '⎪', '⎩')
        } else {
            ('⎫', '⎪', '⎭')
        };
        let center = if c == '{' {
            '⎨'
        } else if c == '}' {
            '⎬'
        } else {
            fill
        };
        v.push(top);
        let mut k: usize = 0;
        while k < mid
            invariant
                mid == h - 2,
                h >= 3,
                k <= mid,
                v@.len() == 1 + k,
                v@[0] == top,
                forall|m: int|
                    0 <= m < k ==> #[trigger] v@[1 + m] == if m + 1 == h / 2 {
                        center
                    } else {
                        fill
                    },
            decreases mid - k,
        {
            if k + 1 == h / 2 {
                v.push(center);
            } else {
                v.push(fill);
            }
            k += 1;
        }
        v.push(bottom);
        proof {
            lemma_paren_column(c, h as nat, v@, top, fill, center, bottom);
        }
    } else {
        let mut k: usize = 0;
        while k < h
            invariant
                k <= h,
                v@ == Seq::new(k as nat, |_m: int| c),
            decreases h - k,
        {
            v.push(c);
            proof {
                assert(v@ =~= Seq::new((k + 1) as nat, |_m: int| c));
            }
            k += 1;
        }
        proof {
            assert(v@ =~= paren_column(c, h as nat));
        }
    }
    MathBox::column(v, h / 2)
}

proof fn lemma_max_height_bound(bs: Seq<BoxView>, from: int, to: int)
    requires
        all_fit(bs),
        0 <= from <= to <= bs.len(),
    ensures
        max_height(bs, from, to) <= MAX_EXTENT,
    decreases to - from,
{
    if to > from {
        lemma_max_height_bound(bs, from, to - 1);
    }
}

proof fn lemma_paren_column(
    c: char,
    h: nat,
    v: Seq<char>,
    top: char,
    fill: char,
    center: char,
    bottom: char,
)
    requires
        h >= 3,
        c == '(' || c == ')' || c == '[' || c == ']' || c == '{' || c == '}',
        v.len() == h,
        v[0] == top,
        v[h - 1] == bottom,
        forall|m: int| 0 <= m < h - 2 ==> #[trigger] v[1 + m] == if m + 1 == h / 2 {
            center
        } else {
            fill
        },
        c == '(' ==> top == '⎛' && fill == '⎜' && bottom == '⎝' && center == fill,
        c == ')' ==> top == '⎞' && fill == '⎟' && bottom == '⎠' && center == fill,
        c == '[' ==> top == '⎡' && fill == '⎢' && bottom == '⎣' && center == fill,
        c == ']' ==> top == '⎤' && fill == '⎥' && bottom == '⎦' && center == fill,
        c == '{' ==> top == '⎧' && fill == '⎪' && bottom == '⎩' && center == '⎨',
        c == '}' ==> top == '⎫' && fill == '⎪' && bottom == '⎭' && center == '⎬',
    ensures
        v == paren_column(c, h),
{
    let p = paren_column(c, h);
    assert(p.len() == h);
    assert forall|k: int| 0 <= k < h implies v[k] == p[k] by {
        if k == 0 {
        } else if k == h - 1 {
        } else {
            assert(v[1 + (k - 1)] == v[k]);
        }
    }
    assert(v =~= p);
}

/// Stretches single brackets around groups of three or more rows.
pub fn upgrade_parentheses(bs: &Vec<MathBox>) -> (r: Vec<MathBox>)
    requires
        all_fit(views(bs@)),
    ensures
        views(r@) == with_tall_brackets(views(bs@)),
        all_fit(views(r@)),
{
    let ghost bv = views(bs@);
    let n = bs.len();
    let mut out: Vec<MathBox> = Vec::new();
    if n < 3 {
        let mut k: usize = 0;
        while k < n
            invariant
                n == bv.len(),
                bv == views(bs@),
                k <= n,
                out@.len() == k,
                views(out@) == bv.take(k as int),
                all_fit(bv),
            decreases n - k,
        {
            let ghost prev = out@;
            out.push(bs[k].duplicate());
            proof {
                lemma_views_push(prev, out@[k as int]);
                assert(bv[k as int] == bs@[k as int]@);
                assert(views(out@) =~= bv.take(k + 1));
            }
            k += 1;
        }
        proof {
            assert(bv.take(n as int) =~= bv);
        }
        return out;
    }
    let mut i: usize = 0;
    while i < n
        invariant
            n == bv.len(),
            n >= 3,
            bv == views(bs@),
            all_fit(bv),
            i <= n,
            views(out@) + upgrade_from(bv, i as int) == upgrade_from(bv, 0),
            all_fit(views(out@)),
        decreases n - i,
    {
        let ghost before = views(out@);
        if i < n - 2 {
            proof {
                assert(bs@[i as int]@ == bv[i as int]);
            }
            if let Some(open) = is_single_paren(&bs[i]) {
                if let Some(c) = find_close_exec(bs, open, i + 1) {
                    let mh = max_height_exec(bs, i + 1, c);
                    if mh >= 3 {
                        let ghost prev0 = out@;
                        out.push(create_multiline_paren(open, mh));
                        proof {
                            lemma_views_push(prev0, out@[prev0.len() as int]);
                            assert forall|m: int| 0 <= m < views(out@).len() implies fits(
                                #[trigger] views(out@)[m],
                            ) by {
                                if m < prev0.len() {
                                    assert(views(out@)[m] == views(prev0)[m]);
                                }
                            }
                        }
                        let mut k = i + 1;
                        while k < c
                            invariant
                                n == bv.len(),
                                bv == views(bs@),
                                i + 1 <= k <= c < n,
                                all_fit(bv),
                                all_fit(views(out@)),
                                mh <= MAX_EXTENT,
                                views(out@) == before.push(paren_box(open, mh as nat)) + bv.subrange(
                                    i + 1,
                                    k as int,
                                ),
                            decreases c - k,
                        {
                            let ghost prev = out@;
                            out.push(bs[k].duplicate());
                            proof {
                                lemma_views_push(prev, out@[prev.len() as int]);
                                assert(bv[k as int] == bs@[k as int]@);
                                assert(views(out@) =~= before.push(paren_box(open, mh as nat))
                                    + bv.subrange(i + 1, k + 1));
                                assert(fits(bv[k as int]));
                                assert forall|m: int| 0 <= m < views(out@).len() implies fits(
                                    #[trigger] views(out@)[m],
                                ) by {
                                    if m < prev.len() {
                                        assert(views(out@)[m] == views(prev)[m]);
                                    }
                                }
                            }
                            k += 1;
                        }
                        let close = if open == '(' {
                            ')'
                        } else if open == '[' {
                            ']'
                        } else if open == '{' {
                            '}'
                        } else {
                            open
                        };
                        let ghost prev = out@;
                        out.push(create_multiline_paren(close, mh));
                        proof {
                            lemma_views_push(prev, out@[prev.len() as int]);
                            assert forall|m: int| 0 <= m < views(out@).len() implies fits(
                                #[trigger] views(out@)[m],
                            ) by {
                                if m < prev.len() {
                                    assert(views(out@)[m] == views(prev)[m]);
                                }
                            }
                            let piece = seq![paren_box(open, mh as nat)] + bv.subrange(i + 1, c as int)
                                + seq![paren_box(closing_char(open), mh as nat)];
                            assert(views(out@) =~= before + piece);
                            assert(upgrade_from(bv, i as int) == piece + upgrade_from(bv, c + 1));
                            assert(views(out@) + upgrade_from(bv, c + 1) =~= before + upgrade_from(
                                bv,
                                i as int,
                            ));
                        }
                        i = c + 1;
                        continue;
                    }
                }
            }
        }
        let ghost prev = out@;
        out.push(bs[i].duplicate());
        proof {
            lemma_views_push(prev, out@[prev.len() as int]);
            assert(bs@[i as int]@ == bv[i as int]);
            assert(fits(bv[i as int]));
            assert forall|m: int| 0 <= m < views(out@).len() implies fits(#[trigger] views(out@)[m]) by {
                if m < prev.len() {
                    assert(views(out@)[m] == views(prev)[m]);
                }
            }
            assert(upgrade_from(bv, i as int) == seq![bv[i as int]] + upgrade_from(bv, i + 1));
            assert(views(out@) + upgrade_from(bv, i + 1) =~= before + upgrade_from(bv, i as int));
        }
        i += 1;
    }
    proof {
        assert(views(out@) + upgrade_from(bv, n as int) =~= views(out@));
    }
    out
}

proof fn lemma_sum_widths_take(bs: Seq<BoxView>, k: int)
    requires
        0 <= k < bs.len(),
    ensures
        sum_widths(bs.take(k + 1)) == sum_widths(bs.take(k)) + bs[k].width,
{
    assert(bs.take(k + 1).drop_last() =~= bs.take(k));
}

proof fn lemma_sum_widths_prefix(bs: Seq<BoxView>, k: int)
    requires
        0 <= k <= bs.len(),
    ensures
        sum_widths(bs.take(k)) <= sum_widths(bs),
    decreases bs.len() - k,
{
    if k < bs.len() {
        lemma_sum_widths_take(bs, k);
        lemma_sum_widths_prefix(bs, k + 1);
    } else {
        assert(bs.take(k) =~= bs);
    }
}

proof fn lemma_max_baseline_ge(bs: Seq<BoxView>, k: int)
    requires
        0 <= k < bs.len(),
    ensures
        bs[k].baseline <= max_baseline(bs),
        (bs[k].height - bs[k].baseline) <= max_depth(bs),
    decreases bs.len(),
{
    if k < bs.len() - 1 {
        lemma_max_baseline_ge(bs.drop_last(), k);
    }
}

proof fn lemma_first_rows_take(bs: Seq<BoxView>, k: int)
    requires
        0 <= k < bs.len(),
    ensures
        first_rows_concat(bs.take(k + 1)) == first_rows_concat(bs.take(k)) + first_row(bs[k]),
{
    assert(bs.take(k + 1).drop_last() =~= bs.take(k));
}

proof fn lemma_max_take(bs: Seq<BoxView>, k: int)
    requires
        0 <= k < bs.len(),
    ensures
        max_baseline(bs.take(k + 1)) == if bs[k].baseline > max_baseline(bs.take(k)) {
            bs[k].baseline
        } else {
            max_baseline(bs.take(k))
        },
        max_depth(bs.take(k + 1)) == if (bs[k].height - bs[k].baseline) as nat > max_depth(
            bs.take(k),
        ) {
            (bs[k].height - bs[k].baseline) as nat
        } else {
            max_depth(bs.take(k))
        },
{
    assert(bs.take(k + 1).drop_last() =~= bs.take(k));
}

proof fn lemma_place_row_dims(dst: BoxView, bs: Seq<BoxView>, base: int, k: int)
    ensures
        place_row(dst, bs, base, k).width == dst.width,
        place_row(dst, bs, base, k).height == dst.height,
        place_row(dst, bs, base, k).baseline == dst.baseline,
    decreases k,
{
    if k > 0 {
        lemma_place_row_dims(dst, bs, base, k - 1);
    }
}

/// Concatenate boxes horizontally, aligning at baseline
pub fn horizontal_concat(boxes: &Vec<MathBox>) -> (r: Result<MathBox, MathMLError>)
    requires
        all_fit(views(boxes@)),
    ensures
        res_view(r) == hconcat_boxes(views(boxes@)),
        r matches Ok(b) ==> fits(b@),
{
    let nb = nonempty_boxes_exec(boxes);
    proof {
        lemma_nonempty_all_fit(views(boxes@));
    }
    if nb.len() == 0 {
        return Ok(MathBox::from_chars(Vec::new()));
    }
    if nb.len() == 1 {
        proof {
            assert(nb@[0]@ == views(nb@)[0]);
            assert(fits(views(nb@)[0]));
        }
        return Ok(nb[0].duplicate());
    }
    let spaced = add_operator_spacing(&nb);
    let bs = upgrade_parentheses(&spaced);
    let ghost bv = views(bs@);
    let n = bs.len();
    // Total width, stopping as soon as it passes the limit.
    let mut total: usize = 0;
    let mut k: usize = 0;
    let mut all_flat = true;
    while k < n
        invariant
            n == bv.len(),
            bv == views(bs@),
            bv == with_tall_brackets(with_operator_spacing(nonempty_boxes(views(boxes@)))),
            nonempty_boxes(views(boxes@)).len() >= 2,
            all_fit(bv),
            k <= n,
            total == sum_widths(bv.take(k as int)),
            total <= MAX_EXTENT,
            all_flat == forall|m: int| 0 <= m < k ==> (#[trigger] bv[m]).height <= 1,
        decreases n - k,
    {
        proof {
            lemma_sum_widths_take(bv, k as int);
            assert(bs@[k as int]@ == bv[k as int]);
            assert(fits(bv[k as int]));
        }
        let w = bs[k].width();
        if total + w > MAX_EXTENT {
            proof {
                lemma_sum_widths_prefix(bv, k + 1);
            }
            return Err(err_too_large());
        }
        total = total + w;
        if bs[k].height() > 1 {
            all_flat = false;
        }
        k += 1;
    }
    proof {
        assert(bv.take(n as int) =~= bv);
    }
    if all_flat {
        let mut combined: Vec<char> = Vec::new();
        let mut k: usize = 0;
        while k < n
            invariant
                n == bv.len(),
                bv == views(bs@),
                k <= n,
                combined@ == first_rows_concat(bv.take(k as int)),
            decreases n - k,
        {
            proof {
                lemma_first_rows_take(bv, k as int);
                assert(bs@[k as int]@ == bv[k as int]);
            }
            if bs[k].height() > 0 {
                let row = bs[k].row(0);
                push_all(&mut combined, row.as_slice());
            } else {
                proof {
                    assert(first_row(bv[k as int]) =~= Seq::<char>::empty());
                    assert(combined@ + first_row(bv[k as int]) =~= combined@);
                }
            }
            k += 1;
        }
        proof {
            assert(bv.take(n as int) =~= bv);
        }
        if combined.len() > MAX_EXTENT {
            return Err(err_too_large());
        }
        return Ok(MathBox::from_chars(combined));
    }
    let mut above: usize = 0;
    let mut below: usize = 0;
    let mut k: usize = 0;
    while k < n
        invariant
            n == bv.len(),
            bv == views(bs@),
            all_fit(bv),
            k <= n,
            above == max_baseline(bv.take(k as int)),
            below == max_depth(bv.take(k as int)),
            above <= MAX_EXTENT,
            below <= MAX_EXTENT,
        decreases n - k,
    {
        proof {
            lemma_max_take(bv, k as int);
            assert(bs@[k as int]@ == bv[k as int]);
            assert(fits(bv[k as int]));
        }
        let bl = bs[k].baseline();
        let d = bs[k].height() - bl;
        if bl > above {
            above = bl;
        }
        if d > below {
            below = d;
        }
        k += 1;
    }
    proof {
        assert(bv.take(n as int) =~= bv);
    }
    if above + below > MAX_EXTENT {
        return Err(err_too_large());
    }
    let height = above + below;
    let mut result = MathBox::create_empty(total, height, above);
    let ghost blank = result@;
    let mut x: usize = 0;
    let mut k: usize = 0;
    while k < n
        invariant
            n == bv.len(),
            bv == views(bs@),
            all_fit(bv),
            k <= n,
            total == sum_widths(bv),
            total <= MAX_EXTENT,
            above == max_baseline(bv),
            below == max_depth(bv),
            height == above + below,
            height <= MAX_EXTENT,
            x == sum_widths(bv.take(k as int)),
            result@ == place_row(blank, bv, above as int, k as int),
        decreases n - k,
    {
        proof {
            lemma_sum_widths_take(bv, k as int);
            lemma_sum_widths_prefix(bv, k + 1);
            lemma_max_baseline_ge(bv, k as int);
            assert(bs@[k as int]@ == bv[k as int]);
            assert(fits(bv[k as int]));
        }
        let b = &bs[k];
        let dy = above - b.baseline();
        result.copy_from(b, x, dy, CopyMode::SkipBlank);
        x = x + b.width();
        proof {
            assert(bv.take(k + 1).take(k as int) =~= bv.take(k as int));
        }
        k += 1;
    }
    proof {
        lemma_place_row_dims(blank, bv, above as int, n as int);
    }
    Ok(result)
}

} // verus!
