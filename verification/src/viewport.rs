//! What the reader shows of its rendered lines: the text width and height,
//! the text area inside the frame, the lines in view, the room kept for a
//! comment being written, and when the lines must be rendered again.
use vstd::prelude::*;
use crate::widget::common::PopupArea;

verus! {

/// The reader's viewport for one frame.
#[derive(Clone, Copy, Debug)]
pub struct ViewportPlan {
    /// Rows of text in view.
    pub visible_height: usize,
    /// Width the chapter is rendered at.
    pub width: usize,
    /// Where the text is drawn.
    pub text_area: PopupArea,
    /// One past the last rendered line in view.
    pub end_offset: usize,
    /// Where the comment input goes among the lines in view, and the rows
    /// kept for it.
    pub textarea: Option<(usize, usize)>,
}

pub open spec fn sub16(a: u16, b: int) -> u16 {
    if a >= b {
        (a - b) as u16
    } else {
        0
    }
}

pub open spec fn add16(a: u16, b: int) -> u16 {
    if a + b <= u16::MAX {
        (a + b) as u16
    } else {
        u16::MAX
    }
}

/// The viewport of a frame `area_w` by `area_h` cells whose bordered block
/// leaves `inner`, at a content margin, scrolled to `scroll` over
/// `total_lines` rendered lines, with the comment input (its target line and
/// its number of lines) if one is open: three rows go to the frame and the
/// footer, four columns to the frame and padding and four per margin step;
/// the text sits one row and one column into `inner`, indented by two
/// columns per margin step on each side; the input keeps its lines (at
/// least three) and two more when its target line is in view.
pub open spec fn viewport_plan(
    area_w: u16,
    area_h: u16,
    inner: PopupArea,
    margin: u16,
    scroll: usize,
    total_lines: usize,
    input: Option<(usize, usize)>,
) -> ViewportPlan {
    let vh = sub16(area_h, 3) as usize;
    let end = if scroll + vh < total_lines {
        (scroll + vh) as usize
    } else {
        total_lines
    };
    ViewportPlan {
        visible_height: vh,
        width: (sub16(area_w, 4) - 4 * margin) as usize,
        text_area: PopupArea {
            x: add16(add16(inner.x, 1), 2 * margin),
            y: add16(inner.y, 1),
            width: sub16(inner.width, 4 * margin),
            height: sub16(inner.height, 1),
        },
        end_offset: end,
        textarea: match input {
            Some((target, n)) => if scroll <= target && target < end {
                Some((target, ((if n < 3 {
                    3
                } else {
                    n
                }) + 2) as usize))
            } else {
                None
            },
            None => None,
        },
    }
}

/// Plans the viewport of a frame.
pub fn plan_viewport(
    area_w: u16,
    area_h: u16,
    inner: PopupArea,
    margin: u16,
    scroll: usize,
    total_lines: usize,
    input: Option<(usize, usize)>,
) -> (r: ViewportPlan)
    requires
        4 * margin <= sub16(area_w, 4),
        scroll + sub16(area_h, 3) <= usize::MAX,
        input matches Some((_, n)) ==> n + 2 <= usize::MAX,
    ensures
        r == viewport_plan(area_w, area_h, inner, margin, scroll, total_lines, input),
{
    let vh = area_h.saturating_sub(3) as usize;
    let end = if scroll + vh < total_lines {
        scroll + vh
    } else {
        total_lines
    };
    let margin_cells = margin * 2;
    let width = (area_w.saturating_sub(4) as usize) - (margin_cells as usize) * 2;
    let text_area = PopupArea {
        x: inner.x.saturating_add(1).saturating_add(margin_cells),
        y: inner.y.saturating_add(1),
        width: inner.width.saturating_sub(margin_cells * 2),
        height: inner.height.saturating_sub(1),
    };
    let textarea = match input {
        Some((target, n)) => if scroll <= target && target < end {
            Some((target, (if n < 3 {
                3
            } else {
                n
            }) + 2))
        } else {
            None
        },
        None => None,
    };
    ViewportPlan { visible_height: vh, width, text_area, end_offset: end, textarea }
}

/// Whether the chapter must be rendered again: the width or the focus
/// changed since the last rendering, or its lines are of an older
/// generation.
pub fn needs_rerender(
    last_width: usize,
    width: usize,
    last_focus: bool,
    is_focused: bool,
    rendered_generation: u64,
    cache_generation: u64,
) -> (b: bool)
    ensures
        b == (last_width != width || last_focus != is_focused || rendered_generation != cache_generation),
{
    last_width != width || last_focus != is_focused || rendered_generation != cache_generation
}

/// The rows of the viewport from `scroll` on: for each line in view its
/// index, and before the input's target line the empty rows kept for it.
pub open spec fn visible_rows(plan: ViewportPlan, scroll: usize, k: nat) -> Seq<Option<usize>>
    decreases k,
{
    if k == 0 {
        Seq::empty()
    } else {
        let idx = scroll + k - 1;
        visible_rows(plan, scroll, (k - 1) as nat) + (match plan.textarea {
            Some((pos, n)) => if pos == idx {
                Seq::new(n as nat, |_i: int| None::<usize>)
            } else {
                Seq::empty()
            },
            None => Seq::empty(),
        }) + seq![Some(idx as usize)]
    }
}

/// The rows of the viewport: the lines from `scroll` to the plan's end,
/// with the input's rows before its target line.
pub fn plan_rows(plan: &ViewportPlan, scroll: usize) -> (r: Vec<Option<usize>>)
    requires
        scroll <= plan.end_offset,
    ensures
        r@ == visible_rows(*plan, scroll, (plan.end_offset - scroll) as nat),
{
    let mut out: Vec<Option<usize>> = Vec::new();
    let mut idx = scroll;
    while idx < plan.end_offset
        invariant
            scroll <= idx <= plan.end_offset,
            out@ == visible_rows(*plan, scroll, (idx - scroll) as nat),
        decreases plan.end_offset - idx,
    {
        let ghost before = out@;
        match plan.textarea {
            Some((pos, n)) => if pos == idx {
                let mut j: usize = 0;
                while j < n
                    invariant
                        j <= n,
                        out@ == before + Seq::new(j as nat, |_i: int| None::<usize>),
                    decreases n - j,
                {
                    out.push(None);
                    proof {
                        assert(out@ =~= before + Seq::new((j + 1) as nat, |_i: int| None::<usize>));
                    }
                    j += 1;
                }
            },
            None => {},
        }
        let ghost mid = out@;
        out.push(Some(idx));
        proof {
            assert(out@ =~= visible_rows(*plan, scroll, (idx + 1 - scroll) as nat));
        }
        idx += 1;
    }
    out
}

} // verus!
