//! A rectangular grid of characters with a baseline: the unit of math layout.
use vstd::prelude::*;
use crate::text::{join, repeat, trim_end, trim_end_chars, push_all, string_from_chars, chars_of};

verus! {

/// Mathematical model of a rendered box.
pub struct BoxView {
    pub width: nat,
    pub height: nat,
    /// Distance from the top row to the baseline row.
    pub baseline: nat,
    pub rows: Seq<Seq<char>>,
}

impl BoxView {
    /// `height` rows of `width` characters each.
    pub open spec fn wf(self) -> bool {
        &&& self.rows.len() == self.height
        &&& forall|y: int| 0 <= y < self.height ==> (#[trigger] self.rows[y]).len() == self.width
    }

    /// The character at column `x` of row `y`, a space outside the box.
    pub open spec fn at(self, x: int, y: int) -> char {
        if 0 <= y < self.height && 0 <= x < self.width {
            self.rows[y][x]
        } else {
            ' '
        }
    }
}

/// A one-row box holding `t`, or the empty box when `t` is empty.
pub open spec fn text_box(t: Seq<char>) -> BoxView {
    BoxView {
        width: t.len(),
        height: if t.len() > 0 { 1 } else { 0 },
        baseline: 0,
        rows: if t.len() > 0 { seq![t] } else { Seq::empty() },
    }
}

/// A box of the given size filled with spaces.
pub open spec fn blank_box(width: nat, height: nat, baseline: nat) -> BoxView {
    BoxView { width, height, baseline, rows: Seq::new(height, |_y: int| repeat(' ', width)) }
}

/// Which characters of a source box are copied onto a target box.
#[derive(Clone, Copy, PartialEq, Eq, Debug)]
pub enum CopyMode {
    /// Every character.
    All,
    /// Every character but the space.
    SkipSpace,
    /// Every character but the space and the NUL character.
    SkipBlank,
}

pub open spec fn copies(m: CopyMode, c: char) -> bool {
    match m {
        CopyMode::All => true,
        CopyMode::SkipSpace => c != ' ',
        CopyMode::SkipBlank => c != ' ' && c != '\0',
    }
}

/// `dst` with `src` laid over it at offset (`dx`, `dy`); cells of `src` that
/// fall outside `dst`, or that the mode does not copy, leave `dst` unchanged.
pub open spec fn overlay(dst: BoxView, src: BoxView, dx: int, dy: int, m: CopyMode) -> BoxView {
    BoxView {
        rows: Seq::new(
            dst.height,
            |y: int|
                Seq::new(
                    dst.width,
                    |x: int|
                        if 0 <= x - dx < src.width && 0 <= y - dy < src.height && copies(
                            m,
                            src.at(x - dx, y - dy),
                        ) {
                            src.at(x - dx, y - dy)
                        } else {
                            dst.at(x, y)
                        },
                ),
        ),
        ..dst
    }
}

/// `dst` with the cells of `src` in rows before `yy`, and in row `yy` before
/// column `xx`, laid over it.
pub open spec fn overlay_prefix(
    dst: BoxView,
    src: BoxView,
    dx: int,
    dy: int,
    m: CopyMode,
    yy: int,
    xx: int,
) -> BoxView {
    BoxView {
        rows: Seq::new(
            dst.height,
            |y: int|
                Seq::new(
                    dst.width,
                    |x: int|
                        if 0 <= x - dx < src.width && 0 <= y - dy < src.height && (y - dy < yy || (
                        y - dy == yy && x - dx < xx)) && copies(m, src.at(x - dx, y - dy)) {
                            src.at(x - dx, y - dy)
                        } else {
                            dst.at(x, y)
                        },
                ),
        ),
        ..dst
    }
}

/// `dst` with the character at (`x`, `y`) replaced when it lies inside.
pub open spec fn put(dst: BoxView, x: int, y: int, c: char) -> BoxView {
    if 0 <= y < dst.height && 0 <= x < dst.width {
        BoxView { rows: dst.rows.update(y, dst.rows[y].update(x, c)), ..dst }
    } else {
        dst
    }
}

/// The rows, each without trailing white space, joined by newlines.
pub open spec fn rendered(b: BoxView) -> Seq<char> {
    join(b.rows.map_values(|r: Seq<char>| trim_end(r)), seq!['\n'])
}

/// Writing a cell and reading it back gives the written character; every other
/// cell keeps its character, and a write outside the box changes nothing.
pub proof fn law_put_then_at(b: BoxView, x: int, y: int, c: char, x2: int, y2: int)
    requires
        b.wf(),
    ensures
        put(b, x, y, c).wf(),
        0 <= x < b.width && 0 <= y < b.height ==> put(b, x, y, c).at(x, y) == c,
        x2 != x || y2 != y ==> put(b, x, y, c).at(x2, y2) == b.at(x2, y2),
        !(0 <= x < b.width && 0 <= y < b.height) ==> put(b, x, y, c) == b,
{
    let p = put(b, x, y, c);
    if 0 <= y < b.height && 0 <= x < b.width {
        assert forall|k: int| 0 <= k < p.height implies (#[trigger] p.rows[k]).len() == p.width by {
            if k != y {
                assert(p.rows[k] == b.rows[k]);
            }
        }
    }
}

/// A one-line text box renders as its text without the trailing white space.
pub proof fn law_text_box_renders_text(t: Seq<char>)
    ensures
        rendered(text_box(t)) == trim_end(t),
{
    let rows = text_box(t).rows.map_values(|r: Seq<char>| trim_end(r));
    if t.len() > 0 {
        assert(rows.len() == 1);
        assert(rows[0] == trim_end(t));
    } else {
        assert(rows.len() == 0);
        assert(trim_end(t) =~= Seq::<char>::empty()) by {
            reveal_with_fuel(trim_end, 1);
        }
    }
}

/// A rendered math element: a grid of characters with its dimensions.
#[derive(Debug)]
pub struct MathBox {
    width: usize,
    height: usize,
    baseline: usize,
    content: Vec<Vec<char>>,
}

impl View for MathBox {
    type V = BoxView;

    closed spec fn view(&self) -> BoxView {
        BoxView {
            width: self.width as nat,
            height: self.height as nat,
            baseline: self.baseline as nat,
            rows: self.content@.map_values(|r: Vec<char>| r@),
        }
    }
}

impl MathBox {
    #[verifier::type_invariant]
    closed spec fn well_formed(self) -> bool {
        &&& self.content@.len() == self.height
        &&& forall|y: int| 0 <= y < self.height ==> (#[trigger] self.content@[y])@.len() == self.width
    }

    /// The model of every box is well formed.
    pub fn shape(&self)
        ensures
            self@.wf(),
    {
        proof {
            use_type_invariant(self);
        }
    }

    /// Initialize a simple text box
    pub fn new(text: &str) -> (r: Self)
        ensures
            r@ == text_box(text@),
    {
        let chars = chars_of(text);
        Self::from_chars(chars)
    }

    /// A one-row box holding the given characters.
    pub fn from_chars(chars: Vec<char>) -> (r: Self)
        ensures
            r@ == text_box(chars@),
    {
        let width = chars.len();
        let height: usize = if width > 0 {
            1
        } else {
            0
        };
        let mut content: Vec<Vec<char>> = Vec::new();
        let ghost t = chars@;
        if width > 0 {
            content.push(chars);
        }
        let r = MathBox { width, height, baseline: 0, content };
        proof {
            if width > 0 {
                assert(r@.rows =~= seq![t]);
            } else {
                assert(r@.rows =~= Seq::<Seq<char>>::empty());
            }
        }
        r
    }

    /// Create an empty box with given dimensions
    pub fn create_empty(width: usize, height: usize, baseline: usize) -> (r: Self)
        ensures
            r@ == blank_box(width as nat, height as nat, baseline as nat),
    {
        let mut content: Vec<Vec<char>> = Vec::new();
        let mut y: usize = 0;
        while y < height
            invariant
                y <= height,
                content@.len() == y,
                forall|k: int| 0 <= k < y ==> (#[trigger] content@[k])@ == repeat(' ', width as nat),
            decreases height - y,
        {
            let row = crate::text::repeat_chars(' ', width);
            content.push(row);
            y += 1;
        }
        let r = MathBox { width, height, baseline, content };
        proof {
            assert(r@.rows =~= Seq::new(height as nat, |_y: int| repeat(' ', width as nat)));
        }
        r
    }

    /// A one-column box showing the given characters top to bottom.
    pub fn column(chars: Vec<char>, baseline: usize) -> (r: Self)
        ensures
            r@ == crate::mathml::concat::column_box(chars@, baseline as nat),
    {
        let mut content: Vec<Vec<char>> = Vec::new();
        let mut y: usize = 0;
        while y < chars.len()
            invariant
                y <= chars@.len(),
                content@.len() == y,
                forall|k: int| 0 <= k < y ==> (#[trigger] content@[k])@ == seq![chars@[k]],
            decreases chars@.len() - y,
        {
            let mut row: Vec<char> = Vec::new();
            row.push(chars[y]);
            content.push(row);
            y += 1;
        }
        let r = MathBox { width: 1, height: chars.len(), baseline, content };
        proof {
            assert(r@.rows =~= Seq::new(chars@.len(), |k: int| seq![chars@[k]]));
        }
        r
    }

    pub fn width(&self) -> (w: usize)
        ensures
            w == self@.width,
    {
        self.width
    }

    pub fn height(&self) -> (h: usize)
        ensures
            h == self@.height,
    {
        self.height
    }

    pub fn baseline(&self) -> (b: usize)
        ensures
            b == self@.baseline,
    {
        self.baseline
    }

    /// Get character at position, return space if out of bounds
    pub fn get_char(&self, x: usize, y: usize) -> (c: char)
        ensures
            c == self@.at(x as int, y as int),
    {
        proof {
            use_type_invariant(self);
        }
        if y < self.height && x < self.width {
            self.content[y][x]
        } else {
            ' '
        }
    }

    /// A copy of row `y`.
    pub fn row(&self, y: usize) -> (r: Vec<char>)
        requires
            y < self@.height,
        ensures
            r@ == self@.rows[y as int],
    {
        proof {
            use_type_invariant(self);
        }
        self.content[y].clone()
    }

    /// Set character at position
    pub fn set_char(&mut self, x: usize, y: usize, ch: char)
        ensures
            final(self)@ == put(old(self)@, x as int, y as int, ch),
    {
        proof {
            use_type_invariant(&*self);
        }
        if y < self.height && x < self.width {
            let mut tmp = MathBox { width: 0, height: 0, baseline: 0, content: Vec::new() };
            std::mem::swap(self, &mut tmp);
            let MathBox { width, height, baseline, content } = tmp;
            let mut content = content;
            let mut row = content[y].clone();
            row.set(x, ch);
            let ghost old_rows = content@;
            content.set(y, row);
            *self = MathBox { width, height, baseline, content };
            proof {
                assert(self@.rows =~= old(self)@.rows.update(
                    y as int,
                    old(self)@.rows[y as int].update(x as int, ch),
                ));
                assert forall|k: int| 0 <= k < self.height implies (
                #[trigger] self.content@[k])@.len() == self.width by {
                    if k != y {
                        assert(self.content@[k] == old_rows[k]);
                    }
                }
            }
        }
    }

    /// A copy of this box.
    pub fn duplicate(&self) -> (r: MathBox)
        ensures
            r@ == self@,
    {
        proof {
            use_type_invariant(self);
        }
        let mut content: Vec<Vec<char>> = Vec::new();
        let mut y: usize = 0;
        while y < self.height
            invariant
                y <= self.height,
                self.content@.len() == self.height,
                forall|k: int| 0 <= k < self.height ==> (#[trigger] self.content@[k])@.len() == self.width,
                content@.len() == y,
                forall|k: int| 0 <= k < y ==> (#[trigger] content@[k])@ == self.content@[k]@,
            decreases self.height - y,
        {
            content.push(self.content[y].clone());
            y += 1;
        }
        let r = MathBox { width: self.width, height: self.height, baseline: self.baseline, content };
        proof {
            assert(r@.rows =~= self@.rows);
        }
        r
    }

    /// Lays `src` over this box at offset (`dx`, `dy`), copying the characters
    /// that `mode` keeps.
    pub fn copy_from(&mut self, src: &MathBox, dx: usize, dy: usize, mode: CopyMode)
        requires
            dx + src@.width <= usize::MAX,
            dy + src@.height <= usize::MAX,
        ensures
            final(self)@ == overlay(old(self)@, src@, dx as int, dy as int, mode),
    {
        proof {
            use_type_invariant(&*self);
            use_type_invariant(src);
        }
        let ghost d = self@;
        let ghost s = src@;
        proof {
            assert(d == overlay_prefix(d, s, dx as int, dy as int, mode, 0, 0)) by {
                assert(d.rows =~= overlay_prefix(d, s, dx as int, dy as int, mode, 0, 0).rows) by {
                    assert forall|y: int| 0 <= y < d.height implies #[trigger] d.rows[y]
                        =~= overlay_prefix(d, s, dx as int, dy as int, mode, 0, 0).rows[y] by {
                    }
                }
            }
        }
        let mut y: usize = 0;
        while y < src.height
            invariant
                d == old(self)@,
                s == src@,
                d.wf(),
                s.wf(),
                y <= s.height,
                self@ == overlay_prefix(d, s, dx as int, dy as int, mode, y as int, 0),
                dx + s.width <= usize::MAX,
                dy + s.height <= usize::MAX,
            decreases s.height - y,
        {
            let mut x: usize = 0;
            while x < src.width
                invariant
                    d == old(self)@,
                    s == src@,
                    d.wf(),
                    s.wf(),
                    y < s.height,
                    x <= s.width,
                    self@ == overlay_prefix(d, s, dx as int, dy as int, mode, y as int, x as int),
                    dx + s.width <= usize::MAX,
                    dy + s.height <= usize::MAX,
                decreases s.width - x,
            {
                let ch = src.get_char(x, y);
                let keep = match mode {
                    CopyMode::All => true,
                    CopyMode::SkipSpace => ch != ' ',
                    CopyMode::SkipBlank => ch != ' ' && ch != '\0',
                };
                let ghost before = self@;
                if keep {
                    self.set_char(x + dx, y + dy, ch);
                }
                proof {
                    lemma_overlay_prefix_step(d, s, dx as int, dy as int, mode, y as int, x as int);
                }
                x += 1;
            }
            proof {
                lemma_overlay_prefix_row(d, s, dx as int, dy as int, mode, y as int);
            }
            y += 1;
        }
        proof {
            lemma_overlay_prefix_full(d, s, dx as int, dy as int, mode);
        }
    }

    /// Render the box as a string
    pub fn render(&self) -> (s: String)
        ensures
            s@ == rendered(self@),
    {
        proof {
            use_type_invariant(self);
        }
        let mut out: Vec<char> = Vec::new();
        let mut y: usize = 0;
        let ghost trimmed = self@.rows.map_values(|r: Seq<char>| trim_end(r));
        while y < self.height
            invariant
                y <= self.height,
                self.content@.len() == self.height,
                trimmed == self@.rows.map_values(|r: Seq<char>| trim_end(r)),
                out@ == join(trimmed.take(y as int), seq!['\n']),
            decreases self.height - y,
        {
            let line = trim_end_chars(self.content[y].as_slice());
            proof {
                assert(trimmed.take(y + 1) =~= trimmed.take(y as int).push(trimmed[y as int]));
                crate::text::lemma_join_push(trimmed.take(y as int), seq!['\n'], line@);
            }
            if y > 0 {
                out.push('\n');
            }
            push_all(&mut out, line.as_slice());
            proof {
                if y > 0 {
                    assert(out@ =~= join(trimmed.take(y as int), seq!['\n']) + seq!['\n'] + line@);
                } else {
                    assert(out@ =~= line@);
                }
            }
            y += 1;
        }
        proof {
            assert(trimmed.take(self.height as int) =~= trimmed);
        }
        string_from_chars(out.as_slice())
    }
}

proof fn lemma_overlay_prefix_step(
    d: BoxView,
    s: BoxView,
    dx: int,
    dy: int,
    m: CopyMode,
    y: int,
    x: int,
)
    requires
        d.wf(),
        s.wf(),
        0 <= y < s.height,
        0 <= x < s.width,
        dx >= 0,
        dy >= 0,
    ensures
        ({
            let cur = overlay_prefix(d, s, dx, dy, m, y, x);
            let next = overlay_prefix(d, s, dx, dy, m, y, x + 1);
            let ch = s.at(x, y);
            &&& copies(m, ch) ==> next == put(cur, x + dx, y + dy, ch)
            &&& !copies(m, ch) ==> next == cur
        }),
{
    let cur = overlay_prefix(d, s, dx, dy, m, y, x);
    let next = overlay_prefix(d, s, dx, dy, m, y, x + 1);
    let ch = s.at(x, y);
    if copies(m, ch) {
        let p = put(cur, x + dx, y + dy, ch);
        assert(next.rows =~= p.rows) by {
            assert forall|yy: int| 0 <= yy < d.height implies #[trigger] next.rows[yy] =~= p.rows[yy] by {
            }
        }
    } else {
        assert(next.rows =~= cur.rows) by {
            assert forall|yy: int| 0 <= yy < d.height implies #[trigger] next.rows[yy] =~= cur.rows[yy] by {
            }
        }
    }
}

proof fn lemma_overlay_prefix_row(d: BoxView, s: BoxView, dx: int, dy: int, m: CopyMode, y: int)
    requires
        d.wf(),
        s.wf(),
        0 <= y < s.height,
    ensures
        overlay_prefix(d, s, dx, dy, m, y, s.width as int) == overlay_prefix(d, s, dx, dy, m, y + 1, 0),
{
    let a = overlay_prefix(d, s, dx, dy, m, y, s.width as int);
    let b = overlay_prefix(d, s, dx, dy, m, y + 1, 0);
    assert(a.rows =~= b.rows) by {
        assert forall|yy: int| 0 <= yy < d.height implies #[trigger] a.rows[yy] =~= b.rows[yy] by {
        }
    }
}

proof fn lemma_overlay_prefix_full(d: BoxView, s: BoxView, dx: int, dy: int, m: CopyMode)
    requires
        d.wf(),
        s.wf(),
    ensures
        overlay_prefix(d, s, dx, dy, m, s.height as int, 0) == overlay(d, s, dx, dy, m),
{
    let a = overlay_prefix(d, s, dx, dy, m, s.height as int, 0);
    let b = overlay(d, s, dx, dy, m);
    assert(a.rows =~= b.rows) by {
        assert forall|yy: int| 0 <= yy < d.height implies #[trigger] a.rows[yy] =~= b.rows[yy] by {
        }
    }
}

} // verus!
