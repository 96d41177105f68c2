//! Layout of the individual MathML constructs from the boxes of their parts.
use vstd::prelude::*;
use crate::mathml::math_box::{BoxView, MathBox, CopyMode, text_box, blank_box, overlay};
use crate::mathml::concat::res_view;
use crate::mathml::error::{
    MathErr, MathMLError, MAX_EXTENT, fits, too_large, err_too_large, structure_err,
    structure_error,
};
use crate::mathml::unicode::{
    unicode_subscript, unicode_superscript, to_unicode_subscript, to_unicode_superscript, subscript_form,
    superscript_image, superscript_normalized,
};
use crate::text::{
    trim,
    concat,
    utf8_len,
    repeat,
    trim_chars,
    push_all,
    repeat_chars,
    utf8_len_of,
    lemma_concat_push,
    alphanumeric,
    is_alphanumeric,
};

verus! {

pub open spec fn max_nat(a: nat, b: nat) -> nat {
    if a >= b {
        a
    } else {
        b
    }
}

/// A text box, refused when wider than the limit.
pub open spec fn checked_text(t: Seq<char>) -> Result<BoxView, MathErr> {
    if t.len() > MAX_EXTENT {
        Err(too_large())
    } else {
        Ok(text_box(t))
    }
}

pub fn checked_text_exec(t: Vec<char>) -> (r: Result<MathBox, MathMLError>)
    ensures
        res_view(r) == checked_text(t@),
        r matches Ok(b) ==> fits(b@),
{
    if t.len() > MAX_EXTENT {
        Err(err_too_large())
    } else {
        Ok(MathBox::from_chars(t))
    }
}

/// The trimmed text of the first row.
pub open spec fn row_text(b: BoxView) -> Seq<char> {
    trim(b.rows[0])
}

/// All rows, each trimmed, run together and trimmed.
pub open spec fn flattened_text(b: BoxView) -> Seq<char> {
    trim(concat(b.rows.map_values(|r: Seq<char>| trim(r))))
}

/// All rows run together, then trimmed.
pub open spec fn joined_text(b: BoxView) -> Seq<char> {
    trim(concat(b.rows))
}

/// A one-row box whose baseline is its only row.
pub open spec fn is_simple(b: BoxView) -> bool {
    b.height == 1 && b.baseline == 0
}

pub fn row_text_exec(b: &MathBox) -> (r: Vec<char>)
    requires
        b@.height >= 1,
    ensures
        r@ == row_text(b@),
{
    let row = b.row(0);
    trim_chars(row.as_slice())
}

pub fn flattened_text_exec(b: &MathBox) -> (r: Vec<char>)
    ensures
        r@ == flattened_text(b@),
{
    b.shape();
    let ghost tr = b@.rows.map_values(|r: Seq<char>| trim(r));
    let mut acc: Vec<char> = Vec::new();
    let mut y: usize = 0;
    while y < b.height()
        invariant
            y <= b@.height,
            b@.wf(),
            tr == b@.rows.map_values(|r: Seq<char>| trim(r)),
            acc@ == concat(tr.take(y as int)),
        decreases b@.height - y,
    {
        let row = b.row(y);
        let t = trim_chars(row.as_slice());
        proof {
            assert(tr.take(y + 1) =~= tr.take(y as int).push(tr[y as int]));
            lemma_concat_push(tr.take(y as int), tr[y as int]);
        }
        push_all(&mut acc, t.as_slice());
        y += 1;
    }
    proof {
        assert(tr.take(b@.height as int) =~= tr);
    }
    trim_chars(acc.as_slice())
}

pub fn joined_text_exec(b: &MathBox) -> (r: Vec<char>)
    ensures
        r@ == joined_text(b@),
{
    b.shape();
    let mut acc: Vec<char> = Vec::new();
    let mut y: usize = 0;
    while y < b.height()
        invariant
            y <= b@.height,
            b@.wf(),
            acc@ == concat(b@.rows.take(y as int)),
        decreases b@.height - y,
    {
        let row = b.row(y);
        proof {
            assert(b@.rows.take(y + 1) =~= b@.rows.take(y as int).push(b@.rows[y as int]));
            lemma_concat_push(b@.rows.take(y as int), b@.rows[y as int]);
        }
        push_all(&mut acc, row.as_slice());
        y += 1;
    }
    proof {
        assert(b@.rows.take(b@.height as int) =~= b@.rows);
    }
    trim_chars(acc.as_slice())
}

// ---------------------------------------------------------------- fractions

/// A horizontal bar of `w` cells.
pub open spec fn bar_box(w: nat) -> BoxView {
    text_box(repeat('─', w))
}

/// A fraction: numerator over a bar over denominator, each centred; without the
/// bar when `invisible` (the numerator's last row is then the baseline).
pub open spec fn fraction_layout(num: BoxView, den: BoxView, invisible: bool) -> Result<
    BoxView,
    MathErr,
> {
    let w = max_nat(num.width, den.width);
    let num_x = (w - num.width) / 2;
    let den_x = (w - den.width) / 2;
    if invisible {
        if num.height == 0 {
            Err(structure_err("invisible fraction needs a numerator row"@))
        } else if num.height + den.height > MAX_EXTENT {
            Err(too_large())
        } else {
            let h = num.height + den.height;
            let b = blank_box(w, h, (num.height - 1) as nat);
            Ok(
                overlay(
                    overlay(b, num, num_x, 0, CopyMode::All),
                    den,
                    den_x,
                    num.height as int,
                    CopyMode::All,
                ),
            )
        }
    } else if num.height + 1 + den.height > MAX_EXTENT {
        Err(too_large())
    } else {
        let h = num.height + 1 + den.height;
        let b = blank_box(w, h, num.height);
        let with_num = overlay(b, num, num_x, 0, CopyMode::All);
        let with_bar = overlay(with_num, bar_box(w), 0, num.height as int, CopyMode::All);
        Ok(overlay(with_bar, den, den_x, (num.height + 1) as int, CopyMode::All))
    }
}

pub fn process_fraction(num: &MathBox, den: &MathBox, invisible: bool) -> (r: Result<
    MathBox,
    MathMLError,
>)
    requires
        fits(num@),
        fits(den@),
    ensures
        res_view(r) == fraction_layout(num@, den@, invisible),
        r matches Ok(b) ==> fits(b@),
{
    let w = if num.width() >= den.width() {
        num.width()
    } else {
        den.width()
    };
    let num_x = (w - num.width()) / 2;
    let den_x = (w - den.width()) / 2;
    if invisible {
        if num.height() == 0 {
            return Err(structure_error("invisible fraction needs a numerator row"));
        }
        if num.height() + den.height() > MAX_EXTENT {
            return Err(err_too_large());
        }
        let h = num.height() + den.height();
        let mut result = MathBox::create_empty(w, h, num.height() - 1);
        result.copy_from(num, num_x, 0, CopyMode::All);
        result.copy_from(den, den_x, num.height(), CopyMode::All);
        return Ok(result);
    }
    if num.height() + 1 + den.height() > MAX_EXTENT {
        return Err(err_too_large());
    }
    let h = num.height() + 1 + den.height();
    let mut result = MathBox::create_empty(w, h, num.height());
    result.copy_from(num, num_x, 0, CopyMode::All);
    let bar = MathBox::from_chars(repeat_chars('─', w));
    result.copy_from(&bar, 0, num.height(), CopyMode::All);
    result.copy_from(den, den_x, num.height() + 1, CopyMode::All);
    Ok(result)
}

// ------------------------------------------------------------ sub/superscripts

/// Characters allowed in the `base_sub` text form of a subscript.
pub open spec fn latex_subscript_char(c: char) -> bool {
    alphanumeric(c) || c == '-' || c == '+' || c == '/' || c == ' '
}

/// The text of a subscript box when it can be written on the base's line.
pub open spec fn subscript_text(sub: BoxView) -> Seq<char> {
    if is_simple(sub) {
        row_text(sub)
    } else {
        let f = flattened_text(sub);
        if utf8_len(f) <= 20 {
            f
        } else {
            Seq::empty()
        }
    }
}

/// Subscript below and to the right of the base, multi-row form.
pub open spec fn subscript_grid(base: BoxView, sub: BoxView) -> Result<BoxView, MathErr> {
    let w = base.width + sub.width;
    let h = max_nat(base.height, base.baseline + 1 + sub.height);
    if w > MAX_EXTENT || h > MAX_EXTENT {
        Err(too_large())
    } else {
        let b = blank_box(w, h, base.baseline);
        Ok(
            overlay(
                overlay(b, base, 0, 0, CopyMode::All),
                sub,
                base.width as int,
                (base.baseline + 1) as int,
                CopyMode::All,
            ),
        )
    }
}

/// `msub`: Unicode subscript on the base's line when possible, then `base_sub`
/// text, then the multi-row form.
pub open spec fn subscript_layout(base: BoxView, sub: BoxView, use_unicode: bool) -> Result<
    BoxView,
    MathErr,
> {
    if is_simple(base) && subscript_text(sub).len() > 0 {
        let st = subscript_text(sub);
        match unicode_subscript(st, use_unicode) {
            Some(u) => checked_text(row_text(base) + u),
            None => if utf8_len(st) <= 20 && (forall|k: int|
                0 <= k < st.len() ==> latex_subscript_char(#[trigger] st[k])) {
                checked_text(row_text(base) + seq!['_'] + st)
            } else {
                subscript_grid(base, sub)
            },
        }
    } else {
        subscript_grid(base, sub)
    }
}

fn all_latex_subscript(st: &Vec<char>) -> (b: bool)
    ensures
        b == forall|k: int| 0 <= k < st@.len() ==> latex_subscript_char(#[trigger] st@[k]),
{
    let mut k: usize = 0;
    while k < st.len()
        invariant
            k <= st@.len(),
            forall|m: int| 0 <= m < k ==> latex_subscript_char(#[trigger] st@[m]),
        decreases st@.len() - k,
    {
        let c = st[k];
        if !(is_alphanumeric(c) || c == '-' || c == '+' || c == '/' || c == ' ') {
            return false;
        }
        k += 1;
    }
    true
}

fn all_alphanumeric(st: &Vec<char>) -> (b: bool)
    ensures
        b == forall|k: int| 0 <= k < st@.len() ==> alphanumeric(#[trigger] st@[k]),
{
    let mut k: usize = 0;
    while k < st.len()
        invariant
            k <= st@.len(),
            forall|m: int| 0 <= m < k ==> alphanumeric(#[trigger] st@[m]),
        decreases st@.len() - k,
    {
        if !is_alphanumeric(st[k]) {
            return false;
        }
        k += 1;
    }
    true
}

fn concat3(a: &Vec<char>, b: &Vec<char>, c: &Vec<char>) -> (r: Vec<char>)
    ensures
        r@ == a@ + b@ + c@,
{
    let mut r: Vec<char> = Vec::new();
    push_all(&mut r, a.as_slice());
    push_all(&mut r, b.as_slice());
    push_all(&mut r, c.as_slice());
    proof {
        assert(r@ =~= a@ + b@ + c@);
    }
    r
}

fn one_char(c: char) -> (r: Vec<char>)
    ensures
        r@ == seq![c],
{
    let mut r: Vec<char> = Vec::new();
    r.push(c);
    proof {
        assert(r@ =~= seq![c]);
    }
    r
}

fn subscript_grid_exec(base: &MathBox, sub: &MathBox) -> (r: Result<MathBox, MathMLError>)
    requires
        fits(base@),
        fits(sub@),
    ensures
        res_view(r) == subscript_grid(base@, sub@),
        r matches Ok(b) ==> fits(b@),
{
    let w = base.width() + sub.width();
    let lower = base.baseline() + 1 + sub.height();
    let h = if base.height() >= lower {
        base.height()
    } else {
        lower
    };
    if w > MAX_EXTENT || h > MAX_EXTENT {
        return Err(err_too_large());
    }
    let mut result = MathBox::create_empty(w, h, base.baseline());
    result.copy_from(base, 0, 0, CopyMode::All);
    result.copy_from(sub, base.width(), base.baseline() + 1, CopyMode::All);
    Ok(result)
}

pub fn process_subscript(base: &MathBox, sub: &MathBox, use_unicode: bool) -> (r: Result<
    MathBox,
    MathMLError,
>)
    requires
        fits(base@),
        fits(sub@),
    ensures
        res_view(r) == subscript_layout(base@, sub@, use_unicode),
        r matches Ok(b) ==> fits(b@),
{
    if base.height() == 1 && base.baseline() == 0 {
        let st: Vec<char> = if sub.height() == 1 && sub.baseline() == 0 {
            row_text_exec(sub)
        } else {
            let f = flattened_text_exec(sub);
            if utf8_len_of(f.as_slice()) <= 20 {
                f
            } else {
                Vec::new()
            }
        };
        proof {
            if !(sub@.height == 1 && sub@.baseline == 0) && utf8_len(flattened_text(sub@)) > 20 {
                assert(st@ =~= Seq::<char>::empty());
            }
        }
        if st.len() > 0 {
            let base_text = row_text_exec(base);
            match to_unicode_subscript(st.as_slice(), use_unicode) {
                Some(u) => {
                    let mut t = base_text;
                    push_all(&mut t, u.as_slice());
                    return checked_text_exec(t);
                },
                None => {
                    if utf8_len_of(st.as_slice()) <= 20 && all_latex_subscript(&st) {
                        let t = concat3(&base_text, &one_char('_'), &st);
                        return checked_text_exec(t);
                    }
                },
            }
        }
    }
    subscript_grid_exec(base, sub)
}

/// Superscript above and to the right of the base, multi-row form.
pub open spec fn superscript_grid(base: BoxView, sup: BoxView) -> Result<BoxView, MathErr> {
    let w = base.width + sup.width;
    let h = sup.height + base.height;
    if w > MAX_EXTENT || h > MAX_EXTENT {
        Err(too_large())
    } else {
        let b = blank_box(w, h, sup.height + base.baseline);
        Ok(
            overlay(
                overlay(b, sup, base.width as int, 0, CopyMode::All),
                base,
                0,
                sup.height as int,
                CopyMode::All,
            ),
        )
    }
}

/// `msup`: Unicode superscript when both parts are simple rows, then `base^sup`
/// for one or two alphanumeric characters, then the multi-row form.
pub open spec fn superscript_layout(base: BoxView, sup: BoxView, use_unicode: bool) -> Result<
    BoxView,
    MathErr,
> {
    if is_simple(base) && is_simple(sup) {
        let st = row_text(sup);
        match unicode_superscript(st, use_unicode) {
            Some(u) => checked_text(row_text(base) + u),
            None => if utf8_len(st) <= 2 && (forall|k: int|
                0 <= k < st.len() ==> alphanumeric(#[trigger] st[k])) {
                checked_text(row_text(base) + seq!['^'] + st)
            } else {
                superscript_grid(base, sup)
            },
        }
    } else {
        superscript_grid(base, sup)
    }
}

fn superscript_grid_exec(base: &MathBox, sup: &MathBox) -> (r: Result<MathBox, MathMLError>)
    requires
        fits(base@),
        fits(sup@),
    ensures
        res_view(r) == superscript_grid(base@, sup@),
        r matches Ok(b) ==> fits(b@),
{
    let w = base.width() + sup.width();
    let h = sup.height() + base.height();
    if w > MAX_EXTENT || h > MAX_EXTENT {
        return Err(err_too_large());
    }
    let mut result = MathBox::create_empty(w, h, sup.height() + base.baseline());
    result.copy_from(sup, base.width(), 0, CopyMode::All);
    result.copy_from(base, 0, sup.height(), CopyMode::All);
    Ok(result)
}

pub fn process_superscript(base: &MathBox, sup: &MathBox, use_unicode: bool) -> (r: Result<
    MathBox,
    MathMLError,
>)
    requires
        fits(base@),
        fits(sup@),
    ensures
        res_view(r) == superscript_layout(base@, sup@, use_unicode),
        r matches Ok(b) ==> fits(b@),
{
    if base.height() == 1 && base.baseline() == 0 && sup.height() == 1 && sup.baseline() == 0 {
        let st = row_text_exec(sup);
        let base_text = row_text_exec(base);
        match to_unicode_superscript(st.as_slice(), use_unicode) {
            Some(u) => {
                let mut t = base_text;
                push_all(&mut t, u.as_slice());
                return checked_text_exec(t);
            },
            None => {
                if utf8_len_of(st.as_slice()) <= 2 && all_alphanumeric(&st) {
                    let t = concat3(&base_text, &one_char('^'), &st);
                    return checked_text_exec(t);
                }
            },
        }
    }
    superscript_grid_exec(base, sup)
}

/// Large operators stacked with their limits in `msubsup`.
pub open spec fn is_stacking_operator(t: Seq<char>) -> bool {
    t == seq!['∏'] || t == seq!['∑'] || t == seq!['∫'] || t == seq!['⋃'] || t == seq!['⋂']
        || t == seq!['⋁'] || t == seq!['⋀']
}

/// The text of a subscript in `msubsup` when it can sit on the base's line.
pub open spec fn subsup_sub_text(sub: BoxView) -> Seq<char> {
    if is_simple(sub) {
        row_text(sub)
    } else {
        let f = flattened_text(sub);
        if utf8_len(f) <= 10 {
            f
        } else {
            Seq::empty()
        }
    }
}

/// `msubsup`: both scripts in Unicode when possible; otherwise a large operator
/// gets its limits centred above and below, any other base gets them to the right.
pub open spec fn subsup_layout(
    base: BoxView,
    sub: BoxView,
    sup: BoxView,
    use_unicode: bool,
) -> Result<BoxView, MathErr> {
    let is_op = is_simple(base) && is_stacking_operator(row_text(base));
    let st = subsup_sub_text(sub);
    let pt = if is_simple(sup) {
        row_text(sup)
    } else {
        Seq::empty()
    };
    if is_simple(base) && !is_op && st.len() > 0 && pt.len() > 0 && unicode_subscript(
        st,
        use_unicode,
    ) is Some && unicode_superscript(pt, use_unicode) is Some {
        checked_text(
            row_text(base) + unicode_subscript(st, use_unicode)->0 + unicode_superscript(
                pt,
                use_unicode,
            )->0,
        )
    } else if is_op {
        let w = max_nat(max_nat(base.width, sub.width), sup.width);
        let h = sup.height + base.height + sub.height;
        if h > MAX_EXTENT {
            Err(too_large())
        } else {
            let b = blank_box(w, h, sup.height + base.baseline);
            let a = overlay(b, sup, (w - sup.width) / 2, 0, CopyMode::All);
            let c = overlay(a, base, (w - base.width) / 2, sup.height as int, CopyMode::All);
            Ok(overlay(c, sub, (w - sub.width) / 2, (sup.height + base.height) as int, CopyMode::All))
        }
    } else {
        let w = base.width + max_nat(sub.width, sup.width);
        let h = sup.height + base.height + sub.height;
        if w > MAX_EXTENT || h > MAX_EXTENT {
            Err(too_large())
        } else {
            let b = blank_box(w, h, sup.height + base.baseline);
            let a = overlay(b, base, 0, sup.height as int, CopyMode::All);
            let c = overlay(a, sup, base.width as int, 0, CopyMode::All);
            Ok(overlay(c, sub, base.width as int, (sup.height + base.height) as int, CopyMode::All))
        }
    }
}

/// `msubsup` on one line: when the base, the subscript and the superscript
/// are each one plain row, the base is no large operator, Unicode is on, and
/// every character of the subscript has a subscript form and every character
/// of the (normalised) superscript a superscript image, the text is the base,
/// then each subscript character in its subscript form, then each superscript
/// character in its superscript form.
pub proof fn law_subsup_unicode_line(base: BoxView, sub: BoxView, sup: BoxView)
    requires
        is_simple(base),
        !is_stacking_operator(row_text(base)),
        is_simple(sub),
        is_simple(sup),
        row_text(sub).len() > 0,
        row_text(sup).len() > 0,
        forall|i: int| 0 <= i < row_text(sub).len() ==> #[trigger] subscript_form(row_text(sub)[i]) is Some,
        forall|i: int|
            0 <= i < superscript_normalized(row_text(sup)).len() ==> #[trigger] superscript_image(
                superscript_normalized(row_text(sup))[i],
            ) is Some,
    ensures
        subsup_layout(base, sub, sup, true) == checked_text(
            row_text(base) + Seq::new(row_text(sub).len(), |i: int| subscript_form(row_text(sub)[i])->0)
                + Seq::new(
                superscript_normalized(row_text(sup)).len(),
                |i: int| superscript_image(superscript_normalized(row_text(sup))[i])->0,
            ),
        ),
{
    let st = row_text(sub);
    let pn = superscript_normalized(row_text(sup));
    assert(unicode_subscript(st, true) == Some(Seq::new(st.len(), |i: int| subscript_form(st[i])->0)));
    assert(unicode_superscript(row_text(sup), true) == Some(
        Seq::new(pn.len(), |i: int| superscript_image(pn[i])->0),
    ));
}

fn is_stacking_operator_exec(t: &Vec<char>) -> (b: bool)
    ensures
        b == is_stacking_operator(t@),
{
    if t.len() != 1 {
        proof {
            assert(seq!['∏'].len() == 1);
        }
        return false;
    }
    let c = t[0];
    proof {
        assert(t@ =~= seq![c]);
    }
    c == '∏' || c == '∑' || c == '∫' || c == '⋃' || c == '⋂' || c == '⋁' || c == '⋀'
}

pub fn process_subscript_superscript(base: &MathBox, sub: &MathBox, sup: &MathBox, use_unicode: bool) -> (r: Result<
    MathBox,
    MathMLError,
>)
    requires
        fits(base@),
        fits(sub@),
        fits(sup@),
    ensures
        res_view(r) == subsup_layout(base@, sub@, sup@, use_unicode),
        r matches Ok(b) ==> fits(b@),
{
    let base_simple = base.height() == 1 && base.baseline() == 0;
    let is_op = if base_simple {
        let bt = row_text_exec(base);
        is_stacking_operator_exec(&bt)
    } else {
        false
    };
    if base_simple && !is_op {
        let st: Vec<char> = if sub.height() == 1 && sub.baseline() == 0 {
            row_text_exec(sub)
        } else {
            let f = flattened_text_exec(sub);
            if utf8_len_of(f.as_slice()) <= 10 {
                f
            } else {
                Vec::new()
            }
        };
        let pt: Vec<char> = if sup.height() == 1 && sup.baseline() == 0 {
            row_text_exec(sup)
        } else {
            Vec::new()
        };
        proof {
            if !(sub@.height == 1 && sub@.baseline == 0) && utf8_len(flattened_text(sub@)) > 10 {
                assert(st@ =~= Seq::<char>::empty());
            }
            if !is_simple(sup@) {
                assert(pt@ =~= Seq::<char>::empty());
            }
        }
        if st.len() > 0 && pt.len() > 0 {
            let us = to_unicode_subscript(st.as_slice(), use_unicode);
            let up = to_unicode_superscript(pt.as_slice(), use_unicode);
            match (us, up) {
                (Some(a), Some(b)) => {
                    let base_text = row_text_exec(base);
                    let t = concat3(&base_text, &a, &b);
                    return checked_text_exec(t);
                },
                _ => {},
            }
        }
    }
    let h = sup.height() + base.height() + sub.height();
    if is_op {
        let w1 = if base.width() >= sub.width() {
            base.width()
        } else {
            sub.width()
        };
        let w = if w1 >= sup.width() {
            w1
        } else {
            sup.width()
        };
        if h > MAX_EXTENT {
            return Err(err_too_large());
        }
        let mut result = MathBox::create_empty(w, h, sup.height() + base.baseline());
        result.copy_from(sup, (w - sup.width()) / 2, 0, CopyMode::All);
        result.copy_from(base, (w - base.width()) / 2, sup.height(), CopyMode::All);
        result.copy_from(sub, (w - sub.width()) / 2, sup.height() + base.height(), CopyMode::All);
        Ok(result)
    } else {
        let sw = if sub.width() >= sup.width() {
            sub.width()
        } else {
            sup.width()
        };
        let w = base.width() + sw;
        if w > MAX_EXTENT || h > MAX_EXTENT {
            return Err(err_too_large());
        }
        let mut result = MathBox::create_empty(w, h, sup.height() + base.baseline());
        result.copy_from(base, 0, sup.height(), CopyMode::All);
        result.copy_from(sup, base.width(), 0, CopyMode::All);
        result.copy_from(sub, base.width(), sup.height() + base.height(), CopyMode::All);
        Ok(result)
    }
}

// ------------------------------------------------------------ under / over

/// `munder`: base centred above the part below it (at least two columns wide for
/// a summation).
pub open spec fn under_layout(base: BoxView, under: BoxView, is_sum: bool) -> Result<
    BoxView,
    MathErr,
> {
    let w0 = max_nat(base.width, under.width);
    let w = if is_sum {
        max_nat(w0, 2)
    } else {
        w0
    };
    let h = base.height + under.height;
    if h > MAX_EXTENT {
        Err(too_large())
    } else {
        let b = blank_box(w, h, base.baseline);
        let a = overlay(b, base, (w - base.width) / 2, 0, CopyMode::All);
        Ok(overlay(a, under, (w - under.width) / 2, base.height as int, CopyMode::All))
    }
}

pub fn process_under(base: &MathBox, under: &MathBox, is_sum: bool) -> (r: Result<
    MathBox,
    MathMLError,
>)
    requires
        fits(base@),
        fits(under@),
    ensures
        res_view(r) == under_layout(base@, under@, is_sum),
        r matches Ok(b) ==> fits(b@),
{
    let w0 = if base.width() >= under.width() {
        base.width()
    } else {
        under.width()
    };
    let w = if is_sum && w0 < 2 {
        2
    } else {
        w0
    };
    let h = base.height() + under.height();
    if h > MAX_EXTENT {
        return Err(err_too_large());
    }
    let mut result = MathBox::create_empty(w, h, base.baseline());
    result.copy_from(base, (w - base.width()) / 2, 0, CopyMode::All);
    result.copy_from(under, (w - under.width()) / 2, base.height(), CopyMode::All);
    Ok(result)
}

/// `munderover`: the part above, the base and the part below, centred.
pub open spec fn underover_layout(
    base: BoxView,
    under: BoxView,
    over: BoxView,
    is_sum: bool,
) -> Result<BoxView, MathErr> {
    let w0 = max_nat(max_nat(base.width, under.width), over.width);
    let w = if is_sum {
        max_nat(w0, 2)
    } else {
        w0
    };
    let h = over.height + base.height + under.height;
    if h > MAX_EXTENT {
        Err(too_large())
    } else {
        let b = blank_box(w, h, over.height + base.baseline);
        let a = overlay(b, over, (w - over.width) / 2, 0, CopyMode::All);
        let c = overlay(a, base, (w - base.width) / 2, over.height as int, CopyMode::All);
        Ok(overlay(c, under, (w - under.width) / 2, (over.height + base.height) as int, CopyMode::All))
    }
}

pub fn process_underover(base: &MathBox, under: &MathBox, over: &MathBox, is_sum: bool) -> (r:
    Result<MathBox, MathMLError>)
    requires
        fits(base@),
        fits(under@),
        fits(over@),
    ensures
        res_view(r) == underover_layout(base@, under@, over@, is_sum),
        r matches Ok(b) ==> fits(b@),
{
    let w1 = if base.width() >= under.width() {
        base.width()
    } else {
        under.width()
    };
    let w0 = if w1 >= over.width() {
        w1
    } else {
        over.width()
    };
    let w = if is_sum && w0 < 2 {
        2
    } else {
        w0
    };
    let h = over.height() + base.height() + under.height();
    if h > MAX_EXTENT {
        return Err(err_too_large());
    }
    let mut result = MathBox::create_empty(w, h, over.height() + base.baseline());
    result.copy_from(over, (w - over.width()) / 2, 0, CopyMode::All);
    result.copy_from(base, (w - base.width()) / 2, over.height(), CopyMode::All);
    result.copy_from(under, (w - under.width()) / 2, over.height() + base.height(), CopyMode::All);
    Ok(result)
}

} // verus!
