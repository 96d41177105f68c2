//! Rendering of a parsed MathML document, node by node.
use vstd::prelude::*;
use crate::mathml::math_box::{BoxView, MathBox, text_box};
use crate::mathml::concat::{views, all_fit, res_view, horizontal_concat, hconcat_boxes, lemma_views_push};
use crate::mathml::error::{
    MathErr, MathMLError, MAX_EXTENT, fits, too_large, err_too_large, structure_err,
    structure_error,
};
use crate::mathml::layout::{
    checked_text, checked_text_exec, fraction_layout, process_fraction, subscript_layout,
    process_subscript, superscript_layout, process_superscript, subsup_layout, process_subscript_superscript,
    under_layout, process_under, underover_layout, process_underover,
};
use crate::mathml::roots::{sqrt_layout, process_square_root, nth_root_layout, process_nth_root};
use crate::mathml::fences::{
    fenced_layout, fenced_exec, table_layout, process_table, table_row_layout, process_table_row,
    table_cell_layout, process_table_cell,
};
use crate::mathml::xml::{
    XmlItem,
    XmlItemView,
    items_view,
    element_children,
    child_nodes,
    with_tag,
    attr,
    opt_view,
    children_exec,
    with_tag_exec,
    attr_exec,
};
use crate::text::{
    trim, contains_seq, trim_chars, chars_of, contains_chars, contains_char, str_is, chars_eq,
    lowercase, to_lowercase,
};

verus! {

/// How a node is laid out: as an element by its tag, or as a table row or cell.
#[derive(Clone, Copy, PartialEq, Eq, Debug)]
pub enum Role {
    Element,
    Row,
    Cell,
}

pub open spec fn text_or_empty(o: Option<Seq<char>>) -> Seq<char> {
    match o {
        Some(t) => t,
        None => Seq::empty(),
    }
}

pub open spec fn malformed() -> MathErr {
    structure_err("malformed document"@)
}

pub open spec fn role_rank(role: Role) -> int {
    if role == Role::Element {
        3
    } else {
        0
    }
}

/// Box for an `mo` element: binary operators get a space on each side.
pub open spec fn operator_layout(item: XmlItemView) -> Result<BoxView, MathErr> {
    let t = text_or_empty(item.text);
    let form = text_or_empty(attr(item, "form"@));
    if form == "prefix"@ || t == "log"@ || t == "ln"@ || t == "sin"@ || t == "cos"@ || t == "tan"@
        || t == "exp"@ {
        checked_text(t)
    } else if t == "="@ || t == "+"@ || t == "-"@ || t == "*"@ || t == "/"@ || t == "≠"@ {
        checked_text(seq![' '] + t + seq![' '])
    } else {
        checked_text(t)
    }
}

/// A text box for the trimmed text, when it is not blank.
pub open spec fn trimmed_piece(o: Option<Seq<char>>) -> Seq<BoxView> {
    match o {
        Some(t) => if trim(t).len() > 0 {
            seq![text_box(trim(t))]
        } else {
            Seq::empty()
        },
        None => Seq::empty(),
    }
}

pub open spec fn is_script_tag(name: Seq<char>) -> bool {
    name == "msubsup"@ || name == "munderover"@ || name == "munder"@ || name == "mover"@
}

/// The boxes an `mrow` child contributes: two spaces between a fraction and a
/// following script construct, the child's box when it has a width, and its
/// trailing text.
pub open spec fn mrow_piece(items: Seq<XmlItemView>, ec: Seq<int>, bs: Seq<BoxView>, k: int) -> Seq<
    BoxView,
> {
    let gap = if k > 0 && items[ec[k - 1]].name == "mfrac"@ && is_script_tag(items[ec[k]].name) {
        seq![text_box(seq![' ', ' '])]
    } else {
        Seq::empty()
    };
    let main = if bs[k].width > 0 {
        seq![bs[k]]
    } else {
        Seq::empty()
    };
    gap + main + trimmed_piece(items[ec[k]].tail)
}

pub open spec fn mrow_pieces(items: Seq<XmlItemView>, ec: Seq<int>, bs: Seq<BoxView>, k: int) -> Seq<
    BoxView,
>
    decreases k,
{
    if k <= 0 {
        Seq::empty()
    } else {
        mrow_pieces(items, ec, bs, k - 1) + mrow_piece(items, ec, bs, k - 1)
    }
}

/// `mrow`: its leading text, then each child's pieces, side by side.
pub open spec fn mrow_layout(items: Seq<XmlItemView>, i: int, ec: Seq<int>, bs: Seq<BoxView>) -> Result<
    BoxView,
    MathErr,
> {
    let pieces = trimmed_piece(items[i].text) + mrow_pieces(items, ec, bs, ec.len() as int);
    if !all_fit(pieces) {
        Err(too_large())
    } else if pieces.len() == 0 {
        Ok(text_box(Seq::empty()))
    } else {
        hconcat_boxes(pieces)
    }
}

/// The boxes of an `mfenced` child: the box when it has a width, followed by the
/// separator unless it is the last child or the separator is empty.
pub open spec fn fenced_pieces(bs: Seq<BoxView>, sep: Seq<char>, k: int) -> Seq<BoxView>
    decreases k,
{
    if k <= 0 {
        Seq::empty()
    } else {
        let p = if bs[k - 1].width > 0 {
            seq![bs[k - 1]] + if k - 1 < bs.len() - 1 && sep.len() > 0 {
                seq![text_box(sep)]
            } else {
                Seq::empty()
            }
        } else {
            Seq::empty()
        };
        fenced_pieces(bs, sep, k - 1) + p
    }
}

/// `mfenced`: the children with separators between delimiters.
pub open spec fn fenced_node_layout(item: XmlItemView, bs: Seq<BoxView>) -> Result<BoxView, MathErr> {
    let open = match attr(item, "open"@) {
        Some(o) => o,
        None => seq!['('],
    };
    let close = match attr(item, "close"@) {
        Some(c) => c,
        None => seq![')'],
    };
    let sep = match attr(item, "separators"@) {
        Some(s) => s,
        None => seq![','],
    };
    let pieces = fenced_pieces(bs, sep, bs.len() as int);
    if !all_fit(pieces) {
        Err(too_large())
    } else {
        let content = if pieces.len() > 0 {
            hconcat_boxes(pieces)
        } else {
            Ok(text_box(Seq::empty()))
        };
        match content {
            Ok(c) => fenced_layout(c, open, close),
            Err(e) => Err(e),
        }
    }
}

/// Whether the table row `r` holds a cell with a child whose text contains
/// `where` in any case.
pub open spec fn row_has_where(items: Seq<XmlItemView>, r: int) -> bool {
    let tds = with_tag(items, element_children(items, r), "mtd"@);
    exists|a: int, b: int|
        0 <= a < tds.len() && 0 <= b < child_nodes(items, tds[a]).len() && #[trigger] items[child_nodes(
            items,
            tds[a],
        )[b]].text is Some && contains_seq(
            lowercase(items[child_nodes(items, tds[a])[b]].text->0),
            "where"@,
        )
}

/// Whether the first element child of a node shows a summation sign.
pub open spec fn is_summation(items: Seq<XmlItemView>, c: int) -> bool {
    match items[c].text {
        Some(t) => t.contains('∑'),
        None => false,
    }
}

/// The errors for a script, fraction or root element with the wrong number of
/// element children.
pub open spec fn arity_error(name: Seq<char>, n: int) -> Option<MathErr> {
    if name == "mfrac"@ && n != 2 {
        Some(structure_err("Fraction needs exactly 2 children"@))
    } else if name == "msub"@ && n != 2 {
        Some(structure_err("Subscript needs exactly 2 children"@))
    } else if name == "msup"@ && n != 2 {
        Some(structure_err("Superscript needs exactly 2 children"@))
    } else if name == "msubsup"@ && n != 3 {
        Some(structure_err("Subscript-superscript needs exactly 3 children"@))
    } else if name == "munder"@ && n != 2 {
        Some(structure_err("Under element needs exactly 2 children"@))
    } else if name == "munderover"@ && n != 3 {
        Some(structure_err("Underover element needs exactly 3 children"@))
    } else if name == "mroot"@ && n != 2 {
        Some(structure_err("Nth root needs exactly 2 children (radicand and index)"@))
    } else {
        None
    }
}

/// The box of element `i` from the boxes `bs` of its element children `ec`.
pub open spec fn combine_children(
    items: Seq<XmlItemView>,
    i: int,
    ec: Seq<int>,
    bs: Seq<BoxView>,
    u: bool,
) -> Result<BoxView, MathErr> {
    let it = items[i];
    let name = it.name;
    if name == "mrow"@ {
        mrow_layout(items, i, ec, bs)
    } else if name == "mfrac"@ {
        fraction_layout(bs[0], bs[1], attr(it, "linethickness"@) == Some("0pt"@))
    } else if name == "msub"@ {
        subscript_layout(bs[0], bs[1], u)
    } else if name == "msup"@ {
        superscript_layout(bs[0], bs[1], u)
    } else if name == "msubsup"@ {
        subsup_layout(bs[0], bs[1], bs[2], u)
    } else if name == "munder"@ {
        under_layout(bs[0], bs[1], is_summation(items, ec[0]))
    } else if name == "munderover"@ {
        underover_layout(bs[0], bs[1], bs[2], is_summation(items, ec[0]))
    } else if name == "msqrt"@ {
        if bs.len() == 1 {
            sqrt_layout(bs[0])
        } else {
            match hconcat_boxes(bs) {
                Ok(inner) => sqrt_layout(inner),
                Err(e) => Err(e),
            }
        }
    } else if name == "mroot"@ {
        nth_root_layout(bs[0], bs[1], u)
    } else if name == "mfenced"@ {
        fenced_node_layout(it, bs)
    } else if bs.len() == 1 && name == "math"@ {
        Ok(bs[0])
    } else {
        hconcat_boxes(bs)
    }
}

/// The box of node `i` laid out in the given role.
pub open spec fn render_node(items: Seq<XmlItemView>, i: int, u: bool, role: Role) -> Result<
    BoxView,
    MathErr,
>
    decreases 2 * (items.len() - i) + 1, role_rank(role),
{
    if i < 0 || i >= items.len() {
        Err(malformed())
    } else {
        let it = items[i];
        let ec = element_children(items, i);
        match role {
            Role::Row => {
                let cells = with_tag(items, ec, "mtd"@);
                match render_seq(items, cells, i, u, Role::Cell) {
                    Ok(bs) => table_row_layout(bs),
                    Err(e) => Err(e),
                }
            },
            Role::Cell => match render_seq(items, ec, i, u, Role::Element) {
                Ok(bs) => table_cell_layout(bs, it.text),
                Err(e) => Err(e),
            },
            Role::Element => render_element(items, i, u),
        }
    }
}

/// The box of element `i`: leaves by their text, table parts by their role,
/// the rest from their children.
pub open spec fn render_element(items: Seq<XmlItemView>, i: int, u: bool) -> Result<
    BoxView,
    MathErr,
>
    decreases 2 * (items.len() - i) + 1, 2int,
{
    if i < 0 || i >= items.len() {
        Err(malformed())
    } else {
        let it = items[i];
        let name = it.name;
        if !it.is_element || name == "mi"@ || name == "mn"@ || name == "mtext"@ {
            checked_text(text_or_empty(it.text))
        } else if name == "mo"@ {
            operator_layout(it)
        } else if name == "mspace"@ {
            Ok(text_box(seq![' ']))
        } else if name == "mtr"@ {
            render_node(items, i, u, Role::Row)
        } else if name == "mtd"@ {
            render_node(items, i, u, Role::Cell)
        } else {
            render_composite(items, i, u)
        }
    }
}

/// The box of an element laid out from its element children.
pub open spec fn render_composite(items: Seq<XmlItemView>, i: int, u: bool) -> Result<
    BoxView,
    MathErr,
>
    decreases 2 * (items.len() - i) + 1, 1int,
{
    if i < 0 || i >= items.len() {
        Err(malformed())
    } else {
        let it = items[i];
        let name = it.name;
        let ec = element_children(items, i);
        if arity_error(name, ec.len() as int) is Some {
            Err(arity_error(name, ec.len() as int)->0)
        } else if name == "msqrt"@ && ec.len() == 0 {
            Ok(text_box(seq!['√']))
        } else if name == "mtable"@ {
            let rows = with_tag(items, ec, "mtr"@);
            match render_seq(items, rows, i, u, Role::Row) {
                Ok(bs) => table_layout(bs, bs.len() >= 2 && row_has_where(items, rows[1])),
                Err(e) => Err(e),
            }
        } else if name == "mfenced"@ && ec.len() == 0 {
            fenced_node_layout(it, Seq::empty())
        } else if ec.len() == 0 && name != "mrow"@ {
            checked_text(text_or_empty(it.text))
        } else {
            match render_seq(items, ec, i, u, Role::Element) {
                Err(e) => Err(e),
                Ok(bs) => combine_children(items, i, ec, bs, u),
            }
        }
    }
}

/// The boxes of the nodes `cs` (children of `parent`), in order; the first
/// failure stops the rendering.
pub open spec fn render_seq(
    items: Seq<XmlItemView>,
    cs: Seq<int>,
    parent: int,
    u: bool,
    role: Role,
) -> Result<Seq<BoxView>, MathErr>
    decreases 2 * (items.len() - parent), cs.len(),
{
    if cs.len() == 0 {
        Ok(Seq::empty())
    } else if !(0 <= parent < cs[0] < items.len()) {
        Err(malformed())
    } else {
        match render_node(items, cs[0], u, role) {
            Err(e) => Err(e),
            Ok(b) => match render_seq(items, cs.drop_first(), parent, u, role) {
                Ok(rest) => Ok(seq![b] + rest),
                Err(e) => Err(e),
            },
        }
    }
}

pub open spec fn prepend(pre: Seq<BoxView>, r: Result<Seq<BoxView>, MathErr>) -> Result<
    Seq<BoxView>,
    MathErr,
> {
    match r {
        Ok(v) => Ok(pre + v),
        Err(e) => Err(e),
    }
}

pub open spec fn opt_err_view(o: Option<MathMLError>) -> Option<MathErr> {
    match o {
        Some(e) => Some(e@),
        None => None,
    }
}

pub open spec fn idx_view(cs: Seq<usize>) -> Seq<int> {
    cs.map_values(|k: usize| k as int)
}

fn text_or_empty_exec(o: &Option<String>) -> (r: Vec<char>)
    ensures
        r@ == text_or_empty(opt_view(*o)),
{
    match o {
        Some(t) => chars_of(t.as_str()),
        None => Vec::new(),
    }
}

fn lit_is(v: &Vec<char>, lit: &str) -> (b: bool)
    ensures
        b == (v@ == lit@),
{
    let l = chars_of(lit);
    chars_eq(v.as_slice(), l.as_slice())
}

fn operator_exec(item: &XmlItem) -> (r: Result<MathBox, MathMLError>)
    ensures
        res_view(r) == operator_layout(item@),
        r matches Ok(b) ==> fits(b@),
{
    let t = text_or_empty_exec(&item.text);
    let form: Vec<char> = match attr_exec(item, "form") {
        Some(f) => f,
        None => Vec::new(),
    };
    if lit_is(&form, "prefix") || lit_is(&t, "log") || lit_is(&t, "ln") || lit_is(&t, "sin")
        || lit_is(&t, "cos") || lit_is(&t, "tan") || lit_is(&t, "exp") {
        checked_text_exec(t)
    } else if lit_is(&t, "=") || lit_is(&t, "+") || lit_is(&t, "-") || lit_is(&t, "*") || lit_is(
        &t,
        "/",
    ) || lit_is(&t, "≠") {
        let mut s: Vec<char> = Vec::new();
        s.push(' ');
        crate::text::push_all(&mut s, t.as_slice());
        s.push(' ');
        proof {
            assert(s@ =~= seq![' '] + t@ + seq![' ']);
        }
        checked_text_exec(s)
    } else {
        checked_text_exec(t)
    }
}

/// A text box for the trimmed text when it is not blank; refused when too wide.
fn trimmed_piece_exec(o: &Option<String>, out: &mut Vec<MathBox>) -> (ok: bool)
    ensures
        views(final(out)@) == views(old(out)@) + trimmed_piece(opt_view(*o)),
        ok == all_fit(trimmed_piece(opt_view(*o))),
{
    match o {
        Some(t) => {
            let c = chars_of(t.as_str());
            let tt = trim_chars(c.as_slice());
            if tt.len() > 0 {
                let fits_now = tt.len() <= MAX_EXTENT;
                let ghost prev = out@;
                let b = MathBox::from_chars(tt);
                out.push(b);
                proof {
                    lemma_views_push(prev, out@[prev.len() as int]);
                    let p = trimmed_piece(opt_view(*o));
                    assert(p == seq![text_box(trim(t@))]);
                    assert(p[0] == text_box(trim(t@)));
                }
                fits_now
            } else {
                proof {
                    assert(views(out@) =~= views(out@) + Seq::<BoxView>::empty());
                }
                true
            }
        },
        None => {
            proof {
                assert(views(out@) =~= views(out@) + Seq::<BoxView>::empty());
            }
            true
        },
    }
}

proof fn lemma_all_fit_concat(a: Seq<BoxView>, b: Seq<BoxView>)
    ensures
        all_fit(a + b) == (all_fit(a) && all_fit(b)),
{
    if all_fit(a + b) {
        assert forall|k: int| 0 <= k < a.len() implies fits(#[trigger] a[k]) by {
            assert((a + b)[k] == a[k]);
        }
        assert forall|k: int| 0 <= k < b.len() implies fits(#[trigger] b[k]) by {
            assert((a + b)[a.len() + k] == b[k]);
        }
    }
    if all_fit(a) && all_fit(b) {
        assert forall|k: int| 0 <= k < (a + b).len() implies fits(#[trigger] (a + b)[k]) by {
            if k < a.len() {
                assert((a + b)[k] == a[k]);
            } else {
                assert((a + b)[k] == b[k - a.len()]);
            }
        }
    }
}

fn process_mrow_python_style(items: &Vec<XmlItem>, i: usize, ec: &Vec<usize>, bs: &Vec<MathBox>) -> (r: Result<
    MathBox,
    MathMLError,
>)
    requires
        i < items@.len(),
        ec@.len() == bs@.len(),
        forall|k: int| 0 <= k < ec@.len() ==> #[trigger] ec@[k] < items@.len(),
        all_fit(views(bs@)),
    ensures
        res_view(r) == mrow_layout(items_view(items@), i as int, idx_view(ec@), views(bs@)),
        r matches Ok(b) ==> fits(b@),
{
    let ghost iv = items_view(items@);
    let ghost ev = idx_view(ec@);
    let ghost bv = views(bs@);
    let mut pieces: Vec<MathBox> = Vec::new();
    proof {
        assert(iv[i as int] == items@[i as int]@);
    }
    let mut ok = trimmed_piece_exec(&items[i].text, &mut pieces);
    proof {
        assert(views(pieces@) =~= trimmed_piece(iv[i as int].text));
    }
    let n = ec.len();
    let mut k: usize = 0;
    while k < n
        invariant
            n == ec@.len(),
            n == bs@.len(),
            iv == items_view(items@),
            ev == idx_view(ec@),
            bv == views(bs@),
            all_fit(bv),
            i < items@.len(),
            forall|m: int| 0 <= m < ec@.len() ==> #[trigger] ec@[m] < items@.len(),
            k <= n,
            views(pieces@) == trimmed_piece(iv[i as int].text) + mrow_pieces(iv, ev, bv, k as int),
            ok == all_fit(views(pieces@)),
        decreases n - k,
    {
        let ghost before = views(pieces@);
        let c = ec[k];
        proof {
            assert(ev[k as int] == c as int);
            assert(iv[c as int] == items@[c as int]@);
            assert(bv[k as int] == bs@[k as int]@);
            assert(fits(bv[k as int]));
        }
        if k > 0 {
            let p = ec[k - 1];
            proof {
                assert(ev[k - 1] == p as int);
                assert(iv[p as int] == items@[p as int]@);
            }
            let cn = &items[c].name;
            if str_is(&items[p].name, "mfrac") && (str_is(cn, "msubsup") || str_is(cn, "munderover")
                || str_is(cn, "munder") || str_is(cn, "mover")) {
                let ghost prev = pieces@;
                let mut g: Vec<char> = Vec::new();
                g.push(' ');
                g.push(' ');
                proof {
                    assert(g@ =~= seq![' ', ' ']);
                }
                pieces.push(MathBox::from_chars(g));
                proof {
                    lemma_views_push(prev, pieces@[prev.len() as int]);
                }
            }
        }
        let ghost after_gap = views(pieces@);
        if bs[k].width() > 0 {
            let ghost prev = pieces@;
            pieces.push(bs[k].duplicate());
            proof {
                lemma_views_push(prev, pieces@[prev.len() as int]);
            }
        }
        let ghost after_main = views(pieces@);
        let tail_ok = trimmed_piece_exec(&items[c].tail, &mut pieces);
        proof {
            let piece = mrow_piece(iv, ev, bv, k as int);
            assert(views(pieces@) =~= before + piece);
            assert(mrow_pieces(iv, ev, bv, k + 1) == mrow_pieces(iv, ev, bv, k as int) + piece);
            assert(views(pieces@) =~= trimmed_piece(iv[i as int].text) + mrow_pieces(
                iv,
                ev,
                bv,
                k + 1,
            ));
            lemma_all_fit_concat(after_main, trimmed_piece(iv[c as int].tail));
            lemma_all_fit_concat(before, after_gap.skip(before.len() as int));
            assert(after_gap =~= before + after_gap.skip(before.len() as int));
            lemma_all_fit_concat(after_gap, after_main.skip(after_gap.len() as int));
            assert(after_main =~= after_gap + after_main.skip(after_gap.len() as int));
            assert(all_fit(after_gap.skip(before.len() as int))) by {
                let g = after_gap.skip(before.len() as int);
                assert forall|m: int| 0 <= m < g.len() implies fits(#[trigger] g[m]) by {
                    assert(g[m] == text_box(seq![' ', ' ']));
                }
            }
            assert(all_fit(after_main.skip(after_gap.len() as int))) by {
                let g = after_main.skip(after_gap.len() as int);
                assert forall|m: int| 0 <= m < g.len() implies fits(#[trigger] g[m]) by {
                    assert(g[m] == bv[k as int]);
                }
            }
        }
        ok = ok && tail_ok;
        k += 1;
    }
    if !ok {
        return Err(err_too_large());
    }
    if pieces.len() == 0 {
        return Ok(MathBox::from_chars(Vec::new()));
    }
    horizontal_concat(&pieces)
}

fn process_fenced(item: &XmlItem, bs: &Vec<MathBox>) -> (r: Result<MathBox, MathMLError>)
    requires
        all_fit(views(bs@)),
    ensures
        res_view(r) == fenced_node_layout(item@, views(bs@)),
        r matches Ok(b) ==> fits(b@),
{
    let ghost bv = views(bs@);
    let open: Vec<char> = match attr_exec(item, "open") {
        Some(o) => o,
        None => {
            let mut v = Vec::new();
            v.push('(');
            proof {
                assert(v@ =~= seq!['(']);
            }
            v
        },
    };
    let close: Vec<char> = match attr_exec(item, "close") {
        Some(c) => c,
        None => {
            let mut v = Vec::new();
            v.push(')');
            proof {
                assert(v@ =~= seq![')']);
            }
            v
        },
    };
    let sep: Vec<char> = match attr_exec(item, "separators") {
        Some(s) => s,
        None => {
            let mut v = Vec::new();
            v.push(',');
            proof {
                assert(v@ =~= seq![',']);
            }
            v
        },
    };
    let n = bs.len();
    let mut pieces: Vec<MathBox> = Vec::new();
    let mut ok = true;
    let mut k: usize = 0;
    while k < n
        invariant
            n == bs@.len(),
            bv == views(bs@),
            all_fit(bv),
            k <= n,
            views(pieces@) == fenced_pieces(bv, sep@, k as int),
            ok == all_fit(views(pieces@)),
        decreases n - k,
    {
        let ghost before = views(pieces@);
        proof {
            assert(bv[k as int] == bs@[k as int]@);
            assert(fits(bv[k as int]));
        }
        if bs[k].width() > 0 {
            let ghost prev = pieces@;
            pieces.push(bs[k].duplicate());
            proof {
                lemma_views_push(prev, pieces@[prev.len() as int]);
                lemma_all_fit_concat(before, seq![bv[k as int]]);
                assert(views(pieces@) =~= before + seq![bv[k as int]]);
            }
            if k + 1 < n && sep.len() > 0 {
                let ghost prev2 = pieces@;
                let ghost mid = views(pieces@);
                let sep_ok = sep.len() <= MAX_EXTENT;
                pieces.push(MathBox::from_chars(sep.clone()));
                proof {
                    lemma_views_push(prev2, pieces@[prev2.len() as int]);
                    lemma_all_fit_concat(mid, seq![text_box(sep@)]);
                    assert(views(pieces@) =~= mid + seq![text_box(sep@)]);
                    assert(all_fit(seq![text_box(sep@)]) == (sep@.len() <= MAX_EXTENT)) by {
                        let q = seq![text_box(sep@)];
                        if sep@.len() <= MAX_EXTENT {
                            assert forall|m: int| 0 <= m < q.len() implies fits(#[trigger] q[m]) by {
                                assert(q[m] == text_box(sep@));
                            }
                        } else {
                            assert(!fits(q[0]));
                        }
                    }
                }
                ok = ok && sep_ok;
            }
        }
        proof {
            assert(views(pieces@) =~= fenced_pieces(bv, sep@, k + 1));
        }
        k += 1;
    }
    if !ok {
        return Err(err_too_large());
    }
    let content = if pieces.len() > 0 {
        match horizontal_concat(&pieces) {
            Ok(c) => c,
            Err(e) => {
                return Err(e);
            },
        }
    } else {
        MathBox::from_chars(Vec::new())
    };
    fenced_exec(&content, &open, &close)
}

fn row_has_where_exec(items: &Vec<XmlItem>, r: usize) -> (b: bool)
    requires
        r < items@.len(),
    ensures
        b == row_has_where(items_view(items@), r as int),
{
    let ghost iv = items_view(items@);
    let ec = children_exec(items, r, true);
    let tds = with_tag_exec(items, &ec, "mtd");
    let ghost tv = idx_view(tds@);
    proof {
        assert(tv == with_tag(iv, element_children(iv, r as int), "mtd"@));
    }
    let where_chars = chars_of("where");
    let mut a: usize = 0;
    while a < tds.len()
        invariant
            iv == items_view(items@),
            tv == idx_view(tds@),
            tv == with_tag(iv, element_children(iv, r as int), "mtd"@),
            forall|k: int| 0 <= k < tds@.len() ==> #[trigger] tds@[k] < items@.len(),
            where_chars@ == "where"@,
            a <= tds@.len(),
            forall|aa: int, bb: int|
                0 <= aa < a && 0 <= bb < child_nodes(iv, tv[aa]).len() ==> !(
                #[trigger] iv[child_nodes(iv, tv[aa])[bb]].text is Some && contains_seq(
                    lowercase(iv[child_nodes(iv, tv[aa])[bb]].text->0),
                    "where"@,
                )),
        decreases tds@.len() - a,
    {
        proof {
            assert(tds@[a as int] < items@.len());
        }
        let td = tds[a];
        let chs = children_exec(items, td, false);
        let ghost cv = idx_view(chs@);
        proof {
            assert(tv[a as int] == td as int);
            assert(cv == child_nodes(iv, td as int));
        }
        let mut b: usize = 0;
        while b < chs.len()
            invariant
                iv == items_view(items@),
                tv == idx_view(tds@),
                tv == with_tag(iv, element_children(iv, r as int), "mtd"@),
                a < tds@.len(),
                tv[a as int] == td as int,
                cv == idx_view(chs@),
                cv == child_nodes(iv, td as int),
                forall|k: int| 0 <= k < chs@.len() ==> td < #[trigger] chs@[k] < items@.len(),
                where_chars@ == "where"@,
                b <= chs@.len(),
                forall|bb: int|
                    0 <= bb < b ==> !(#[trigger] iv[cv[bb]].text is Some && contains_seq(
                        lowercase(iv[cv[bb]].text->0),
                        "where"@,
                    )),
            decreases chs@.len() - b,
        {
            let ch = chs[b];
            proof {
                assert(cv[b as int] == ch as int);
                assert(iv[ch as int] == items@[ch as int]@);
            }
            match &items[ch].text {
                Some(t) => {
                    let low = to_lowercase(t.as_str());
                    let lc = chars_of(low.as_str());
                    if contains_chars(lc.as_slice(), where_chars.as_slice()) {
                        proof {
                            let aa = a as int;
                            let bb = b as int;
                            assert(child_nodes(iv, tv[aa]) == cv);
                            assert(0 <= aa < tv.len());
                            assert(0 <= bb < child_nodes(iv, tv[aa]).len());
                            assert(iv[child_nodes(iv, tv[aa])[bb]].text is Some && contains_seq(
                                lowercase(iv[child_nodes(iv, tv[aa])[bb]].text->0),
                                "where"@,
                            ));
                        }
                        return true;
                    }
                },
                None => {},
            }
            b += 1;
        }
        a += 1;
    }
    false
}

/// Renders node `i` of the document in the given role.
pub fn render_node_exec(items: &Vec<XmlItem>, i: usize, u: bool, role: Role) -> (r: Result<
    MathBox,
    MathMLError,
>)
    requires
        i < items@.len(),
    ensures
        res_view(r) == render_node(items_view(items@), i as int, u, role),
        r matches Ok(b) ==> fits(b@),
    decreases 2 * (items@.len() - i) + 1, role_rank(role),
{
    let ghost iv = items_view(items@);
    let it = &items[i];
    proof {
        assert(iv[i as int] == it@);
    }
    let ec = children_exec(items, i, true);
    proof {
        assert(idx_view(ec@) == element_children(iv, i as int));
    }
    match role {
        Role::Row => {
            let cells = with_tag_exec(items, &ec, "mtd");
            proof {
                assert forall|k: int| 0 <= k < cells@.len() implies i < #[trigger] cells@[k]
                    < items@.len() by {
                    let m = choose|m: int| 0 <= m < ec@.len() && cells@[k] == ec@[m];
                    assert(i < ec@[m] < items@.len());
                }
            }
            match render_seq_exec(items, &cells, i, u, Role::Cell) {
                Ok(bs) => process_table_row(&bs),
                Err(e) => Err(e),
            }
        },
        Role::Cell => match render_seq_exec(items, &ec, i, u, Role::Element) {
            Ok(bs) => {
                let t: Option<Vec<char>> = match &it.text {
                    Some(s) => Some(chars_of(s.as_str())),
                    None => None,
                };
                process_table_cell(&bs, t)
            },
            Err(e) => Err(e),
        },
        Role::Element => process_element(items, i, u, &ec),
    }
}

fn process_element(items: &Vec<XmlItem>, i: usize, u: bool, ec: &Vec<usize>) -> (r: Result<
    MathBox,
    MathMLError,
>)
    requires
        i < items@.len(),
        idx_view(ec@) == element_children(items_view(items@), i as int),
        forall|k: int| 0 <= k < ec@.len() ==> i < #[trigger] ec@[k] < items@.len(),
    ensures
        res_view(r) == render_element(items_view(items@), i as int, u),
        r matches Ok(b) ==> fits(b@),
    decreases 2 * (items@.len() - i) + 1, 2int,
{
    let ghost iv = items_view(items@);
    let it = &items[i];
    proof {
        assert(iv[i as int] == it@);
    }
    let name = &it.name;
    if !it.is_element || str_is(name, "mi") || str_is(name, "mn") || str_is(name, "mtext") {
        return checked_text_exec(text_or_empty_exec(&it.text));
    }
    if str_is(name, "mo") {
        return operator_exec(it);
    }
    if str_is(name, "mspace") {
        let mut v: Vec<char> = Vec::new();
        v.push(' ');
        proof {
            assert(v@ =~= seq![' ']);
        }
        return Ok(MathBox::from_chars(v));
    }
    if str_is(name, "mtr") {
        return render_node_exec(items, i, u, Role::Row);
    }
    if str_is(name, "mtd") {
        return render_node_exec(items, i, u, Role::Cell);
    }
    render_composite_exec(items, i, u, ec)
}

fn render_composite_exec(items: &Vec<XmlItem>, i: usize, u: bool, ec: &Vec<usize>) -> (r: Result<
    MathBox,
    MathMLError,
>)
    requires
        i < items@.len(),
        idx_view(ec@) == element_children(items_view(items@), i as int),
        forall|k: int| 0 <= k < ec@.len() ==> i < #[trigger] ec@[k] < items@.len(),
    ensures
        res_view(r) == render_composite(items_view(items@), i as int, u),
        r matches Ok(b) ==> fits(b@),
    decreases 2 * (items@.len() - i) + 1, 1int,
{
    let ghost iv = items_view(items@);
    let it = &items[i];
    proof {
        assert(iv[i as int] == it@);
    }
    let name = &it.name;
    let n = ec.len();
    if let Some(e) = arity_error_exec(name, n) {
        return Err(e);
    }
    let is_sqrt = str_is(name, "msqrt");
    let is_table = str_is(name, "mtable");
    let is_fenced = str_is(name, "mfenced");
    let is_mrow = str_is(name, "mrow");
    if is_sqrt && n == 0 {
        let mut v: Vec<char> = Vec::new();
        v.push('√');
        proof {
            assert(v@ =~= seq!['√']);
        }
        return Ok(MathBox::from_chars(v));
    }
    if is_table {
        let rows = with_tag_exec(items, ec, "mtr");
        proof {
            assert forall|k: int| 0 <= k < rows@.len() implies i < #[trigger] rows@[k]
                < items@.len() by {
                let m = choose|m: int| 0 <= m < ec@.len() && rows@[k] == ec@[m];
                assert(i < ec@[m] < items@.len());
            }
        }
        let bs = match render_seq_exec(items, &rows, i, u, Role::Row) {
            Ok(bs) => bs,
            Err(e) => {
                return Err(e);
            },
        };
        let has_where = if bs.len() >= 2 {
            proof {
                assert(idx_view(rows@)[1] == rows@[1] as int);
            }
            row_has_where_exec(items, rows[1])
        } else {
            false
        };
        return process_table(&bs, has_where);
    }
    if is_fenced && n == 0 {
        let empty: Vec<MathBox> = Vec::new();
        proof {
            assert(views(empty@) =~= Seq::<BoxView>::empty());
        }
        return process_fenced(it, &empty);
    }
    if n == 0 && !is_mrow {
        return checked_text_exec(text_or_empty_exec(&it.text));
    }
    let bs = match render_seq_exec(items, ec, i, u, Role::Element) {
        Ok(bs) => bs,
        Err(e) => {
            return Err(e);
        },
    };
    combine_exec(items, i, u, ec, &bs)
}

fn arity_error_exec(name: &String, n: usize) -> (r: Option<MathMLError>)
    ensures
        opt_err_view(r) == arity_error(name@, n as int),
{
    if str_is(name, "mfrac") && n != 2 {
        Some(structure_error("Fraction needs exactly 2 children"))
    } else if str_is(name, "msub") && n != 2 {
        Some(structure_error("Subscript needs exactly 2 children"))
    } else if str_is(name, "msup") && n != 2 {
        Some(structure_error("Superscript needs exactly 2 children"))
    } else if str_is(name, "msubsup") && n != 3 {
        Some(structure_error("Subscript-superscript needs exactly 3 children"))
    } else if str_is(name, "munder") && n != 2 {
        Some(structure_error("Under element needs exactly 2 children"))
    } else if str_is(name, "munderover") && n != 3 {
        Some(structure_error("Underover element needs exactly 3 children"))
    } else if str_is(name, "mroot") && n != 2 {
        Some(structure_error("Nth root needs exactly 2 children (radicand and index)"))
    } else {
        None
    }
}

fn combine_exec(items: &Vec<XmlItem>, i: usize, u: bool, ec: &Vec<usize>, bs: &Vec<MathBox>) -> (r:
    Result<MathBox, MathMLError>)
    requires
        i < items@.len(),
        forall|k: int| 0 <= k < ec@.len() ==> i < #[trigger] ec@[k] < items@.len(),
        bs@.len() == ec@.len(),
        bs@.len() > 0 || items_view(items@)[i as int].name == "mrow"@,
        all_fit(views(bs@)),
        arity_error(items_view(items@)[i as int].name, ec@.len() as int) is None,
    ensures
        res_view(r) == combine_children(items_view(items@), i as int, idx_view(ec@), views(bs@), u),
        r matches Ok(b) ==> fits(b@),
{
    let ghost iv = items_view(items@);
    let ghost bv = views(bs@);
    let it = &items[i];
    proof {
        assert(iv[i as int] == it@);
        assert forall|k: int| 0 <= k < bs@.len() implies bs@[k]@ == #[trigger] bv[k] by {}
        assert forall|k: int| 0 <= k < bs@.len() implies fits(#[trigger] bs@[k]@) by {
            assert(bs@[k]@ == bv[k]);
        }
    }
    let name = &it.name;
    if str_is(name, "mrow") {
        process_mrow_python_style(items, i, ec, bs)
    } else if str_is(name, "mfrac") {
        let invisible = match attr_exec(it, "linethickness") {
            Some(v) => lit_is(&v, "0pt"),
            None => false,
        };
        process_fraction(&bs[0], &bs[1], invisible)
    } else if str_is(name, "msub") {
        process_subscript(&bs[0], &bs[1], u)
    } else if str_is(name, "msup") {
        process_superscript(&bs[0], &bs[1], u)
    } else if str_is(name, "msubsup") {
        process_subscript_superscript(&bs[0], &bs[1], &bs[2], u)
    } else if str_is(name, "munder") || str_is(name, "munderover") {
        let c0 = ec[0];
        proof {
            assert(idx_view(ec@)[0] == c0 as int);
            assert(iv[c0 as int] == items@[c0 as int]@);
        }
        let is_sum = match &items[c0].text {
            Some(t) => {
                let tc = chars_of(t.as_str());
                contains_char(tc.as_slice(), '∑')
            },
            None => false,
        };
        if str_is(name, "munder") {
            process_under(&bs[0], &bs[1], is_sum)
        } else {
            process_underover(&bs[0], &bs[1], &bs[2], is_sum)
        }
    } else if str_is(name, "msqrt") {
        if bs.len() == 1 {
            process_square_root(&bs[0])
        } else {
            match horizontal_concat(bs) {
                Ok(inner) => process_square_root(&inner),
                Err(e) => Err(e),
            }
        }
    } else if str_is(name, "mroot") {
        process_nth_root(&bs[0], &bs[1], u)
    } else if str_is(name, "mfenced") {
        process_fenced(it, bs)
    } else if bs.len() == 1 && str_is(name, "math") {
        Ok(bs[0].duplicate())
    } else {
        horizontal_concat(bs)
    }
}

/// Renders the nodes `cs` in order, stopping at the first failure.
pub fn render_seq_exec(
    items: &Vec<XmlItem>,
    cs: &Vec<usize>,
    parent: usize,
    u: bool,
    role: Role,
) -> (r: Result<Vec<MathBox>, MathMLError>)
    requires
        parent < items@.len(),
        forall|k: int| 0 <= k < cs@.len() ==> parent < #[trigger] cs@[k] < items@.len(),
    ensures
        match r {
            Ok(v) => render_seq(items_view(items@), idx_view(cs@), parent as int, u, role) == Ok::<
                Seq<BoxView>,
                MathErr,
            >(views(v@)) && all_fit(views(v@)) && v@.len() == cs@.len(),
            Err(e) => render_seq(items_view(items@), idx_view(cs@), parent as int, u, role) == Err::<
                Seq<BoxView>,
                MathErr,
            >(e@),
        },
    decreases 2 * (items@.len() - parent), cs@.len(),
{
    let ghost iv = items_view(items@);
    let ghost cv = idx_view(cs@);
    let n = cs.len();
    let mut out: Vec<MathBox> = Vec::new();
    let mut k: usize = 0;
    proof {
        assert(cv.skip(0) =~= cv);
        assert(views(out@) =~= Seq::<BoxView>::empty());
        assert(prepend(views(out@), render_seq(iv, cv.skip(0), parent as int, u, role)) =~= render_seq(
            iv,
            cv,
            parent as int,
            u,
            role,
        )) by {
            match render_seq(iv, cv, parent as int, u, role) {
                Ok(v) => {
                    assert(Seq::<BoxView>::empty() + v =~= v);
                },
                Err(e) => {},
            }
        }
    }
    while k < n
        invariant
            n == cs@.len(),
            iv == items_view(items@),
            cv == idx_view(cs@),
            parent < items@.len(),
            forall|m: int| 0 <= m < cs@.len() ==> parent < #[trigger] cs@[m] < items@.len(),
            k <= n,
            out@.len() == k,
            all_fit(views(out@)),
            render_seq(iv, cv, parent as int, u, role) == prepend(
                views(out@),
                render_seq(iv, cv.skip(k as int), parent as int, u, role),
            ),
        decreases n - k,
    {
        let c = cs[k];
        proof {
            assert(cv.skip(k as int)[0] == c as int);
            assert(cv.skip(k as int).drop_first() =~= cv.skip(k + 1));
            assert(parent < cs@[k as int] < items@.len());
        }
        match render_node_exec(items, c, u, role) {
            Err(e) => {
                return Err(e);
            },
            Ok(b) => {
                let ghost before = out@;
                out.push(b);
                proof {
                    lemma_views_push(before, out@[before.len() as int]);
                    assert forall|m: int| 0 <= m < views(out@).len() implies fits(
                        #[trigger] views(out@)[m],
                    ) by {
                        if m < before.len() {
                            assert(views(out@)[m] == views(before)[m]);
                        }
                    }
                    match render_seq(iv, cv.skip(k + 1), parent as int, u, role) {
                        Ok(v) => {
                            assert(views(before) + (seq![b@] + v) =~= views(out@) + v);
                        },
                        Err(e) => {},
                    }
                }
            },
        }
        k += 1;
    }
    proof {
        assert(cv.skip(n as int) =~= Seq::<int>::empty());
        assert(views(out@) + Seq::<BoxView>::empty() =~= views(out@));
    }
    Ok(out)
}

} // verus!
