//! The XML document of a MathML expression as a list of nodes in document order.
use vstd::prelude::*;
use crate::text::{chars_of, str_is};
use roxmltree::{Document, ParsingOptions};

verus! {

/// One node of the document, with the number of nodes in its subtree.
pub struct XmlItem {
    pub is_element: bool,
    /// Whether the node is a text node.
    pub is_text: bool,
    /// Local tag name (empty for text and other nodes).
    pub name: String,
    /// The node's text: its own for a text node, its first child's for an element.
    pub text: Option<String>,
    /// The text right after an element.
    pub tail: Option<String>,
    /// Attributes in document order, by local name.
    pub attributes: Vec<(String, String)>,
    /// Number of nodes in the subtree rooted here, this node included.
    pub subtree_size: usize,
}

pub struct XmlItemView {
    pub is_element: bool,
    pub is_text: bool,
    pub name: Seq<char>,
    pub text: Option<Seq<char>>,
    pub tail: Option<Seq<char>>,
    pub attributes: Seq<(Seq<char>, Seq<char>)>,
    pub size: nat,
}

pub open spec fn opt_view(o: Option<String>) -> Option<Seq<char>> {
    match o {
        Some(s) => Some(s@),
        None => None,
    }
}

impl View for XmlItem {
    type V = XmlItemView;

    open spec fn view(&self) -> XmlItemView {
        XmlItemView {
            is_element: self.is_element,
            is_text: self.is_text,
            name: self.name@,
            text: opt_view(self.text),
            tail: opt_view(self.tail),
            attributes: self.attributes@.map_values(|a: (String, String)| (a.0@, a.1@)),
            size: self.subtree_size as nat,
        }
    }
}

pub open spec fn items_view(items: Seq<XmlItem>) -> Seq<XmlItemView> {
    items.map_values(|i: XmlItem| i@)
}

/// The nodes of `roxmltree::Document::parse_with_options(text, ..)`, DTDs
/// allowed or not as `allow_dtd` says and the other options at their
/// defaults, from the root element on in document order, or the parser's
/// error message.
pub uninterp spec fn xml_document(text: Seq<char>, allow_dtd: bool) -> Result<Seq<XmlItemView>, Seq<char>>;

/// Parses `text` with `roxmltree::Document::parse_with_options` (DTDs allowed
/// when `allow_dtd`, every other option at its default) and lists the root
/// element's subtree (`descendants()`, document order) with what is read of
/// each node; on failure the parser's error message.
#[verifier::external_body]
pub(crate) fn parse_xml(text: &str, allow_dtd: bool) -> (r: Result<Vec<XmlItem>, String>)
    ensures
        match r {
            Ok(items) => xml_document(text@, allow_dtd) == Ok::<Seq<XmlItemView>, Seq<char>>(
                items_view(items@),
            ),
            Err(m) => xml_document(text@, allow_dtd) == Err::<Seq<XmlItemView>, Seq<char>>(m@),
        },
{
    let options = ParsingOptions { allow_dtd, ..Default::default() };
    match Document::parse_with_options(text, options) {
        Ok(doc) => Ok(doc.root_element().descendants().map(|n| XmlItem {
            is_element: n.is_element(),
            is_text: n.is_text(),
            name: n.tag_name().name().to_string(),
            text: n.text().map(String::from),
            tail: n.tail().map(String::from),
            attributes: n.attributes().map(|a| (a.name().to_string(), a.value().to_string())).collect(),
            subtree_size: n.descendants().count(),
        }).collect()),
        Err(e) => Err(e.to_string()),
    }
}

/// Children of a node whose subtree ends before `end`, starting at position `j`
/// (only the elements when `elements_only`).
pub open spec fn children_from(items: Seq<XmlItemView>, j: int, end: int, elements_only: bool) -> Seq<
    int,
>
    decreases end - j,
{
    if j < 0 || j >= end || j >= items.len() || items[j].size == 0 {
        Seq::empty()
    } else {
        let rest = if j + items[j].size < end {
            children_from(items, j + items[j].size, end, elements_only)
        } else {
            Seq::empty()
        };
        if !elements_only || items[j].is_element {
            seq![j] + rest
        } else {
            rest
        }
    }
}

/// All child nodes of node `i`.
pub open spec fn child_nodes(items: Seq<XmlItemView>, i: int) -> Seq<int> {
    children_from(items, i + 1, i + items[i].size, false)
}

/// The element children of node `i`.
pub open spec fn element_children(items: Seq<XmlItemView>, i: int) -> Seq<int> {
    children_from(items, i + 1, i + items[i].size, true)
}

/// The nodes among `cs` that are elements named `tag`.
pub open spec fn with_tag(items: Seq<XmlItemView>, cs: Seq<int>, tag: Seq<char>) -> Seq<int>
    decreases cs.len(),
{
    if cs.len() == 0 {
        Seq::empty()
    } else {
        let rest = with_tag(items, cs.drop_first(), tag);
        if 0 <= cs[0] < items.len() && items[cs[0]].name == tag {
            seq![cs[0]] + rest
        } else {
            rest
        }
    }
}

/// Value of the first attribute with local name `name`.
pub open spec fn attr_in(attrs: Seq<(Seq<char>, Seq<char>)>, name: Seq<char>) -> Option<Seq<char>>
    decreases attrs.len(),
{
    if attrs.len() == 0 {
        None
    } else if attrs[0].0 == name {
        Some(attrs[0].1)
    } else {
        attr_in(attrs.drop_first(), name)
    }
}

pub open spec fn attr(item: XmlItemView, name: Seq<char>) -> Option<Seq<char>> {
    attr_in(item.attributes, name)
}

pub proof fn lemma_children_from_bounds(items: Seq<XmlItemView>, j: int, end: int, eo: bool)
    ensures
        forall|k: int|
            0 <= k < children_from(items, j, end, eo).len() ==> j <= #[trigger] children_from(
                items,
                j,
                end,
                eo,
            )[k] < items.len() && children_from(items, j, end, eo)[k] < end,
    decreases end - j,
{
    if !(j < 0 || j >= end || j >= items.len() || items[j].size == 0) && j + items[j].size < end {
        lemma_children_from_bounds(items, j + items[j].size, end, eo);
        let rest = children_from(items, j + items[j].size, end, eo);
        assert forall|k: int| 0 <= k < rest.len() implies j <= #[trigger] rest[k] < items.len()
            && rest[k] < end by {
        }
    }
}

pub proof fn lemma_with_tag_bounds(items: Seq<XmlItemView>, cs: Seq<int>, tag: Seq<char>, lo: int)
    requires
        forall|k: int| 0 <= k < cs.len() ==> lo <= #[trigger] cs[k] < items.len(),
    ensures
        forall|k: int|
            0 <= k < with_tag(items, cs, tag).len() ==> lo <= #[trigger] with_tag(items, cs, tag)[k]
                < items.len(),
    decreases cs.len(),
{
    if cs.len() > 0 {
        let d = cs.drop_first();
        assert forall|k: int| 0 <= k < d.len() implies lo <= #[trigger] d[k] < items.len() by {
            assert(d[k] == cs[k + 1]);
        }
        lemma_with_tag_bounds(items, d, tag, lo);
        let rest = with_tag(items, d, tag);
        let r = with_tag(items, cs, tag);
        assert forall|k: int| 0 <= k < r.len() implies lo <= #[trigger] r[k] < items.len() by {
            if 0 <= cs[0] < items.len() && items[cs[0]].name == tag {
                if k > 0 {
                    assert(r[k] == rest[k - 1]);
                }
            } else {
                assert(r[k] == rest[k]);
            }
        }
    }
}

pub fn children_exec(items: &Vec<XmlItem>, i: usize, elements_only: bool) -> (r: Vec<usize>)
    requires
        i < items@.len(),
    ensures
        r@.map_values(|k: usize| k as int) == children_from(
            items_view(items@),
            i + 1,
            i + items@[i as int].subtree_size,
            elements_only,
        ),
        forall|k: int| 0 <= k < r@.len() ==> i < #[trigger] r@[k] < items@.len(),
{
    let ghost iv = items_view(items@);
    let ghost end = i + items@[i as int].subtree_size;
    let n = items.len();
    let size = items[i].subtree_size;
    let lim = if size <= n - i {
        i + size
    } else {
        n
    };
    let mut out: Vec<usize> = Vec::new();
    let mut j = i + 1;
    proof {
        lemma_children_from_bounds(iv, i + 1, end, elements_only);
    }
    while j < lim && items[j].subtree_size > 0
        invariant
            n == items@.len(),
            iv == items_view(items@),
            i < n,
            end == i + items@[i as int].subtree_size,
            lim == if end <= n { end } else { n as int },
            i + 1 <= j,
            out@.map_values(|k: usize| k as int) + children_from(iv, j as int, end, elements_only)
                == children_from(iv, i + 1, end, elements_only),
            forall|k: int| 0 <= k < out@.len() ==> i < #[trigger] out@[k] < n,
        decreases n - j,
    {
        let ghost before = out@;
        let sz = items[j].subtree_size;
        proof {
            assert(iv[j as int] == items@[j as int]@);
        }
        if !elements_only || items[j].is_element {
            out.push(j);
            proof {
                assert(out@.map_values(|k: usize| k as int) =~= before.map_values(|k: usize| k as int).push(
                    j as int,
                ));
            }
        }
        proof {
            let rest = children_from(iv, j + sz, end, elements_only);
            assert(children_from(iv, j as int, end, elements_only) == if !elements_only
                || iv[j as int].is_element {
                seq![j as int] + rest
            } else {
                rest
            });
            if !elements_only || iv[j as int].is_element {
                assert(out@.map_values(|k: usize| k as int) + rest =~= before.map_values(
                    |k: usize| k as int,
                ) + (seq![j as int] + rest));
            }
        }
        if sz >= n - j {
            proof {
                assert(children_from(iv, j + sz, end, elements_only) =~= Seq::<int>::empty());
                assert(out@.map_values(|k: usize| k as int) + Seq::<int>::empty() =~= out@.map_values(
                    |k: usize| k as int,
                ));
            }
            return out;
        }
        j = j + sz;
    }
    proof {
        assert(children_from(iv, j as int, end, elements_only) =~= Seq::<int>::empty());
        assert(out@.map_values(|k: usize| k as int) + Seq::<int>::empty() =~= out@.map_values(
            |k: usize| k as int,
        ));
    }
    out
}

pub fn with_tag_exec(items: &Vec<XmlItem>, cs: &Vec<usize>, tag: &str) -> (r: Vec<usize>)
    requires
        forall|k: int| 0 <= k < cs@.len() ==> #[trigger] cs@[k] < items@.len(),
    ensures
        r@.map_values(|k: usize| k as int) == with_tag(
            items_view(items@),
            cs@.map_values(|k: usize| k as int),
            tag@,
        ),
        forall|k: int| 0 <= k < r@.len() ==> exists|m: int| 0 <= m < cs@.len() && #[trigger] r@[k] == cs@[m],
{
    let ghost iv = items_view(items@);
    let ghost cv = cs@.map_values(|k: usize| k as int);
    let n = cs.len();
    let mut out: Vec<usize> = Vec::new();
    let mut k: usize = 0;
    proof {
        assert(cv.skip(0) =~= cv);
        assert(out@.map_values(|k: usize| k as int) + cv.skip(0) =~= cv.skip(0));
        assert(out@.map_values(|k: usize| k as int) + with_tag(iv, cv.skip(0), tag@) =~= with_tag(iv, cv, tag@));
    }
    while k < n
        invariant
            n == cs@.len(),
            cv == cs@.map_values(|k: usize| k as int),
            iv == items_view(items@),
            forall|m: int| 0 <= m < cs@.len() ==> #[trigger] cs@[m] < items@.len(),
            k <= n,
            out@.map_values(|k: usize| k as int) + with_tag(iv, cv.skip(k as int), tag@) == with_tag(
                iv,
                cv,
                tag@,
            ),
            forall|j: int| 0 <= j < out@.len() ==> exists|m: int| 0 <= m < cs@.len() && #[trigger] out@[j] == cs@[m],
        decreases n - k,
    {
        let c = cs[k];
        let ghost before = out@;
        proof {
            assert(cv.skip(k as int)[0] == c as int);
            assert(cv.skip(k as int).drop_first() =~= cv.skip(k + 1));
            assert(iv[c as int] == items@[c as int]@);
        }
        if str_is(&items[c].name, tag) {
            out.push(c);
            proof {
                assert(out@.map_values(|k: usize| k as int) =~= before.map_values(|k: usize| k as int).push(
                    c as int,
                ));
                assert(out@.map_values(|k: usize| k as int) + with_tag(iv, cv.skip(k + 1), tag@)
                    =~= before.map_values(|k: usize| k as int) + with_tag(iv, cv.skip(k as int), tag@));
                assert forall|j: int| 0 <= j < out@.len() implies exists|m: int|
                    0 <= m < cs@.len() && #[trigger] out@[j] == cs@[m] by {
                    if j == before.len() {
                        assert(out@[j] == cs@[k as int]);
                    } else {
                        assert(out@[j] == before[j]);
                    }
                }
            }
        }
        k += 1;
    }
    proof {
        assert(cv.skip(n as int) =~= Seq::<int>::empty());
        assert(out@.map_values(|k: usize| k as int) + Seq::<int>::empty() =~= out@.map_values(
            |k: usize| k as int,
        ));
    }
    out
}

/// Value of the first attribute named `name`.
pub fn attr_exec(item: &XmlItem, name: &str) -> (r: Option<Vec<char>>)
    ensures
        match r {
            Some(v) => attr(item@, name@) == Some(v@),
            None => attr(item@, name@) is None,
        },
{
    let ghost av = item@.attributes;
    let n = item.attributes.len();
    let mut k: usize = 0;
    proof {
        assert(av.skip(0) =~= av);
    }
    while k < n
        invariant
            n == item.attributes@.len(),
            av == item.attributes@.map_values(|a: (String, String)| (a.0@, a.1@)),
            k <= n,
            attr_in(av.skip(k as int), name@) == attr_in(av, name@),
        decreases n - k,
    {
        proof {
            assert(av.skip(k as int)[0] == av[k as int]);
            assert(av.skip(k as int).drop_first() =~= av.skip(k + 1));
            assert(av[k as int] == (item.attributes@[k as int].0@, item.attributes@[k as int].1@));
        }
        if str_is(&item.attributes[k].0, name) {
            return Some(chars_of(item.attributes[k].1.as_str()));
        }
        k += 1;
    }
    proof {
        assert(av.skip(n as int) =~= Seq::<(Seq<char>, Seq<char>)>::empty());
    }
    None
}

} // verus!
