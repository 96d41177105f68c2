//! The paragraph-level text of an XHTML chapter: the text that the book's
//! statistics count and that the comments viewer quotes.
use vstd::prelude::*;
use crate::mathml::xml::{XmlItem, XmlItemView, items_view, xml_document, parse_xml};
use crate::text::{chars_of, push_all, str_is, string_from_chars, join};
use crate::widget::comments_viewer::{quote_excerpt, shorten_quote};
use crate::code_block::strings_view;
use crate::document::{Node, Block, HeadingLevel};
use crate::markdown::{TextOrInline, TextNode};

verus! {

/// Names of the elements whose text makes one block: paragraphs, headings,
/// list items, preformatted text, quotes, definition terms and descriptions,
/// and figure captions.
pub open spec fn is_block_name(n: Seq<char>) -> bool {
    ||| n == "p"@
    ||| n == "h1"@
    ||| n == "h2"@
    ||| n == "h3"@
    ||| n == "h4"@
    ||| n == "h5"@
    ||| n == "h6"@
    ||| n == "li"@
    ||| n == "pre"@
    ||| n == "blockquote"@
    ||| n == "dt"@
    ||| n == "dd"@
    ||| n == "figcaption"@
}

fn is_block_tag(name: &String) -> (b: bool)
    ensures
        b == is_block_name(name@),
{
    str_is(name, "p") || str_is(name, "h1") || str_is(name, "h2") || str_is(name, "h3") || str_is(
        name,
        "h4",
    ) || str_is(name, "h5") || str_is(name, "h6") || str_is(name, "li") || str_is(name, "pre")
        || str_is(name, "blockquote") || str_is(name, "dt") || str_is(name, "dd") || str_is(
        name,
        "figcaption",
    )
}

/// The text that the node at position `k` contributes: its own text when it
/// is a text node.
pub open spec fn own_text(items: Seq<XmlItemView>, k: int) -> Seq<char> {
    if 0 <= k < items.len() && items[k].is_text && items[k].text is Some {
        items[k].text->0
    } else {
        Seq::empty()
    }
}

/// The text of the text nodes at positions `from..to`, in document order.
pub open spec fn text_between(items: Seq<XmlItemView>, from: int, to: int) -> Seq<char>
    decreases to - from,
{
    if to <= from {
        Seq::empty()
    } else {
        text_between(items, from, to - 1) + own_text(items, to - 1)
    }
}

/// The blocks from position `j` on: each block element that no earlier block
/// encloses gives the text of its subtree (cut at the last node), and what
/// lies inside it is not looked at again.
pub open spec fn blocks_from(items: Seq<XmlItemView>, j: int) -> Seq<Seq<char>>
    decreases items.len() - j,
{
    if j < 0 || j >= items.len() {
        Seq::empty()
    } else if items[j].is_element && is_block_name(items[j].name) && items[j].size > 0 {
        let end = if j + items[j].size < items.len() {
            j + items[j].size
        } else {
            items.len() as int
        };
        seq![text_between(items, j + 1, end)] + blocks_from(items, end)
    } else {
        blocks_from(items, j + 1)
    }
}

/// The text of the text nodes at positions `from..to`.
fn texts_in(items: &Vec<XmlItem>, from: usize, to: usize) -> (r: Vec<char>)
    requires
        from <= to <= items@.len(),
    ensures
        r@ == text_between(items_view(items@), from as int, to as int),
{
    let ghost v = items_view(items@);
    let mut out: Vec<char> = Vec::new();
    let mut k = from;
    while k < to
        invariant
            from <= k <= to <= items@.len(),
            v == items_view(items@),
            out@ == text_between(v, from as int, k as int),
        decreases to - k,
    {
        let item = &items[k];
        if item.is_text {
            match &item.text {
                Some(t) => {
                    let cs = chars_of(t.as_str());
                    push_all(&mut out, cs.as_slice());
                },
                None => {},
            }
        }
        proof {
            assert(text_between(v, from as int, k + 1) == text_between(v, from as int, k as int)
                + own_text(v, k as int));
            assert(out@ =~= text_between(v, from as int, k + 1));
        }
        k += 1;
    }
    out
}

/// The text of each block of a parsed chapter, in document order.
pub fn block_texts(items: &Vec<XmlItem>) -> (r: Vec<String>)
    ensures
        strings_view(r@) == blocks_from(items_view(items@), 0),
{
    let ghost v = items_view(items@);
    let mut out: Vec<String> = Vec::new();
    let mut j: usize = 0;
    while j < items.len()
        invariant
            j <= items@.len(),
            v == items_view(items@),
            blocks_from(v, 0) == strings_view(out@) + blocks_from(v, j as int),
        decreases items@.len() - j,
    {
        let item = &items[j];
        let ghost before = out@;
        if item.is_element && is_block_tag(&item.name) && item.subtree_size > 0 {
            let left = items.len() - j;
            let end = if item.subtree_size < left {
                j + item.subtree_size
            } else {
                items.len()
            };
            let text = texts_in(items, j + 1, end);
            out.push(string_from_chars(text.as_slice()));
            proof {
                assert(strings_view(out@) =~= strings_view(before).push(text@));
                assert(blocks_from(v, j as int) == seq![text@] + blocks_from(v, end as int));
                assert(strings_view(before) + blocks_from(v, j as int) =~= strings_view(out@)
                    + blocks_from(v, end as int));
            }
            j = end;
        } else {
            j += 1;
        }
    }
    proof {
        assert(strings_view(out@) + blocks_from(v, j as int) =~= strings_view(out@));
    }
    out
}

/// The text of each paragraph-level element of an XHTML chapter, in document
/// order, an element inside another one being part of it; `None` when the
/// chapter does not parse as XML (with its DTD allowed).
pub fn chapter_blocks(xhtml: &str) -> (r: Option<Vec<String>>)
    ensures
        match xml_document(xhtml@, true) {
            Ok(items) => r matches Some(v) && strings_view(v@) == blocks_from(items, 0),
            Err(_) => r is None,
        },
{
    match parse_xml(xhtml, true) {
        Ok(items) => Some(block_texts(&items)),
        Err(_) => None,
    }
}

/// The blocks from position `j` on, as [`blocks_from`] finds them, each with
/// the name of its element.
pub open spec fn named_blocks_from(items: Seq<XmlItemView>, j: int) -> Seq<(Seq<char>, Seq<char>)>
    decreases items.len() - j,
{
    if j < 0 || j >= items.len() {
        Seq::empty()
    } else if items[j].is_element && is_block_name(items[j].name) && items[j].size > 0 {
        let end = if j + items[j].size < items.len() {
            j + items[j].size
        } else {
            items.len() as int
        };
        seq![(items[j].name, text_between(items, j + 1, end))] + named_blocks_from(items, end)
    } else {
        named_blocks_from(items, j + 1)
    }
}

/// The level of a heading element, by its name.
pub open spec fn heading_level_of(name: Seq<char>) -> Option<HeadingLevel> {
    if name == "h1"@ {
        Some(HeadingLevel::H1)
    } else if name == "h2"@ {
        Some(HeadingLevel::H2)
    } else if name == "h3"@ {
        Some(HeadingLevel::H3)
    } else if name == "h4"@ {
        Some(HeadingLevel::H4)
    } else if name == "h5"@ {
        Some(HeadingLevel::H5)
    } else if name == "h6"@ {
        Some(HeadingLevel::H6)
    } else {
        None
    }
}

/// A node holding one run of unstyled text.
pub open spec fn holds_text(content: Seq<TextOrInline>, text: Seq<char>) -> bool {
    content.len() == 1 && (content[0] matches TextOrInline::Text(t) && t.content@ == text && t.style is None)
}

/// The node a block element becomes: a heading of its level, preformatted
/// text as a code block, anything else as a paragraph; none has an
/// identifier.
pub open spec fn node_of_block(n: Node, name: Seq<char>, text: Seq<char>) -> bool {
    n.id is None && match heading_level_of(name) {
        Some(level) => n.block matches Block::Heading { level: l, content } && l == level && holds_text(content@, text),
        None => if name == "pre"@ {
            n.block matches Block::CodeBlock { language, content } && language is None && content@ == text
        } else {
            n.block matches Block::Paragraph { content } && holds_text(content@, text)
        },
    }
}

fn heading_level_exec(name: &String) -> (r: Option<HeadingLevel>)
    ensures
        r == heading_level_of(name@),
{
    if str_is(name, "h1") {
        Some(HeadingLevel::H1)
    } else if str_is(name, "h2") {
        Some(HeadingLevel::H2)
    } else if str_is(name, "h3") {
        Some(HeadingLevel::H3)
    } else if str_is(name, "h4") {
        Some(HeadingLevel::H4)
    } else if str_is(name, "h5") {
        Some(HeadingLevel::H5)
    } else if str_is(name, "h6") {
        Some(HeadingLevel::H6)
    } else {
        None
    }
}

fn node_for(name: &String, text: String) -> (n: Node)
    ensures
        node_of_block(n, name@, text@),
{
    match heading_level_exec(name) {
        Some(level) => {
            let mut content: Vec<TextOrInline> = Vec::new();
            content.push(TextOrInline::Text(TextNode { content: text, style: None }));
            Node { block: Block::Heading { level, content }, id: None }
        },
        None => if str_is(name, "pre") {
            Node { block: Block::CodeBlock { language: None, content: text }, id: None }
        } else {
            let mut content: Vec<TextOrInline> = Vec::new();
            content.push(TextOrInline::Text(TextNode { content: text, style: None }));
            Node { block: Block::Paragraph { content }, id: None }
        },
    }
}

/// The nodes of a parsed chapter's blocks, in document order.
pub fn block_nodes(items: &Vec<XmlItem>) -> (r: Vec<Node>)
    ensures
        r@.len() == named_blocks_from(items_view(items@), 0).len(),
        forall|i: int|
            0 <= i < r@.len() ==> node_of_block(
                #[trigger] r@[i],
                named_blocks_from(items_view(items@), 0)[i].0,
                named_blocks_from(items_view(items@), 0)[i].1,
            ),
{
    let ghost v = items_view(items@);
    let mut out: Vec<Node> = Vec::new();
    let ghost mut done: Seq<(Seq<char>, Seq<char>)> = Seq::empty();
    let mut j: usize = 0;
    while j < items.len()
        invariant
            j <= items@.len(),
            v == items_view(items@),
            named_blocks_from(v, 0) == done + named_blocks_from(v, j as int),
            out@.len() == done.len(),
            forall|i: int| 0 <= i < out@.len() ==> node_of_block(#[trigger] out@[i], done[i].0, done[i].1),
        decreases items@.len() - j,
    {
        let item = &items[j];
        if item.is_element && is_block_tag(&item.name) && item.subtree_size > 0 {
            let left = items.len() - j;
            let end = if item.subtree_size < left {
                j + item.subtree_size
            } else {
                items.len()
            };
            let text = texts_in(items, j + 1, end);
            let node = node_for(&item.name, string_from_chars(text.as_slice()));
            let ghost pair = (item.name@, text@);
            out.push(node);
            proof {
                assert(named_blocks_from(v, j as int) == seq![pair] + named_blocks_from(v, end as int));
                assert(done + named_blocks_from(v, j as int) =~= done.push(pair) + named_blocks_from(v, end as int));
                done = done.push(pair);
            }
            j = end;
        } else {
            j += 1;
        }
    }
    proof {
        assert(done + named_blocks_from(v, j as int) =~= done);
    }
    out
}

/// The blocks of an XHTML chapter as nodes to render, in document order;
/// `None` when the chapter does not parse as XML (with its DTD allowed).
pub fn chapter_nodes(xhtml: &str) -> (r: Option<Vec<Node>>)
    ensures
        match xml_document(xhtml@, true) {
            Ok(items) => r matches Some(v) && v@.len() == named_blocks_from(items, 0).len() && forall|i: int|
                0 <= i < v@.len() ==> node_of_block(#[trigger] v@[i], named_blocks_from(items, 0)[i].0, named_blocks_from(items, 0)[i].1),
            Err(_) => r is None,
        },
{
    match parse_xml(xhtml, true) {
        Ok(items) => Some(block_nodes(&items)),
        Err(_) => None,
    }
}

/// The text a chapter counts as: its blocks with a blank line between each
/// two; nothing when the chapter does not parse.
pub open spec fn chapter_text_of(xhtml: Seq<char>) -> Seq<char> {
    match xml_document(xhtml, true) {
        Ok(items) => join(blocks_from(items, 0), "\n\n"@),
        Err(_) => Seq::empty(),
    }
}

/// The pieces with `sep` between each two.
fn join_strings(parts: &Vec<String>, sep: &str) -> (r: String)
    ensures
        r@ == join(strings_view(parts@), sep@),
{
    let ghost pv = strings_view(parts@);
    let sc = chars_of(sep);
    let mut out: Vec<char> = Vec::new();
    let mut k: usize = 0;
    proof {
        assert(pv.take(0) =~= Seq::<Seq<char>>::empty());
    }
    while k < parts.len()
        invariant
            pv == strings_view(parts@),
            sc@ == sep@,
            k <= pv.len(),
            out@ == join(pv.take(k as int), sep@),
        decreases pv.len() - k,
    {
        let ghost before = out@;
        if k > 0 {
            push_all(&mut out, sc.as_slice());
        }
        let piece = chars_of(parts[k].as_str());
        push_all(&mut out, piece.as_slice());
        proof {
            let t = pv.take(k + 1);
            assert(t.drop_last() =~= pv.take(k as int));
            assert(t.last() == pv[k as int]);
            if k == 0 {
                assert(t.len() == 1);
                assert(out@ =~= t[0]);
            } else {
                assert(out@ =~= before + sep@ + t.last());
            }
        }
        k += 1;
    }
    proof {
        assert(pv.take(k as int) =~= pv);
    }
    string_from_chars(out.as_slice())
}

/// The text a chapter counts as, for the book's statistics.
pub fn chapter_text(xhtml: &str) -> (r: String)
    ensures
        r@ == chapter_text_of(xhtml@),
{
    proof {
        reveal_strlit("\n\n");
    }
    match chapter_blocks(xhtml) {
        Some(blocks) => join_strings(&blocks, "\n\n"),
        None => String::new(),
    }
}

/// The quote a comment's entry shows of its paragraph: the paragraph's text
/// cut to what an entry shows, or `[Unable to retrieve text]` when the
/// chapter is not found, does not parse or has no block at that index.
pub open spec fn paragraph_quote_of(xhtml: Option<Seq<char>>, index: usize) -> Seq<char> {
    match xhtml {
        Some(x) => match xml_document(x, true) {
            Ok(items) => if index < blocks_from(items, 0).len() {
                quote_excerpt(blocks_from(items, 0)[index as int])
            } else {
                "[Unable to retrieve text]"@
            },
            Err(_) => "[Unable to retrieve text]"@,
        },
        None => "[Unable to retrieve text]"@,
    }
}

/// The quote a comment's entry shows of the paragraph at `index` of a
/// chapter (`None` when the chapter was not found).
pub fn paragraph_quote(xhtml: Option<&str>, index: usize) -> (r: String)
    ensures
        r@ == paragraph_quote_of(
            match xhtml {
                Some(x) => Some(x@),
                None => None,
            },
            index,
        ),
{
    let missing = crate::text::to_string("[Unable to retrieve text]");
    match xhtml {
        Some(x) => match chapter_blocks(x) {
            Some(blocks) => if index < blocks.len() {
                proof {
                    assert(strings_view(blocks@)[index as int] == blocks@[index as int]@);
                }
                shorten_quote(blocks[index].as_str())
            } else {
                missing
            },
            None => missing,
        },
        None => missing,
    }
}

} // verus!
