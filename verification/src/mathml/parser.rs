//! The public entry points: parsing one MathML expression and converting the
//! first `<math>` element found in a piece of HTML.
use vstd::prelude::*;
use crate::mathml::math_box::{BoxView, MathBox, rendered};
use crate::mathml::concat::res_view;
use crate::mathml::error::{MathErr, MathMLError};
use crate::mathml::render::{Role, render_node, render_node_exec, malformed};
use crate::mathml::unicode::{
    unicode_subscript, unicode_superscript, to_unicode_subscript, to_unicode_superscript,
};
use crate::mathml::xml::{XmlItem, XmlItemView, items_view, xml_document, parse_xml};
use crate::text::{
    trim, trim_chars, chars_of, string_from_chars, push_all, to_string, occurs_at, contains_seq,
};

verus! {

/// Parser for MathML expressions
pub struct MathMLParser {
    use_unicode: bool,
}

/// The opening tag put around an expression that does not start with one.
pub open spec fn math_open_tag() -> Seq<char> {
    "<math xmlns=\"http://www.w3.org/1998/Math/MathML\">"@
}

pub open spec fn math_close_tag() -> Seq<char> {
    "</math>"@
}

/// The document parsed for an expression: the trimmed text, wrapped in a
/// `math` element unless it already starts with `<math`.
pub open spec fn math_document(text: Seq<char>) -> Seq<char> {
    let t = trim(text);
    if occurs_at(t, "<math"@, 0) {
        t
    } else {
        math_open_tag() + t + math_close_tag()
    }
}

/// The box of a parsed document: its root element rendered as an element.
pub open spec fn document_layout(items: Seq<XmlItemView>, use_unicode: bool) -> Result<
    BoxView,
    MathErr,
> {
    if items.len() == 0 {
        Err(malformed())
    } else {
        render_node(items, 0, use_unicode, Role::Element)
    }
}

/// What parsing an expression gives: the parser's error as `XmlParse`, or the
/// box of the document.
pub open spec fn parse_result(text: Seq<char>, use_unicode: bool) -> Result<BoxView, MathErr> {
    match xml_document(math_document(text), false) {
        Err(msg) => Err(MathErr::XmlParse(msg)),
        Ok(items) => document_layout(items, use_unicode),
    }
}

/// The rendered text of the first math element (`found`) of `html`, or `html`
/// itself when there is none.
pub open spec fn ascii_result(html: Seq<char>, found: Option<Seq<char>>, use_unicode: bool) -> Result<
    Seq<char>,
    MathErr,
> {
    match found {
        None => Ok(html),
        Some(m) => match parse_result(m, use_unicode) {
            Ok(b) => Ok(rendered(b)),
            Err(e) => Err(e),
        },
    }
}

pub open spec fn string_result(r: Result<String, MathMLError>) -> Result<Seq<char>, MathErr> {
    match r {
        Ok(s) => Ok(s@),
        Err(e) => Err(e@),
    }
}

/// The first position from `i` on where `pat` occurs in `s`.
pub open spec fn first_occurrence(s: Seq<char>, pat: Seq<char>, i: int) -> Option<int>
    decreases s.len() + 1 - i,
{
    if i < 0 || i + pat.len() > s.len() {
        None
    } else if occurs_at(s, pat, i) {
        Some(i)
    } else {
        first_occurrence(s, pat, i + 1)
    }
}

/// Where a match of `(?s)<math[^>]*>.*?</math>` that starts at `s` ends:
/// `<math` there, the first `>` after it, and the first `</math>` after that.
pub open spec fn math_match_end(html: Seq<char>, s: int) -> Option<int> {
    if occurs_at(html, "<math"@, s) {
        match first_occurrence(html, seq!['>'], s + 5) {
            Some(g) => match first_occurrence(html, "</math>"@, g + 1) {
                Some(e) => Some(e + 7),
                None => None,
            },
            None => None,
        }
    } else {
        None
    }
}

/// The leftmost match of `(?s)<math[^>]*>.*?</math>` from position `s` on.
pub open spec fn math_match_from(html: Seq<char>, s: int) -> Option<Seq<char>>
    decreases html.len() + 1 - s,
{
    if s < 0 || s > html.len() {
        None
    } else {
        match math_match_end(html, s) {
            Some(end) => Some(html.subrange(s, end)),
            None => math_match_from(html, s + 1),
        }
    }
}

/// What the regular expression `(?s)<math[^>]*>.*?</math>` finds first in a
/// text: the leftmost start where `<math` is followed by a `>` and later by
/// `</math>`, up to the end of the first `</math>` after that `>`.
pub open spec fn first_math_element(html: Seq<char>) -> Option<Seq<char>> {
    math_match_from(html, 0)
}

/// The first match of `(?s)<math[^>]*>.*?</math>` in `html` (`regex::Regex::find`),
/// as a string. A match is a piece of `html` that starts with `<math` and ends
/// with `</math>`; which piece comes first is left to the regex crate.
#[verifier::external_body]
fn find_math_element(html: &str) -> (r: Option<String>)
    ensures
        r matches Some(m) ==> first_math_element(html@) == Some(m@),
        r is None ==> first_math_element(html@) is None,
        r matches Some(m) ==> exists|s: int|
            0 <= s && s + m@.len() <= html@.len() && #[trigger] html@.subrange(s, s + m@.len())
                == m@,
        r matches Some(m) ==> occurs_at(m@, "<math"@, 0),
        r matches Some(m) ==> m@.len() >= 7 && occurs_at(m@, "</math>"@, m@.len() - 7),
{
    let pattern = regex::Regex::new(r"(?s)<math[^>]*>.*?</math>").unwrap();
    pattern.find(html).map(|m| m.as_str().to_string())
}

impl MathMLParser {
    pub fn new(use_unicode: bool) -> (r: Self)
        ensures
            r.use_unicode() == use_unicode,
    {
        Self { use_unicode }
    }

    pub closed spec fn use_unicode(&self) -> bool {
        self.use_unicode
    }

    /// Try to convert text to Unicode subscripts (public associated function)
    pub fn try_unicode_subscript(text: &str, use_unicode: bool) -> (r: Option<String>)
        ensures
            r matches Some(s) ==> unicode_subscript(text@, use_unicode) == Some(s@),
            r is None ==> unicode_subscript(text@, use_unicode) is None,
    {
        let chars = chars_of(text);
        match to_unicode_subscript(chars.as_slice(), use_unicode) {
            Some(v) => Some(string_from_chars(v.as_slice())),
            None => None,
        }
    }

    /// Try to convert text to Unicode superscripts (public associated function)
    pub fn try_unicode_superscript(text: &str, use_unicode: bool) -> (r: Option<String>)
        ensures
            r matches Some(s) ==> unicode_superscript(text@, use_unicode) == Some(s@),
            r is None ==> unicode_superscript(text@, use_unicode) is None,
    {
        let chars = chars_of(text);
        match to_unicode_superscript(chars.as_slice(), use_unicode) {
            Some(v) => Some(string_from_chars(v.as_slice())),
            None => None,
        }
    }

    /// Parse MathML string and return rendered ASCII box
    pub fn parse(&self, mathml: &str) -> (r: Result<MathBox, MathMLError>)
        ensures
            res_view(r) == parse_result(mathml@, self.use_unicode()),
    {
        let chars = chars_of(mathml);
        let t = trim_chars(chars.as_slice());
        let document = if starts_with_math_tag(&t) {
            string_from_chars(t.as_slice())
        } else {
            let mut d = chars_of("<math xmlns=\"http://www.w3.org/1998/Math/MathML\">");
            push_all(&mut d, t.as_slice());
            let close = chars_of("</math>");
            push_all(&mut d, close.as_slice());
            string_from_chars(d.as_slice())
        };
        proof {
            assert(document@ == math_document(mathml@));
        }
        match parse_xml(document.as_str(), false) {
            Err(msg) => Err(MathMLError::XmlParse(msg)),
            Ok(items) => render_document(&items, self.use_unicode),
        }
    }
}

fn starts_with_math_tag(t: &Vec<char>) -> (b: bool)
    ensures
        b == occurs_at(t@, "<math"@, 0),
{
    let tag = chars_of("<math");
    crate::text::occurs_at_exec(t.as_slice(), tag.as_slice(), 0)
}

/// The box of a parsed document: its root element (the first item) rendered.
pub fn render_document(items: &Vec<XmlItem>, use_unicode: bool) -> (r: Result<MathBox, MathMLError>)
    ensures
        res_view(r) == document_layout(items_view(items@), use_unicode),
{
    if items.len() == 0 {
        return Err(crate::mathml::error::structure_error("malformed document"));
    }
    render_node_exec(items, 0, use_unicode, Role::Element)
}

/// The text for `html` once its first math element, `found`, is known: that
/// element rendered, or `html` unchanged when there is none.
pub fn ascii_for_match(html: &str, found: Option<&str>, use_unicode: bool) -> (r: Result<
    String,
    MathMLError,
>)
    ensures
        string_result(r) == ascii_result(
            html@,
            match found {
                Some(m) => Some(m@),
                None => None,
            },
            use_unicode,
        ),
{
    match found {
        None => Ok(to_string(html)),
        Some(m) => {
            let parser = MathMLParser::new(use_unicode);
            match parser.parse(m) {
                Ok(b) => Ok(b.render()),
                Err(e) => Err(e),
            }
        },
    }
}

/// Convert HTML with MathML to ASCII representation
pub fn mathml_to_ascii(html: &str, use_unicode: bool) -> (r: Result<String, MathMLError>)
    ensures
        string_result(r) == ascii_result(html@, first_math_element(html@), use_unicode),
        !contains_seq(html@, "<math"@) ==> string_result(r) == Ok::<Seq<char>, MathErr>(html@),
{
    let found = find_math_element(html);
    match found {
        Some(m) => {
            proof {
                let s = choose|s: int|
                    0 <= s && s + m@.len() <= html@.len() && #[trigger] html@.subrange(
                        s,
                        s + m@.len(),
                    ) == m@;
                reveal_strlit("<math");
                assert(html@.subrange(s, s + 5) =~= m@.subrange(0, 5));
                assert(occurs_at(html@, "<math"@, s));
            }
            ascii_for_match(html, Some(m.as_str()), use_unicode)
        },
        None => ascii_for_match(html, None, use_unicode),
    }
}

} // verus!
