//! The pieces of MathML rendering: boxes, scripts, the parser's errors.
use bookokrat::mathml::error::MathMLError;
use bookokrat::mathml::math_box::MathBox;
use bookokrat::mathml::parser::{ascii_for_match, mathml_to_ascii, MathMLParser};

#[test]
fn a_text_box_renders_its_text() {
    let b = MathBox::new("x+1");
    assert_eq!(b.width(), 3);
    assert_eq!(b.height(), 1);
    assert_eq!(b.render(), "x+1");
    assert_eq!(b.get_char(1, 0), '+');
}

#[test]
fn an_empty_box_is_spaces_until_written() {
    let mut b = MathBox::create_empty(3, 2, 1);
    assert_eq!(b.get_char(2, 1), ' ');
    b.set_char(2, 1, 'z');
    assert_eq!(b.get_char(2, 1), 'z');
    assert_eq!(b.get_char(0, 0), ' ');
    assert_eq!(b.baseline(), 1);
    assert_eq!(b.render(), "\n  z");
}

#[test]
fn unicode_scripts_when_every_character_has_one() {
    assert_eq!(MathMLParser::try_unicode_subscript("12", true), Some("₁₂".to_string()));
    assert_eq!(MathMLParser::try_unicode_superscript("n+1", true), Some("ⁿ⁺¹".to_string()));
    assert_eq!(MathMLParser::try_unicode_subscript("q", true), None);
    assert_eq!(MathMLParser::try_unicode_superscript("2", false), None);
}

#[test]
fn text_without_math_is_returned_unchanged() {
    let html = "<p>no formula here</p>";
    assert_eq!(mathml_to_ascii(html, true).unwrap(), html);
    assert_eq!(ascii_for_match("plain", None, true).unwrap(), "plain");
}

#[test]
fn only_the_first_math_element_is_rendered() {
    let html = "<p>a <math><mi>x</mi></math> and <math><mi>y</mi></math></p>";
    assert_eq!(mathml_to_ascii(html, true).unwrap(), "x");
}

#[test]
fn broken_xml_is_an_xml_error() {
    let r = mathml_to_ascii("<math><mi>a</mo></math>", true);
    match r {
        Err(MathMLError::XmlParse(_)) => {}
        other => panic!("expected an XML error, got {:?}", other),
    }
}

#[test]
fn a_fraction_needs_two_children() {
    let r = mathml_to_ascii("<math><mfrac><mi>a</mi></mfrac></math>", true);
    match r {
        Err(e @ MathMLError::InvalidStructure(_)) => {
            assert!(e.message().starts_with("Invalid MathML structure: "));
        }
        other => panic!("expected a structure error, got {:?}", other),
    }
}

#[test]
fn a_bare_fragment_is_wrapped_in_math() {
    let parser = MathMLParser::new(true);
    let b = parser.parse("<msup><mi>x</mi><mn>2</mn></msup>").unwrap();
    assert_eq!(b.render(), "x²");
    let ascii = MathMLParser::new(false);
    assert_eq!(ascii.parse("<msup><mi>x</mi><mn>2</mn></msup>").unwrap().render(), "x^2");
}
