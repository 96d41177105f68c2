//! Errors of MathML rendering and the size limit of rendered boxes.
use vstd::prelude::*;
use crate::mathml::math_box::BoxView;

verus! {

/// Largest width or height of a rendered box, in cells: a quarter of what
/// `usize` holds, so that the few extents a layout adds up stay within it.
pub const MAX_EXTENT: usize = usize::MAX / 4;

/// Error types for MathML processing
#[derive(Debug)]
pub enum MathMLError {
    XmlParse(String),
    InvalidStructure(String),
}

/// Model of an error: its kind and message.
pub enum MathErr {
    XmlParse(Seq<char>),
    InvalidStructure(Seq<char>),
}

impl View for MathMLError {
    type V = MathErr;

    open spec fn view(&self) -> MathErr {
        match self {
            MathMLError::XmlParse(m) => MathErr::XmlParse(m@),
            MathMLError::InvalidStructure(m) => MathErr::InvalidStructure(m@),
        }
    }
}

/// A box whose extent stays within the limit and whose baseline lies inside it.
pub open spec fn fits(b: BoxView) -> bool {
    b.width <= MAX_EXTENT && b.height <= MAX_EXTENT && b.baseline <= b.height
}

pub open spec fn too_large() -> MathErr {
    MathErr::InvalidStructure("expression too large to render"@)
}

pub open spec fn structure_err(msg: Seq<char>) -> MathErr {
    MathErr::InvalidStructure(msg)
}

pub fn err_too_large() -> (e: MathMLError)
    ensures
        e@ == too_large(),
{
    MathMLError::InvalidStructure(String::from_str("expression too large to render"))
}

pub fn structure_error(msg: &str) -> (e: MathMLError)
    ensures
        e@ == structure_err(msg@),
{
    MathMLError::InvalidStructure(String::from_str(msg))
}

impl MathMLError {
    /// The message shown for this error.
    pub fn message(&self) -> (s: String)
        ensures
            s@ == match self@ {
                MathErr::XmlParse(m) => "XML parsing error: "@ + m,
                MathErr::InvalidStructure(m) => "Invalid MathML structure: "@ + m,
            },
    {
        match self {
            MathMLError::XmlParse(m) => {
                let mut s = String::from_str("XML parsing error: ");
                s.append(m.as_str());
                s
            },
            MathMLError::InvalidStructure(m) => {
                let mut s = String::from_str("Invalid MathML structure: ");
                s.append(m.as_str());
                s
            },
        }
    }
}

} // verus!
