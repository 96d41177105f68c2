//! MathML to text rendering for the terminal.
pub mod concat;
pub mod error;
pub mod fences;
pub mod layout;
pub mod math_box;
pub mod parser;
pub mod render;
pub mod roots;
pub mod unicode;
pub mod xml;
