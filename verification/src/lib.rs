//! Verified core of a terminal EPUB reader.
pub mod chapter;
pub mod code_block;
pub mod comments;
pub mod document;
pub mod markdown;
pub mod mathml;
pub mod reader;
pub mod rendering;
pub mod text;
pub mod theme;
pub mod viewport;
pub mod widget;
