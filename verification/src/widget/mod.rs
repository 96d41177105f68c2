//! State and decisions of the reader's popups and panels; drawing them is left
//! to the terminal front end.
pub mod common;
pub mod help_popup;
pub mod theme_selector;
pub mod book_stat;
pub mod comments_viewer;
pub mod entry_height;
