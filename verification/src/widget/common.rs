//! What the widgets share: the area a popup was drawn in and key presses.
use vstd::prelude::*;

verus! {

/// A rectangle of terminal cells.
#[derive(Clone, Copy, Debug, PartialEq, Eq, Structural)]
pub struct PopupArea {
    pub x: u16,
    pub y: u16,
    pub width: u16,
    pub height: u16,
}

/// A position lies outside the area; with no area, everything does.
pub open spec fn outside_area(area: Option<PopupArea>, x: u16, y: u16) -> bool {
    match area {
        Some(a) => x < a.x || x >= a.x + a.width || y < a.y || y >= a.y + a.height,
        None => true,
    }
}

/// Check if the given coordinates are outside the popup area
pub fn is_outside(area: Option<PopupArea>, x: u16, y: u16) -> (b: bool)
    ensures
        b == outside_area(area, x, y),
{
    match area {
        Some(a) => {
            let right: u32 = a.x as u32 + a.width as u32;
            let bottom: u32 = a.y as u32 + a.height as u32;
            x < a.x || (x as u32) >= right || y < a.y || (y as u32) >= bottom
        },
        None => true,
    }
}

/// The key of a key press.
#[derive(Clone, Copy, Debug, PartialEq, Eq, Structural)]
pub enum Key {
    Char(char),
    Esc,
    Enter,
    Tab,
    Backspace,
    Delete,
    Up,
    Down,
    Left,
    Right,
    PageUp,
    PageDown,
    Home,
    End,
    Other,
}

/// A key press, with whether Control was held.
#[derive(Clone, Copy, Debug, PartialEq, Eq, Structural)]
pub struct KeyPress {
    pub key: Key,
    pub ctrl: bool,
}

pub open spec fn is_char(k: KeyPress, c: char) -> bool {
    k.key == Key::Char(c)
}

/// A heading of the table of contents: a chapter, or a section that may lead
/// to a document of its own and may hold nested headings.
pub enum TocEntry {
    Chapter { title: String, href: String },
    Section { title: String, href: Option<String>, children: Vec<TocEntry> },
}

} // verus!
