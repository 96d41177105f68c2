//! The theme selector: a list of the theme names with a selection.
use vstd::prelude::*;
use crate::theme::{
    ThemeRegistry,
    theme_names,
    all_theme_names,
    current_theme_index,
    set_theme_by_index_and_save,
};
use crate::widget::common::{PopupArea, Key, KeyPress, outside_area, is_outside, is_char};

verus! {

pub enum ThemeSelectorAction {
    Close,
    ThemeChanged,
}

/// The selection after moving down: from the last line to the first.
pub open spec fn next_selection(sel: Option<usize>, len: nat) -> nat {
    match sel {
        Some(i) => if i >= len - 1 {
            0
        } else {
            (i + 1) as nat
        },
        None => 0,
    }
}

/// The selection after moving up: from the first line to the last.
pub open spec fn previous_selection(sel: Option<usize>, len: nat) -> nat {
    match sel {
        Some(i) => if i == 0 {
            (len - 1) as nat
        } else {
            (i - 1) as nat
        },
        None => 0,
    }
}

/// Moving down then up, or up then down, comes back to the theme selected,
/// the list running round at both ends.
pub proof fn law_next_then_previous(i: usize, len: nat)
    requires
        i < len,
        len <= usize::MAX,
    ensures
        next_selection(Some(i), len) < len,
        previous_selection(Some(i), len) < len,
        previous_selection(Some(next_selection(Some(i), len) as usize), len) == i,
        next_selection(Some(previous_selection(Some(i), len) as usize), len) == i,
{
}

pub open spec fn selected_or_top(sel: Option<usize>) -> nat {
    match sel {
        Some(i) => i as nat,
        None => 0,
    }
}

/// The selection after up to `n` moves down that stop at the last line.
pub open spec fn moved_down(sel: Option<usize>, len: nat, n: nat) -> Option<usize>
    decreases n,
{
    if n == 0 {
        sel
    } else if selected_or_top(sel) < len - 1 {
        moved_down(Some(next_selection(sel, len) as usize), len, (n - 1) as nat)
    } else {
        sel
    }
}

/// The selection after up to `n` moves up that stop at the first line.
pub open spec fn moved_up(sel: Option<usize>, len: nat, n: nat) -> Option<usize>
    decreases n,
{
    if n == 0 {
        sel
    } else if selected_or_top(sel) > 0 {
        moved_up(Some(previous_selection(sel, len) as usize), len, (n - 1) as nat)
    } else {
        sel
    }
}

/// The line of the list under a click, if the click is on a line.
pub open spec fn clicked_line(area: Option<PopupArea>, offset: nat, len: nat, x: u16, y: u16) -> Option<
    nat,
> {
    match area {
        Some(a) => if x >= a.x && x < a.x + a.width && y > a.y && y < a.y + a.height - 1 {
            let rel = y - a.y - 1;
            if offset + rel < len {
                Some((offset + rel) as nat)
            } else {
                None
            }
        } else {
            None
        },
        None => None,
    }
}

pub struct ThemeSelector {
    selected: Option<usize>,
    offset: usize,
    theme_names: Vec<String>,
    last_popup_area: Option<PopupArea>,
}

impl ThemeSelector {
    #[verifier::type_invariant]
    closed spec fn well_formed(self) -> bool {
        &&& self.theme_names@.len() > 0
        &&& self.offset <= self.theme_names@.len()
    }

    pub closed spec fn names(self) -> Seq<Seq<char>> {
        self.theme_names@.map_values(|s: String| s@)
    }

    pub closed spec fn selection(self) -> Option<usize> {
        self.selected
    }

    pub closed spec fn list_offset(self) -> nat {
        self.offset as nat
    }

    pub closed spec fn area(self) -> Option<PopupArea> {
        self.last_popup_area
    }

    /// The names of all themes, the current one selected.
    pub fn new(registry: &ThemeRegistry) -> (r: Self)
        ensures
            r.names() == theme_names(registry.custom_themes()),
            r.selection() == Some(registry.current() as usize),
            r.list_offset() == 0,
            r.area() is None,
    {
        let theme_names = all_theme_names(registry);
        let current_idx = current_theme_index(registry);
        proof {
            assert(theme_names@.map_values(|s: String| s@).len() >= 4);
        }
        ThemeSelector { selected: Some(current_idx), offset: 0, theme_names, last_popup_area: None }
    }

    /// The first line the list showed.
    pub fn offset(&self) -> (r: usize)
        ensures
            r == self.list_offset(),
    {
        self.offset
    }

    /// The names of the themes, as listed.
    pub fn theme_names(&self) -> (r: &Vec<String>)
        ensures
            r@.map_values(|s: String| s@) == self.names(),
    {
        &self.theme_names
    }

    pub fn selected(&self) -> (r: Option<usize>)
        ensures
            r == self.selection(),
    {
        self.selected
    }

    /// Records where the list was drawn and the first line it showed.
    pub fn record_render(&mut self, area: PopupArea, offset: usize)
        ensures
            final(self).area() == Some(area),
            final(self).list_offset() == if offset <= old(self).names().len() {
                offset as nat
            } else {
                old(self).names().len()
            },
            final(self).names() == old(self).names(),
            final(self).selection() == old(self).selection(),
    {
        proof {
            use_type_invariant(&*self);
        }
        let len = self.theme_names.len();
        self.last_popup_area = Some(area);
        self.offset = if offset <= len {
            offset
        } else {
            len
        };
    }

    fn next(&mut self)
        ensures
            final(self).selection() == Some(
                next_selection(old(self).selection(), old(self).names().len()) as usize,
            ),
            final(self).names() == old(self).names(),
            final(self).list_offset() == old(self).list_offset(),
            final(self).area() == old(self).area(),
    {
        proof {
            use_type_invariant(&*self);
        }
        let len = self.theme_names.len();
        let i = match self.selected {
            Some(i) => if i >= len - 1 {
                0
            } else {
                i + 1
            },
            None => 0,
        };
        self.selected = Some(i);
    }

    fn previous(&mut self)
        ensures
            final(self).selection() == Some(
                previous_selection(old(self).selection(), old(self).names().len()) as usize,
            ),
            final(self).names() == old(self).names(),
            final(self).list_offset() == old(self).list_offset(),
            final(self).area() == old(self).area(),
    {
        proof {
            use_type_invariant(&*self);
        }
        let len = self.theme_names.len();
        let i = match self.selected {
            Some(i) => if i == 0 {
                len - 1
            } else {
                i - 1
            },
            None => 0,
        };
        self.selected = Some(i);
    }

    /// Makes the selected theme current when it is another one; the caller
    /// saves the theme's name in the settings.
    fn apply_selected_theme(&self, registry: &mut ThemeRegistry) -> (changed: bool)
        ensures
            changed == (self.selection() matches Some(i) && i != old(registry).current()),
            final(registry).custom_themes() == old(registry).custom_themes(),
            changed && self.selection()->0 < theme_names(old(registry).custom_themes()).len()
                ==> final(registry).current() == self.selection()->0,
            !(changed && self.selection()->0 < theme_names(old(registry).custom_themes()).len())
                ==> final(registry).current() == old(registry).current(),
    {
        if let Some(idx) = self.selected {
            if idx != current_theme_index(registry) {
                let _saved = set_theme_by_index_and_save(registry, idx);
                return true;
            }
        }
        false
    }

    /// Selects the clicked line; tells whether a line was clicked.
    pub fn handle_mouse_click(&mut self, x: u16, y: u16) -> (hit: bool)
        ensures
            hit == clicked_line(old(self).area(), old(self).list_offset(), old(self).names().len(), x, y) is Some,
            final(self).selection() == match clicked_line(
                old(self).area(),
                old(self).list_offset(),
                old(self).names().len(),
                x,
                y,
            ) {
                Some(i) => Some(i as usize),
                None => old(self).selection(),
            },
            final(self).names() == old(self).names(),
            final(self).list_offset() == old(self).list_offset(),
            final(self).area() == old(self).area(),
    {
        proof {
            use_type_invariant(&*self);
        }
        if let Some(a) = self.last_popup_area {
            let right: u32 = a.x as u32 + a.width as u32;
            let bottom: i64 = a.y as i64 + a.height as i64 - 1;
            if x >= a.x && (x as u32) < right && y > a.y && (y as i64) < bottom {
                let relative_y = (y - a.y - 1) as usize;
                if relative_y < self.theme_names.len() - self.offset {
                    self.selected = Some(self.offset + relative_y);
                    return true;
                }
            }
        }
        false
    }

    pub fn is_outside_popup_area(&self, x: u16, y: u16) -> (b: bool)
        ensures
            b == outside_area(self.area(), x, y),
    {
        is_outside(self.last_popup_area, x, y)
    }

    fn can_move_down(&self) -> (b: bool)
        ensures
            b == (selected_or_top(self.selection()) < self.names().len() - 1),
    {
        proof {
            use_type_invariant(self);
        }
        let current = match self.selected {
            Some(i) => i,
            None => 0,
        };
        current < self.theme_names.len() - 1
    }

    fn can_move_up(&self) -> (b: bool)
        ensures
            b == (selected_or_top(self.selection()) > 0),
    {
        match self.selected {
            Some(i) => i > 0,
            None => false,
        }
    }

    pub fn handle_j(&mut self)
        ensures
            final(self).selection() == Some(
                next_selection(old(self).selection(), old(self).names().len()) as usize,
            ),
            final(self).names() == old(self).names(),
            final(self).list_offset() == old(self).list_offset(),
            final(self).area() == old(self).area(),
    {
        self.next();
    }

    pub fn handle_k(&mut self)
        ensures
            final(self).selection() == Some(
                previous_selection(old(self).selection(), old(self).names().len()) as usize,
            ),
            final(self).names() == old(self).names(),
            final(self).list_offset() == old(self).list_offset(),
            final(self).area() == old(self).area(),
    {
        self.previous();
    }

    /// Moves down five lines, stopping at the last one.
    pub fn handle_ctrl_d(&mut self)
        ensures
            final(self).selection() == moved_down(old(self).selection(), old(self).names().len(), 5),
            final(self).names() == old(self).names(),
            final(self).list_offset() == old(self).list_offset(),
            final(self).area() == old(self).area(),
    {
        proof {
            use_type_invariant(&*self);
        }
        let ghost len = self.names().len();
        let ghost start = self.selection();
        let mut n: usize = 0;
        while n < 5 && self.can_move_down()
            invariant
                len == self.names().len(),
                len == self.theme_names@.len(),
                len > 0,
                n <= 5,
                moved_down(start, len, 5) == moved_down(self.selection(), len, (5 - n) as nat),
                self.names() == old(self).names(),
                self.list_offset() == old(self).list_offset(),
                self.area() == old(self).area(),
            decreases 5 - n,
        {
            self.next();
            n += 1;
        }
    }

    /// Moves up five lines, stopping at the first one.
    pub fn handle_ctrl_u(&mut self)
        ensures
            final(self).selection() == moved_up(old(self).selection(), old(self).names().len(), 5),
            final(self).names() == old(self).names(),
            final(self).list_offset() == old(self).list_offset(),
            final(self).area() == old(self).area(),
    {
        proof {
            use_type_invariant(&*self);
        }
        let ghost len = self.names().len();
        let ghost start = self.selection();
        let mut n: usize = 0;
        while n < 5 && self.can_move_up()
            invariant
                len == self.names().len(),
                len == self.theme_names@.len(),
                len > 0,
                n <= 5,
                moved_up(start, len, 5) == moved_up(self.selection(), len, (5 - n) as nat),
                self.names() == old(self).names(),
                self.list_offset() == old(self).list_offset(),
                self.area() == old(self).area(),
            decreases 5 - n,
        {
            self.previous();
            n += 1;
        }
    }

    pub fn handle_gg(&mut self)
        ensures
            final(self).selection() == Some(0usize),
            final(self).names() == old(self).names(),
            final(self).list_offset() == old(self).list_offset(),
            final(self).area() == old(self).area(),
    {
        proof {
            use_type_invariant(&*self);
        }
        if self.theme_names.len() > 0 {
            self.selected = Some(0);
        }
    }

    pub fn handle_upper_g(&mut self)
        ensures
            final(self).selection() == Some((old(self).names().len() - 1) as usize),
            final(self).names() == old(self).names(),
            final(self).list_offset() == old(self).list_offset(),
            final(self).area() == old(self).area(),
    {
        proof {
            use_type_invariant(&*self);
        }
        if self.theme_names.len() > 0 {
            self.selected = Some(self.theme_names.len() - 1);
        }
    }

    /// Handles a key: `j`/`k` move, `gg`/`G` jump, Ctrl+`d`/Ctrl+`u` move five
    /// lines, Esc closes, Enter applies the selected theme.
    pub fn handle_key(&mut self, key: KeyPress, completes_gg: bool, registry: &mut ThemeRegistry) -> (r:
        Option<ThemeSelectorAction>)
        ensures
            final(self).names() == old(self).names(),
            final(registry).custom_themes() == old(registry).custom_themes(),
            is_char(key, 'j') ==> final(self).selection() == Some(
                next_selection(old(self).selection(), old(self).names().len()) as usize,
            ) && r is None,
            is_char(key, 'k') ==> final(self).selection() == Some(
                previous_selection(old(self).selection(), old(self).names().len()) as usize,
            ) && r is None,
            is_char(key, 'g') && completes_gg ==> final(self).selection() == Some(0usize)
                && r is None,
            is_char(key, 'G') ==> final(self).selection() == Some(
                (old(self).names().len() - 1) as usize,
            ) && r is None,
            is_char(key, 'd') && key.ctrl ==> final(self).selection() == moved_down(
                old(self).selection(),
                old(self).names().len(),
                5,
            ) && r is None,
            is_char(key, 'u') && key.ctrl ==> final(self).selection() == moved_up(
                old(self).selection(),
                old(self).names().len(),
                5,
            ) && r is None,
            key.key == Key::Esc ==> r matches Some(ThemeSelectorAction::Close),
            key.key == Key::Enter ==> final(self).selection() == old(self).selection() && (
            r matches Some(a) && (a is ThemeChanged <==> (old(self).selection() matches Some(i)
                && i != old(registry).current()))),
            key.key != Key::Enter ==> final(registry).current() == old(registry).current(),
            !(is_char(key, 'j') || is_char(key, 'k') || (is_char(key, 'g') && completes_gg) || is_char(key, 'G')
                || (is_char(key, 'd') && key.ctrl) || (is_char(key, 'u') && key.ctrl) || key.key == Key::Esc
                || key.key == Key::Enter) ==> final(self).selection() == old(self).selection() && r is None,
    {
        if key.key == Key::Char('j') {
            self.handle_j();
            None
        } else if key.key == Key::Char('k') {
            self.handle_k();
            None
        } else if key.key == Key::Char('g') && completes_gg {
            self.handle_gg();
            None
        } else if key.key == Key::Char('G') {
            self.handle_upper_g();
            None
        } else if key.key == Key::Char('d') && key.ctrl {
            self.handle_ctrl_d();
            None
        } else if key.key == Key::Char('u') && key.ctrl {
            self.handle_ctrl_u();
            None
        } else if key.key == Key::Esc {
            Some(ThemeSelectorAction::Close)
        } else if key.key == Key::Enter {
            if self.apply_selected_theme(registry) {
                Some(ThemeSelectorAction::ThemeChanged)
            } else {
                Some(ThemeSelectorAction::Close)
            }
        } else {
            None
        }
    }
}

} // verus!
