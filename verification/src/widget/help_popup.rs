//! The help screen: its scrolling, its keys, and the preparation of the ANSI
//! art shown at its top.
use vstd::prelude::*;
use codepage_437::BorrowFromCp437;
use vt100::Color::{Default as VtDefault, Idx as VtIdx, Rgb as VtRgb};
use crate::widget::common::{PopupArea, Key, KeyPress, outside_area, is_outside, is_char};
use crate::text::{chars_of, push_all, string_from_chars};
use crate::widget::entry_height::{decimal, decimal_exec};

verus! {

pub enum HelpPopupAction {
    Close,
}

/// The last line the view may start at.
pub open spec fn last_start(total_lines: nat) -> nat {
    if total_lines == 0 {
        0
    } else {
        (total_lines - 1) as nat
    }
}

/// The first shown line one line further down, held at the last start.
pub open spec fn line_down(offset: nat, total_lines: nat) -> nat {
    if offset < last_start(total_lines) {
        offset + 1
    } else {
        offset
    }
}

/// The first shown line one line further up, held at the top.
pub open spec fn line_up(offset: nat) -> nat {
    if offset > 0 {
        (offset - 1) as nat
    } else {
        0
    }
}

/// Scrolling one line down and back up returns to the same line, unless the
/// view already showed the last line; the view stays within the text.
pub proof fn law_scroll_round_trip(offset: nat, total_lines: nat)
    requires
        offset <= last_start(total_lines),
    ensures
        line_down(offset, total_lines) <= last_start(total_lines),
        line_up(offset) <= last_start(total_lines),
        offset < last_start(total_lines) ==> line_up(line_down(offset, total_lines)) == offset,
        offset > 0 ==> line_down(line_up(offset), total_lines) == offset,
{
}

/// Scroll state of the help screen.
pub struct HelpPopup {
    total_lines: usize,
    scroll_offset: usize,
    last_popup_area: Option<PopupArea>,
}

impl HelpPopup {
    #[verifier::type_invariant]
    closed spec fn offset_in_range(self) -> bool {
        self.scroll_offset <= last_start(self.total_lines as nat)
    }

    pub closed spec fn total(self) -> nat {
        self.total_lines as nat
    }

    pub closed spec fn offset(self) -> nat {
        self.scroll_offset as nat
    }

    pub closed spec fn area(self) -> Option<PopupArea> {
        self.last_popup_area
    }

    /// The view never starts past the last line.
    pub fn law_offset_in_range(&self)
        ensures
            self.offset() <= last_start(self.total()),
    {
        proof {
            use_type_invariant(self);
        }
    }

    /// A help screen of `total_lines` lines, scrolled to the top.
    pub fn new(total_lines: usize) -> (r: Self)
        ensures
            r.total() == total_lines,
            r.offset() == 0,
            r.area() is None,
    {
        HelpPopup { total_lines, scroll_offset: 0, last_popup_area: None }
    }

    /// Records where the popup was drawn.
    pub fn set_popup_area(&mut self, area: PopupArea)
        ensures
            final(self).area() == Some(area),
            final(self).offset() == old(self).offset(),
            final(self).total() == old(self).total(),
    {
        proof {
            use_type_invariant(&*self);
        }
        self.last_popup_area = Some(area);
    }

    pub fn scroll_offset(&self) -> (r: usize)
        ensures
            r == self.offset(),
    {
        self.scroll_offset
    }

    pub fn scroll_down(&mut self)
        ensures
            final(self).offset() == line_down(old(self).offset(), old(self).total()),
            final(self).total() == old(self).total(),
            final(self).area() == old(self).area(),
    {
        if self.scroll_offset < self.total_lines.saturating_sub(1) {
            self.scroll_offset += 1;
        }
    }

    pub fn scroll_up(&mut self)
        ensures
            final(self).offset() == line_up(old(self).offset()),
            final(self).total() == old(self).total(),
            final(self).area() == old(self).area(),
    {
        proof {
            use_type_invariant(&*self);
        }
        if self.scroll_offset > 0 {
            self.scroll_offset -= 1;
        }
    }

    fn scroll_page_down(&mut self, page_size: usize)
        ensures
            final(self).offset() == if old(self).offset() + page_size < last_start(
                old(self).total(),
            ) {
                old(self).offset() + page_size
            } else {
                last_start(old(self).total()) as int
            },
            final(self).total() == old(self).total(),
            final(self).area() == old(self).area(),
    {
        proof {
            use_type_invariant(&*self);
        }
        let max = self.total_lines.saturating_sub(1);
        self.scroll_offset = if page_size < max - self.scroll_offset {
            self.scroll_offset + page_size
        } else {
            max
        };
    }

    fn scroll_page_up(&mut self, page_size: usize)
        ensures
            final(self).offset() == if old(self).offset() > page_size {
                old(self).offset() - page_size
            } else {
                0
            },
            final(self).total() == old(self).total(),
            final(self).area() == old(self).area(),
    {
        proof {
            use_type_invariant(&*self);
        }
        self.scroll_offset = self.scroll_offset.saturating_sub(page_size);
    }

    fn scroll_to_top(&mut self)
        ensures
            final(self).offset() == 0,
            final(self).total() == old(self).total(),
            final(self).area() == old(self).area(),
    {
        self.scroll_offset = 0;
    }

    fn scroll_to_bottom(&mut self)
        ensures
            final(self).offset() == last_start(old(self).total()),
            final(self).total() == old(self).total(),
            final(self).area() == old(self).area(),
    {
        self.scroll_offset = self.total_lines.saturating_sub(1);
    }

    /// Half the drawn height, at least one line; ten before the first drawing.
    pub open spec fn page_size_of(area: Option<PopupArea>) -> nat {
        match area {
            Some(a) => if a.height / 2 > 1 {
                (a.height / 2) as nat
            } else {
                1
            },
            None => 10,
        }
    }

    fn page_size(&self) -> (n: usize)
        ensures
            n == Self::page_size_of(self.area()),
    {
        match self.last_popup_area {
            Some(a) => {
                let half: usize = (a.height / 2) as usize;
                if half > 1 {
                    half
                } else {
                    1
                }
            },
            None => 10,
        }
    }

    /// Handles a key: `j`/`k` scroll a line, `gg` and `G` jump to the top and
    /// the bottom, Ctrl+`d`/Ctrl+`u` scroll half a page, Esc and `?` close.
    /// `completes_gg` tells whether a `g` press completes the sequence `gg`;
    /// the second result asks the caller to clear the key sequence.
    pub fn handle_key(&mut self, key: KeyPress, completes_gg: bool) -> (r: (
        Option<HelpPopupAction>,
        bool,
    ))
        ensures
            final(self).total() == old(self).total(),
            final(self).area() == old(self).area(),
            r.1 == (is_char(key, 'g') && completes_gg),
            (r.0 is Some) == (!is_char(key, 'j') && !is_char(key, 'k') && !(is_char(key, 'g')
                && completes_gg) && !is_char(key, 'G') && !(is_char(key, 'd') && key.ctrl) && !(
            is_char(key, 'u') && key.ctrl) && (key.key == Key::Esc || is_char(key, '?'))),
            is_char(key, 'j') ==> final(self).offset() == line_down(old(self).offset(), old(self).total()),
            is_char(key, 'k') ==> final(self).offset() == line_up(old(self).offset()),
            is_char(key, 'g') && completes_gg ==> final(self).offset() == 0,
            is_char(key, 'G') ==> final(self).offset() == last_start(old(self).total()),
            is_char(key, 'd') && key.ctrl ==> final(self).offset() == if old(self).offset()
                + Self::page_size_of(old(self).area()) < last_start(old(self).total()) {
                old(self).offset() + Self::page_size_of(old(self).area())
            } else {
                last_start(old(self).total())
            },
            is_char(key, 'u') && key.ctrl ==> final(self).offset() == if old(self).offset()
                > Self::page_size_of(old(self).area()) {
                old(self).offset() - Self::page_size_of(old(self).area())
            } else {
                0
            },
            !(is_char(key, 'j') || is_char(key, 'k') || (is_char(key, 'g') && completes_gg)
                || is_char(key, 'G') || (is_char(key, 'd') && key.ctrl) || (is_char(key, 'u')
                && key.ctrl)) ==> final(self).offset() == old(self).offset(),
    {
        if key.key == Key::Char('j') {
            self.scroll_down();
            (None, false)
        } else if key.key == Key::Char('k') {
            self.scroll_up();
            (None, false)
        } else if key.key == Key::Char('g') && completes_gg {
            self.scroll_to_top();
            (None, true)
        } else if key.key == Key::Char('G') {
            self.scroll_to_bottom();
            (None, false)
        } else if key.key == Key::Char('d') && key.ctrl {
            let page = self.page_size();
            self.scroll_page_down(page);
            (None, false)
        } else if key.key == Key::Char('u') && key.ctrl {
            let page = self.page_size();
            self.scroll_page_up(page);
            (None, false)
        } else if key.key == Key::Esc || key.key == Key::Char('?') {
            (Some(HelpPopupAction::Close), false)
        } else {
            (None, false)
        }
    }

    /// Check if the given coordinates are outside the popup area
    pub fn is_outside_popup_area(&self, x: u16, y: u16) -> (b: bool)
        ensures
            b == outside_area(self.area(), x, y),
    {
        is_outside(self.last_popup_area, x, y)
    }
}

/// Size of a SAUCE record, the metadata at the end of an ANSI art file.
pub const SAUCE_SIZE: usize = 128;

/// The bytes without their SAUCE record (the last 128 bytes, starting with
/// `SAUCE00`) and the end-of-file mark (0x1A) just before it.
pub open spec fn without_sauce(bytes: Seq<u8>) -> Seq<u8> {
    if bytes.len() < 128 {
        bytes
    } else {
        let off = bytes.len() - 128;
        if bytes.subrange(off, off + 7) == seq![83u8, 65, 85, 67, 69, 48, 48] {
            if off > 0 && bytes[off - 1] == 0x1A {
                bytes.take(off - 1)
            } else {
                bytes.take(off)
            }
        } else {
            bytes
        }
    }
}

/// Strips SAUCE metadata from ANSI art files
/// SAUCE (Standard Architecture for Universal Comment Extensions) is metadata
/// stored in the last 128 bytes of the file, starting with "SAUCE00"
pub fn strip_sauce_metadata(bytes: &[u8]) -> (r: &[u8])
    ensures
        r@ == without_sauce(bytes@),
{
    if bytes.len() < SAUCE_SIZE {
        return bytes;
    }
    let n = bytes.len();
    let off = n - SAUCE_SIZE;
    let id: [u8; 7] = [83u8, 65, 85, 67, 69, 48, 48];
    let mut k: usize = 0;
    while k < 7
        invariant
            k <= 7,
            n == bytes@.len(),
            off + 128 == n,
            id@ == seq![83u8, 65, 85, 67, 69, 48, 48],
            forall|j: int| 0 <= j < k ==> bytes@[off + j] == id@[j],
        decreases 7 - k,
    {
        if bytes[off + k] != id[k] {
            proof {
                assert(bytes@.subrange(off as int, off + 7)[k as int] != id@[k as int]);
            }
            return bytes;
        }
        k += 1;
    }
    proof {
        assert(bytes@.subrange(off as int, off + 7) =~= id@);
    }
    let mut end = off;
    if end > 0 && bytes[end - 1] == 0x1A {
        end -= 1;
    }
    vstd::slice::slice_subrange(bytes, 0, end)
}

/// What `String::borrow_from_cp437(bytes, &CP437_CONTROL)` gives.
pub uninterp spec fn cp437_text(bytes: Seq<u8>) -> Seq<char>;

/// Decodes code page 437 with the control-character dialect
/// (`codepage_437::BorrowFromCp437`): one character for each byte.
#[verifier::external_body]
fn decode_cp437(bytes: &[u8]) -> (r: String)
    ensures
        r@ == cp437_text(bytes@),
        r@.len() == bytes@.len(),
{
    String::borrow_from_cp437(bytes, &codepage_437::CP437_CONTROL)
}

/// The text of an ANSI art file: its bytes without the SAUCE record, decoded
/// from code page 437.
pub fn ansi_art_text(bytes: &[u8]) -> (r: String)
    ensures
        r@ == cp437_text(without_sauce(bytes@)),
        r@.len() == without_sauce(bytes@).len(),
{
    decode_cp437(strip_sauce_metadata(bytes))
}

/// A color of the ANSI art's virtual terminal.
#[derive(Clone, Copy, Debug, PartialEq, Eq, Structural)]
pub enum TermColor {
    Default,
    Idx(u8),
    Rgb(u8, u8, u8),
}

/// A color as the help screen draws it.
#[derive(Clone, Copy, Debug, PartialEq, Eq, Structural)]
pub enum CellColor {
    Reset,
    Black,
    White,
    Rgb(u8, u8, u8),
    Indexed(u8),
}

pub open spec fn palette_color(i: u8) -> CellColor {
    if i == 0 {
        CellColor::Black
    } else if i == 1 {
        CellColor::Rgb(255, 0, 0)
    } else if i == 2 {
        CellColor::Rgb(0, 255, 0)
    } else if i == 3 {
        CellColor::Rgb(255, 255, 0)
    } else if i == 4 {
        CellColor::Rgb(0, 100, 255)
    } else if i == 5 {
        CellColor::Rgb(255, 0, 255)
    } else if i == 6 {
        CellColor::Rgb(0, 255, 255)
    } else if i == 7 {
        CellColor::Rgb(220, 220, 220)
    } else if i == 8 {
        CellColor::Rgb(128, 128, 128)
    } else if i == 9 {
        CellColor::Rgb(255, 100, 100)
    } else if i == 10 {
        CellColor::Rgb(100, 255, 100)
    } else if i == 11 {
        CellColor::Rgb(255, 255, 100)
    } else if i == 12 {
        CellColor::Rgb(100, 150, 255)
    } else if i == 13 {
        CellColor::Rgb(255, 100, 255)
    } else if i == 14 {
        CellColor::Rgb(100, 255, 255)
    } else if i == 15 {
        CellColor::White
    } else {
        CellColor::Indexed(i)
    }
}

/// The drawn color of a terminal color: the sixteen base colors brightened.
pub open spec fn drawn_color(c: TermColor) -> CellColor {
    match c {
        TermColor::Default => CellColor::Reset,
        TermColor::Idx(i) => palette_color(i),
        TermColor::Rgb(r, g, b) => CellColor::Rgb(r, g, b),
    }
}

pub fn to_color(c: TermColor) -> (r: CellColor)
    ensures
        r == drawn_color(c),
{
    match c {
        TermColor::Default => CellColor::Reset,
        TermColor::Idx(i) => match i {
            0 => CellColor::Black,
            1 => CellColor::Rgb(255, 0, 0),
            2 => CellColor::Rgb(0, 255, 0),
            3 => CellColor::Rgb(255, 255, 0),
            4 => CellColor::Rgb(0, 100, 255),
            5 => CellColor::Rgb(255, 0, 255),
            6 => CellColor::Rgb(0, 255, 255),
            7 => CellColor::Rgb(220, 220, 220),
            8 => CellColor::Rgb(128, 128, 128),
            9 => CellColor::Rgb(255, 100, 100),
            10 => CellColor::Rgb(100, 255, 100),
            11 => CellColor::Rgb(255, 255, 100),
            12 => CellColor::Rgb(100, 150, 255),
            13 => CellColor::Rgb(255, 100, 255),
            14 => CellColor::Rgb(100, 255, 255),
            15 => CellColor::White,
            _ => CellColor::Indexed(i),
        },
        TermColor::Rgb(r, g, b) => CellColor::Rgb(r, g, b),
    }
}

/// Background of an art cell: a blank keeps its own color unless it has
/// none; a default or black background gives way to the theme's background
/// (`None`).
pub open spec fn background_of(is_blank: bool, bg: CellColor) -> Option<CellColor> {
    if is_blank && bg != CellColor::Reset {
        Some(bg)
    } else if bg == CellColor::Reset || bg == CellColor::Rgb(0, 0, 0) {
        None::<CellColor>
    } else {
        Some(bg)
    }
}

pub fn cell_background(is_blank: bool, bg: CellColor) -> (r: Option<CellColor>)
    ensures
        r == background_of(is_blank, bg),
{
    if is_blank && bg != CellColor::Reset {
        Some(bg)
    } else if bg == CellColor::Reset || bg == CellColor::Rgb(0, 0, 0) {
        None
    } else {
        Some(bg)
    }
}


/// A custom color sequence of the art, `ESC[f;R;G;Bt` (`f` is `0`, or `1`
/// for bold), with the text before it.
pub struct AnsiRun {
    pub before: String,
    pub flag: String,
    pub red: String,
    pub green: String,
    pub blue: String,
}

pub struct AnsiRunView {
    pub before: Seq<char>,
    pub flag: Seq<char>,
    pub red: Seq<char>,
    pub green: Seq<char>,
    pub blue: Seq<char>,
}

impl View for AnsiRun {
    type V = AnsiRunView;

    open spec fn view(&self) -> AnsiRunView {
        AnsiRunView {
            before: self.before@,
            flag: self.flag@,
            red: self.red@,
            green: self.green@,
            blue: self.blue@,
        }
    }
}

pub open spec fn runs_view(v: Seq<AnsiRun>) -> Seq<AnsiRunView> {
    v.map_values(|r: AnsiRun| r@)
}

/// The custom color sequences of a text, in order, each with the text
/// before it, and the text after the last: what the regular expression
/// `\x1b\[([01]);(\d+);(\d+);(\d+)t` finds in it.
pub uninterp spec fn custom_color_split(text: Seq<char>) -> (Seq<AnsiRunView>, Seq<char>);

/// Splits the text at the matches of `\x1b\[([01]);(\d+);(\d+);(\d+)t`
/// (`regex::Regex::captures_iter`): for each match, the text since the
/// previous one and its four groups; then the rest. The split is named, not
/// stated.
#[verifier::external_body]
fn split_custom_colors(text: &str) -> (r: (Vec<AnsiRun>, String))
    ensures
        (runs_view(r.0@), r.1@) == custom_color_split(text@),
{
    let re = regex::Regex::new(r"\x1b\[([01]);(\d+);(\d+);(\d+)t").unwrap();
    let mut runs = Vec::new();
    let mut last: usize = 0;
    for caps in re.captures_iter(text) {
        let m = caps.get(0).unwrap();
        let before = text[last..m.start()].to_string();
        let (flag, red, green, blue) = (caps[1].to_string(), caps[2].to_string(), caps[3].to_string(), caps[4].to_string());
        runs.push(AnsiRun { before, flag, red, green, blue });
        last = m.end();
    }
    (runs, text[last..].to_string())
}

/// The value of a byte written in decimal, as `str::parse::<u8>` reads it:
/// an optional `+` and at least one ASCII digit, at most 255; `None` else.
pub open spec fn u8_value(s: Seq<char>) -> Option<nat> {
    let d = if s.len() > 1 && s[0] == '+' {
        s.drop_first()
    } else {
        s
    };
    if d.len() == 0 {
        None
    } else {
        digits_within_byte(d)
    }
}

/// The value of the ASCII digits, read from the left, while it stays a byte.
pub open spec fn digits_within_byte(d: Seq<char>) -> Option<nat>
    decreases d.len(),
{
    if d.len() == 0 {
        Some(0)
    } else {
        match digits_within_byte(d.drop_last()) {
            None => None,
            Some(v) => {
                let c = d.last();
                if '0' <= c && c <= '9' && v * 10 + (c as nat - 48) <= 255 {
                    Some((v * 10 + (c as nat - 48)) as nat)
                } else {
                    None
                }
            },
        }
    }
}

pub open spec fn byte_or_zero(s: Seq<char>) -> nat {
    match u8_value(s) {
        Some(v) => v,
        None => 0,
    }
}

/// The standard sequences a custom one stands for: bold when its flag is
/// `1`, then the true color `ESC[38;2;R;G;Bm`, each part read as a byte (0
/// when it is none).
pub open spec fn run_replacement(run: AnsiRunView) -> Seq<char> {
    let color = "\x1b[38;2;"@ + decimal(byte_or_zero(run.red)) + ";"@ + decimal(byte_or_zero(run.green))
        + ";"@ + decimal(byte_or_zero(run.blue)) + "m"@;
    if run.flag == "1"@ {
        "\x1b[1m"@ + color
    } else {
        color
    }
}

pub open spec fn rewritten_runs(runs: Seq<AnsiRunView>, tail: Seq<char>) -> Seq<char>
    decreases runs.len(),
{
    if runs.len() == 0 {
        tail
    } else {
        runs[0].before + run_replacement(runs[0]) + rewritten_runs(runs.drop_first(), tail)
    }
}

/// The text with each custom color sequence in its standard form.
pub open spec fn standard_colors(text: Seq<char>) -> Seq<char> {
    rewritten_runs(custom_color_split(text).0, custom_color_split(text).1)
}

fn parse_byte(s: &String) -> (r: u128)
    ensures
        r == byte_or_zero(s@),
{
    let chars = chars_of(s.as_str());
    let start: usize = if chars.len() > 1 && chars[0] == '+' {
        1
    } else {
        0
    };
    let ghost d = if chars@.len() > 1 && chars@[0] == '+' {
        chars@.drop_first()
    } else {
        chars@
    };
    proof {
        assert(d =~= chars@.skip(start as int));
    }
    if start == chars.len() {
        return 0;
    }
    proof {
        assert(chars@ == s@);
        assert(u8_value(s@) == digits_within_byte(d));
    }
    let mut v: u128 = 0;
    let mut k = start;
    proof {
        assert(d.take(0) =~= Seq::<char>::empty());
    }
    while k < chars.len()
        invariant
            start <= k <= chars@.len(),
            d == chars@.skip(start as int),
            d.len() > 0,
            u8_value(s@) == digits_within_byte(d),
            digits_within_byte(d.take(k - start)) == Some(v as nat),
            v <= 255,
        decreases chars@.len() - k,
    {
        let c = chars[k];
        proof {
            assert(d.take(k + 1 - start).drop_last() =~= d.take(k - start));
            assert(d.take(k + 1 - start).last() == c);
        }
        if !('0' <= c && c <= '9') {
            proof {
                lemma_digits_none_extends(d, (k + 1 - start) as int);
            }
            return 0;
        }
        let digit = (c as u32 - 48) as u128;
        if v * 10 + digit > 255 {
            proof {
                lemma_digits_none_extends(d, (k + 1 - start) as int);
            }
            return 0;
        }
        v = v * 10 + digit;
        k += 1;
    }
    proof {
        assert(d.take(k - start) =~= d);
    }
    v
}

proof fn lemma_digits_none_extends(d: Seq<char>, j: int)
    requires
        0 <= j <= d.len(),
        digits_within_byte(d.take(j)) is None,
    ensures
        digits_within_byte(d) is None,
    decreases d.len() - j,
{
    if j < d.len() {
        assert(d.take(j + 1).drop_last() =~= d.take(j));
        lemma_digits_none_extends(d, j + 1);
    } else {
        assert(d.take(j) =~= d);
    }
}

fn run_replacement_exec(run: &AnsiRun) -> (r: Vec<char>)
    ensures
        r@ == run_replacement(run@),
{
    proof {
        reveal_strlit("\x1b[38;2;");
        reveal_strlit(";");
        reveal_strlit("m");
        reveal_strlit("\x1b[1m");
        reveal_strlit("1");
    }
    let mut color = chars_of("\x1b[38;2;");
    let r = decimal_exec(parse_byte(&run.red));
    push_all(&mut color, r.as_slice());
    color.push(';');
    let g = decimal_exec(parse_byte(&run.green));
    push_all(&mut color, g.as_slice());
    color.push(';');
    let b = decimal_exec(parse_byte(&run.blue));
    push_all(&mut color, b.as_slice());
    color.push('m');
    proof {
        assert(color@ =~= "\x1b[38;2;"@ + decimal(byte_or_zero(run@.red)) + ";"@ + decimal(
            byte_or_zero(run@.green),
        ) + ";"@ + decimal(byte_or_zero(run@.blue)) + "m"@);
    }
    if crate::text::str_is(&run.flag, "1") {
        let mut out = chars_of("\x1b[1m");
        push_all(&mut out, color.as_slice());
        out
    } else {
        color
    }
}

/// Converts the art's custom color sequences `ESC[f;R;G;Bt` to the standard
/// ones.
pub fn preprocess_custom_ansi(input: &str) -> (r: String)
    ensures
        r@ == standard_colors(input@),
{
    let (runs, tail) = split_custom_colors(input);
    let ghost rv = runs_view(runs@);
    let mut out: Vec<char> = Vec::new();
    let mut k: usize = 0;
    proof {
        assert(rv.skip(0) =~= rv);
    }
    while k < runs.len()
        invariant
            rv == runs_view(runs@),
            (rv, tail@) == custom_color_split(input@),
            k <= rv.len(),
            out@ + rewritten_runs(rv.skip(k as int), tail@) == rewritten_runs(rv, tail@),
        decreases rv.len() - k,
    {
        let ghost before = out@;
        let before_text = chars_of(runs[k].before.as_str());
        push_all(&mut out, before_text.as_slice());
        let rep = run_replacement_exec(&runs[k]);
        push_all(&mut out, rep.as_slice());
        proof {
            assert(rv.skip(k as int)[0] == runs@[k as int]@);
            assert(rv.skip(k as int).drop_first() =~= rv.skip(k + 1));
            assert(before + rewritten_runs(rv.skip(k as int), tail@) =~= out@ + rewritten_runs(
                rv.skip(k + 1),
                tail@,
            ));
        }
        k += 1;
    }
    let tail_chars = chars_of(tail.as_str());
    let ghost b2 = out@;
    push_all(&mut out, tail_chars.as_slice());
    proof {
        assert(rv.skip(k as int).len() == 0);
        assert(out@ =~= b2 + tail@);
    }
    string_from_chars(out.as_slice())
}


/// A cell of the virtual terminal that shows the art: its text, its
/// foreground and background colors, and whether it is bold, italic and
/// underlined.
pub type ArtCell = (String, TermColor, TermColor, bool, bool, bool);

pub struct ArtCellView {
    pub contents: Seq<char>,
    pub fg: TermColor,
    pub bg: TermColor,
    pub bold: bool,
    pub italic: bool,
    pub underline: bool,
}

pub open spec fn cell_view(c: ArtCell) -> ArtCellView {
    ArtCellView { contents: c.0@, fg: c.1, bg: c.2, bold: c.3, italic: c.4, underline: c.5 }
}

pub open spec fn art_rows_view(v: Seq<Vec<ArtCell>>) -> Seq<Seq<ArtCellView>> {
    v.map_values(|row: Vec<ArtCell>| row@.map_values(|c: ArtCell| cell_view(c)))
}

/// The cells, row by row, of a `rows` by `cols` virtual terminal
/// (`vt100::Parser`, no scrollback) once it processed the text.
pub uninterp spec fn terminal_cells(text: Seq<char>, rows: u16, cols: u16) -> Seq<Seq<ArtCellView>>;

/// Runs the text through a `vt100::Parser` of `rows` by `cols` cells and
/// reads back each visible cell: its text, colors and attributes. The cells
/// are named, not stated.
#[verifier::external_body]
fn terminal_screen(text: &str, rows: u16, cols: u16) -> (r: Vec<Vec<ArtCell>>)
    requires
        rows >= 1,
        cols >= 1,
    ensures
        art_rows_view(r@) == terminal_cells(text@, rows, cols),
{
    let mut parser = vt100::Parser::new(rows.try_into().unwrap(), cols.try_into().unwrap(), 0);
    parser.process(text.as_bytes());
    let color = |c| match c {
        VtDefault => TermColor::Default,
        VtIdx(i) => TermColor::Idx(i),
        VtRgb(r, g, b) => TermColor::Rgb(r, g, b)
    };
    (0..rows).map(|y| (0..cols).filter_map(|x| parser.screen().cell(y, x).map(|c| (c.contents().into(),
        color(c.fgcolor()), color(c.bgcolor()), c.bold(), c.italic(), c.underline()))).collect()).collect()
}

/// A cell of the art as the help screen draws it; a background of `None`
/// is the theme's.
pub struct StyledCell {
    pub text: String,
    pub fg: CellColor,
    pub bg: Option<CellColor>,
    pub bold: bool,
    pub italic: bool,
    pub underline: bool,
}

pub struct StyledView {
    pub text: Seq<char>,
    pub fg: CellColor,
    pub bg: Option<CellColor>,
    pub bold: bool,
    pub italic: bool,
    pub underline: bool,
}

impl View for StyledCell {
    type V = StyledView;

    open spec fn view(&self) -> StyledView {
        StyledView {
            text: self.text@,
            fg: self.fg,
            bg: self.bg,
            bold: self.bold,
            italic: self.italic,
            underline: self.underline,
        }
    }
}

pub open spec fn styled_rows_view(v: Seq<Vec<StyledCell>>) -> Seq<Seq<StyledView>> {
    v.map_values(|row: Vec<StyledCell>| row@.map_values(|c: StyledCell| c@))
}

/// How a terminal cell is drawn: an empty cell as a space, its colors
/// brightened, a blank or black background left to the theme.
pub open spec fn styled(c: ArtCellView) -> StyledView {
    let text = if c.contents.len() == 0 {
        seq![' ']
    } else {
        c.contents
    };
    StyledView {
        text,
        fg: drawn_color(c.fg),
        bg: background_of(text == seq![' '], drawn_color(c.bg)),
        bold: c.bold,
        italic: c.italic,
        underline: c.underline,
    }
}

pub open spec fn styled_art(cells: Seq<Seq<ArtCellView>>) -> Seq<Seq<StyledView>> {
    cells.map_values(|row: Seq<ArtCellView>| row.map_values(|c: ArtCellView| styled(c)))
}

fn style_cell(c: &ArtCell) -> (r: StyledCell)
    ensures
        r@ == styled(cell_view(*c)),
{
    let contents = chars_of(c.0.as_str());
    let text: Vec<char> = if contents.len() == 0 {
        vec![' ']
    } else {
        contents
    };
    let is_blank = text.len() == 1 && text[0] == ' ';
    proof {
        if text@.len() == 1 && text@[0] == ' ' {
            assert(text@ =~= seq![' ']);
        }
        if text@ == seq![' '] {
            assert(text@[0] == ' ');
        }
    }
    StyledCell {
        text: string_from_chars(text.as_slice()),
        fg: to_color(c.1),
        bg: cell_background(is_blank, to_color(c.2)),
        bold: c.3,
        italic: c.4,
        underline: c.5,
    }
}

/// The help screen's art, cell by cell: the file's bytes without their
/// SAUCE record, decoded from code page 437, custom color sequences made
/// standard, shown on a `rows` by `cols` virtual terminal.
pub fn art_lines(bytes: &[u8], rows: u16, cols: u16) -> (r: Vec<Vec<StyledCell>>)
    requires
        rows >= 1,
        cols >= 1,
    ensures
        styled_rows_view(r@) == styled_art(
            terminal_cells(standard_colors(cp437_text(without_sauce(bytes@))), rows, cols),
        ),
{
    let text = ansi_art_text(bytes);
    let standard = preprocess_custom_ansi(text.as_str());
    let cells = terminal_screen(standard.as_str(), rows, cols);
    let ghost cv = art_rows_view(cells@);
    let ghost want = styled_art(cv);
    let mut out: Vec<Vec<StyledCell>> = Vec::new();
    let mut i: usize = 0;
    while i < cells.len()
        invariant
            cv == art_rows_view(cells@),
            want == styled_art(cv),
            i <= cells@.len(),
            styled_rows_view(out@) == want.take(i as int),
        decreases cells@.len() - i,
    {
        let row = &cells[i];
        let ghost rv = cv[i as int];
        proof {
            assert(rv == row@.map_values(|c: ArtCell| cell_view(c)));
        }
        let mut line: Vec<StyledCell> = Vec::new();
        let mut j: usize = 0;
        while j < row.len()
            invariant
                rv == row@.map_values(|c: ArtCell| cell_view(c)),
                j <= row@.len(),
                line@.map_values(|c: StyledCell| c@) == rv.map_values(|c: ArtCellView| styled(c)).take(
                    j as int,
                ),
            decreases row@.len() - j,
        {
            let sc = style_cell(&row[j]);
            let ghost before = line@.map_values(|c: StyledCell| c@);
            line.push(sc);
            proof {
                assert(line@.map_values(|c: StyledCell| c@) =~= before.push(sc@));
                assert(rv.map_values(|c: ArtCellView| styled(c)).take(j + 1) =~= rv.map_values(
                    |c: ArtCellView| styled(c),
                ).take(j as int).push(styled(rv[j as int])));
            }
            j += 1;
        }
        proof {
            assert(rv.map_values(|c: ArtCellView| styled(c)).take(j as int) =~= rv.map_values(
                |c: ArtCellView| styled(c),
            ));
        }
        let ghost b2 = styled_rows_view(out@);
        let ghost lv = line@.map_values(|c: StyledCell| c@);
        out.push(line);
        proof {
            assert(styled_rows_view(out@) =~= b2.push(lv));
            assert(want[i as int] == lv);
            assert(want.take(i + 1) =~= want.take(i as int).push(want[i as int]));
        }
        i += 1;
    }
    proof {
        assert(want.take(i as int) =~= want);
    }
    out
}

} // verus!
