//! Color themes: the built-in ones, custom ones loaded from the settings, and
//! the current selection.
use vstd::prelude::*;
use crate::text::{chars_of, text_eq, text_lt, chars_lt, lemma_text_lt_transitive};

verus! {

/// A Base16 palette, each color as a `0xRRGGBB` value.
#[derive(Clone, Copy, Debug, PartialEq, Eq, Structural)]
pub struct Base16Palette {
    /// Background
    pub base_00: u32,
    /// Lighter background
    pub base_01: u32,
    /// Selection background
    pub base_02: u32,
    /// Comments, invisibles
    pub base_03: u32,
    /// Dark foreground
    pub base_04: u32,
    /// Default foreground
    pub base_05: u32,
    /// Light foreground
    pub base_06: u32,
    /// Light background
    pub base_07: u32,
    /// Red
    pub base_08: u32,
    /// Orange
    pub base_09: u32,
    /// Yellow
    pub base_0a: u32,
    /// Green
    pub base_0b: u32,
    /// Cyan
    pub base_0c: u32,
    /// Blue
    pub base_0d: u32,
    /// Purple
    pub base_0e: u32,
    /// Brown
    pub base_0f: u32,
}

pub open spec fn palette_of(c: Seq<u32>) -> Base16Palette
    recommends
        c.len() == 16,
{
    Base16Palette {
        base_00: c[0],
        base_01: c[1],
        base_02: c[2],
        base_03: c[3],
        base_04: c[4],
        base_05: c[5],
        base_06: c[6],
        base_07: c[7],
        base_08: c[8],
        base_09: c[9],
        base_0a: c[10],
        base_0b: c[11],
        base_0c: c[12],
        base_0d: c[13],
        base_0e: c[14],
        base_0f: c[15],
    }
}

fn palette_from(c: &Vec<u32>) -> (p: Base16Palette)
    requires
        c@.len() == 16,
    ensures
        p == palette_of(c@),
{
    Base16Palette {
        base_00: c[0],
        base_01: c[1],
        base_02: c[2],
        base_03: c[3],
        base_04: c[4],
        base_05: c[5],
        base_06: c[6],
        base_07: c[7],
        base_08: c[8],
        base_09: c[9],
        base_0a: c[10],
        base_0b: c[11],
        base_0c: c[12],
        base_0d: c[13],
        base_0e: c[14],
        base_0f: c[15],
    }
}

impl Base16Palette {
    /// Colors of the interface: border, title, text, selection background and
    /// selection text, for the content view or the library view.
    pub fn get_interface_colors(&self, is_content_mode: bool) -> (r: (u32, u32, u32, u32, u32))
        ensures
            r == if is_content_mode {
                (self.base_03, self.base_07, self.base_02, self.base_02, self.base_06)
            } else {
                (self.base_05, self.base_07, self.base_04, self.base_02, self.base_06)
            },
    {
        if is_content_mode {
            (self.base_03, self.base_07, self.base_02, self.base_02, self.base_06)
        } else {
            (self.base_05, self.base_07, self.base_04, self.base_02, self.base_06)
        }
    }

    /// Border, text and background colors of a panel.
    pub fn get_panel_colors(&self, is_focused: bool) -> (r: (u32, u32, u32))
        ensures
            r == if is_focused {
                (self.base_07, self.base_04, self.base_00)
            } else {
                (self.base_03, self.base_03, self.base_00)
            },
    {
        if is_focused {
            (self.base_07, self.base_04, self.base_00)
        } else {
            (self.base_03, self.base_03, self.base_00)
        }
    }

    /// Background and text colors of a selected line.
    pub fn get_selection_colors(&self, is_focused: bool) -> (r: (u32, u32))
        ensures
            r == if is_focused {
                (self.base_02, self.base_06)
            } else {
                (self.base_02, self.base_03)
            },
    {
        if is_focused {
            (self.base_02, self.base_06)
        } else {
            (self.base_02, self.base_03)
        }
    }
}

/// Built-in theme identifiers
#[derive(Clone, Copy, PartialEq, Eq, Debug, Structural)]
pub enum BuiltinTheme {
    OceanicNext,
    CatppuccinMocha,
    Kanagawa,
    KanagawaDragon,
}

pub open spec fn builtin_themes() -> Seq<BuiltinTheme> {
    seq![
        BuiltinTheme::OceanicNext,
        BuiltinTheme::CatppuccinMocha,
        BuiltinTheme::Kanagawa,
        BuiltinTheme::KanagawaDragon,
    ]
}

pub open spec fn builtin_name(t: BuiltinTheme) -> Seq<char> {
    match t {
        BuiltinTheme::OceanicNext => "Oceanic Next"@,
        BuiltinTheme::CatppuccinMocha => "Catppuccin Mocha"@,
        BuiltinTheme::Kanagawa => "Kanagawa"@,
        BuiltinTheme::KanagawaDragon => "Kanagawa Dragon"@,
    }
}

pub open spec fn builtin_palette(t: BuiltinTheme) -> Base16Palette {
    match t {
        BuiltinTheme::OceanicNext => palette_of(
            seq![
                0x1B2B34u32, 0x343D46, 0x4F5B66, 0x65737E, 0xA7ADBA, 0xC0C5CE, 0xCDD3DE, 0xF0F4F8,
                0xEC5F67, 0xF99157, 0xFAC863, 0x99C794, 0x5FB3B3, 0x6699CC, 0xC594C5, 0xAB7967,
            ],
        ),
        BuiltinTheme::CatppuccinMocha => palette_of(
            seq![
                0x1E1E2Eu32, 0x313244, 0x45475A, 0x6C7086, 0x7F849C, 0xA6ADC8, 0xCDD6F4, 0xF5E0DC,
                0xF38BA8, 0xFAB387, 0xF9E2AF, 0xA6E3A1, 0x94E2D5, 0x89B4FA, 0xCBA6F7, 0xEBA0AC,
            ],
        ),
        BuiltinTheme::Kanagawa => palette_of(
            seq![
                0x1F1F28u32, 0x2A2A37, 0x223249, 0x727169, 0xC8C093, 0xDCD7BA, 0xDCD7BA, 0xE6E0C2,
                0xC34043, 0xFFA066, 0xDCA561, 0x98BB6C, 0x7FB4CA, 0x7E9CD8, 0x957FB8, 0xD27E99,
            ],
        ),
        BuiltinTheme::KanagawaDragon => palette_of(
            seq![
                0x181616u32, 0x0d0c0c, 0x2d4f67, 0xa6a69c, 0x7fb4ca, 0xc5c9c5, 0xc5c9c5, 0xc5c9c5,
                0xc4746e, 0xe46876, 0xc4b28a, 0x8a9a7b, 0x8ea4a2, 0x8ba4b0, 0xa292a3, 0x7aa89f,
            ],
        ),
    }
}

impl BuiltinTheme {
    pub fn name(&self) -> (r: &'static str)
        ensures
            r@ == builtin_name(*self),
    {
        match self {
            BuiltinTheme::OceanicNext => "Oceanic Next",
            BuiltinTheme::CatppuccinMocha => "Catppuccin Mocha",
            BuiltinTheme::Kanagawa => "Kanagawa",
            BuiltinTheme::KanagawaDragon => "Kanagawa Dragon",
        }
    }

    pub fn palette(&self) -> (r: Base16Palette)
        ensures
            r == builtin_palette(*self),
    {
        let c: Vec<u32> = match self {
            BuiltinTheme::OceanicNext => vec![
                0x1B2B34u32, 0x343D46, 0x4F5B66, 0x65737E, 0xA7ADBA, 0xC0C5CE, 0xCDD3DE, 0xF0F4F8,
                0xEC5F67, 0xF99157, 0xFAC863, 0x99C794, 0x5FB3B3, 0x6699CC, 0xC594C5, 0xAB7967,
            ],
            BuiltinTheme::CatppuccinMocha => vec![
                0x1E1E2Eu32, 0x313244, 0x45475A, 0x6C7086, 0x7F849C, 0xA6ADC8, 0xCDD6F4, 0xF5E0DC,
                0xF38BA8, 0xFAB387, 0xF9E2AF, 0xA6E3A1, 0x94E2D5, 0x89B4FA, 0xCBA6F7, 0xEBA0AC,
            ],
            BuiltinTheme::Kanagawa => vec![
                0x1F1F28u32, 0x2A2A37, 0x223249, 0x727169, 0xC8C093, 0xDCD7BA, 0xDCD7BA, 0xE6E0C2,
                0xC34043, 0xFFA066, 0xDCA561, 0x98BB6C, 0x7FB4CA, 0x7E9CD8, 0x957FB8, 0xD27E99,
            ],
            BuiltinTheme::KanagawaDragon => vec![
                0x181616u32, 0x0d0c0c, 0x2d4f67, 0xa6a69c, 0x7fb4ca, 0xc5c9c5, 0xc5c9c5, 0xc5c9c5,
                0xc4746e, 0xe46876, 0xc4b28a, 0x8a9a7b, 0x8ea4a2, 0x8ba4b0, 0xa292a3, 0x7aa89f,
            ],
        };
        proof {
            assert(c@.len() == 16);
        }
        let p = palette_from(&c);
        proof {
            let s = c@;
            match self {
                BuiltinTheme::OceanicNext => {
                    assert(s =~= seq![
                        0x1B2B34u32, 0x343D46, 0x4F5B66, 0x65737E, 0xA7ADBA, 0xC0C5CE, 0xCDD3DE,
                        0xF0F4F8, 0xEC5F67, 0xF99157, 0xFAC863, 0x99C794, 0x5FB3B3, 0x6699CC,
                        0xC594C5, 0xAB7967,
                    ]);
                },
                BuiltinTheme::CatppuccinMocha => {
                    assert(s =~= seq![
                        0x1E1E2Eu32, 0x313244, 0x45475A, 0x6C7086, 0x7F849C, 0xA6ADC8, 0xCDD6F4,
                        0xF5E0DC, 0xF38BA8, 0xFAB387, 0xF9E2AF, 0xA6E3A1, 0x94E2D5, 0x89B4FA,
                        0xCBA6F7, 0xEBA0AC,
                    ]);
                },
                BuiltinTheme::Kanagawa => {
                    assert(s =~= seq![
                        0x1F1F28u32, 0x2A2A37, 0x223249, 0x727169, 0xC8C093, 0xDCD7BA, 0xDCD7BA,
                        0xE6E0C2, 0xC34043, 0xFFA066, 0xDCA561, 0x98BB6C, 0x7FB4CA, 0x7E9CD8,
                        0x957FB8, 0xD27E99,
                    ]);
                },
                BuiltinTheme::KanagawaDragon => {
                    assert(s =~= seq![
                        0x181616u32, 0x0d0c0c, 0x2d4f67, 0xa6a69c, 0x7fb4ca, 0xc5c9c5, 0xc5c9c5,
                        0xc5c9c5, 0xc4746e, 0xe46876, 0xc4b28a, 0x8a9a7b, 0x8ea4a2, 0x8ba4b0,
                        0xa292a3, 0x7aa89f,
                    ]);
                },
            }
        }
        p
    }

    pub fn all() -> (r: [BuiltinTheme; 4])
        ensures
            r@ == builtin_themes(),
    {
        let r = [
            BuiltinTheme::OceanicNext,
            BuiltinTheme::CatppuccinMocha,
            BuiltinTheme::Kanagawa,
            BuiltinTheme::KanagawaDragon,
        ];
        proof {
            assert(r@ =~= builtin_themes());
        }
        r
    }
}

/// Why a color value was refused (the kinds of `u32::from_str_radix` errors).
#[derive(Clone, Copy, Debug, PartialEq, Eq, Structural)]
pub enum ColorParseError {
    /// Nothing left after the leading `#` signs.
    Empty,
    /// A character that is no hexadecimal digit.
    InvalidDigit,
    /// More than 32 bits.
    Overflow,
}

/// The text without its leading `#` signs.
pub open spec fn strip_hashes(s: Seq<char>) -> Seq<char>
    decreases s.len(),
{
    if s.len() > 0 && s[0] == '#' {
        strip_hashes(s.drop_first())
    } else {
        s
    }
}

pub open spec fn hex_digit_value(c: char) -> Option<int> {
    let v = c as int;
    if 48 <= v <= 57 {
        Some(v - 48)
    } else if 97 <= v <= 102 {
        Some(v - 87)
    } else if 65 <= v <= 70 {
        Some(v - 55)
    } else {
        None
    }
}

/// The value of hexadecimal digits read from the left: the first bad digit,
/// or the first digit that makes the value exceed 32 bits, stops the reading.
pub open spec fn hex_digits_value(d: Seq<char>) -> Result<int, ColorParseError>
    decreases d.len(),
{
    if d.len() == 0 {
        Ok(0)
    } else {
        match hex_digits_value(d.drop_last()) {
            Err(e) => Err(e),
            Ok(v) => match hex_digit_value(d.last()) {
                None => Err(ColorParseError::InvalidDigit),
                Some(x) => if v * 16 + x > u32::MAX {
                    Err(ColorParseError::Overflow)
                } else {
                    Ok(v * 16 + x)
                },
            },
        }
    }
}

/// `u32::from_str_radix(s, 16)`: one leading `+` is allowed before at least
/// one digit.
pub open spec fn hex_u32(s: Seq<char>) -> Result<int, ColorParseError> {
    if s.len() == 0 {
        Err(ColorParseError::Empty)
    } else if s.len() == 1 && (s[0] == '+' || s[0] == '-') {
        Err(ColorParseError::InvalidDigit)
    } else if s[0] == '+' {
        hex_digits_value(s.drop_first())
    } else {
        hex_digits_value(s)
    }
}

pub open spec fn color_value(hex: Seq<char>) -> Result<int, ColorParseError> {
    hex_u32(strip_hashes(hex))
}

pub proof fn lemma_hex_digits_value_range(d: Seq<char>)
    ensures
        hex_digits_value(d) matches Ok(v) ==> 0 <= v <= u32::MAX,
    decreases d.len(),
{
    if d.len() > 0 {
        lemma_hex_digits_value_range(d.drop_last());
    }
}

fn hex_digit(c: char) -> (r: Option<u32>)
    ensures
        match hex_digit_value(c) {
            Some(v) => r == Some(v as u32),
            None => r is None,
        },
{
    if '0' <= c && c <= '9' {
        Some((c as u32) - 48)
    } else if 'a' <= c && c <= 'f' {
        Some((c as u32) - 87)
    } else if 'A' <= c && c <= 'F' {
        Some((c as u32) - 55)
    } else {
        None
    }
}

/// Parses a color written in hexadecimal, with any number of leading `#` signs.
pub fn parse_hex_color(hex: &str) -> (r: Result<u32, ColorParseError>)
    ensures
        match color_value(hex@) {
            Ok(v) => r == Ok::<u32, ColorParseError>(v as u32),
            Err(e) => r == Err::<u32, ColorParseError>(e),
        },
{
    let chars = chars_of(hex);
    let n = chars.len();
    let mut start: usize = 0;
    proof {
        assert(chars@.skip(0) =~= chars@);
    }
    while start < n && chars[start] == '#'
        invariant
            n == chars@.len(),
            start <= n,
            strip_hashes(hex@) == strip_hashes(chars@.skip(start as int)),
        decreases n - start,
    {
        proof {
            assert(chars@.skip(start as int).drop_first() =~= chars@.skip(start + 1));
        }
        start += 1;
    }
    let ghost s = chars@.skip(start as int);
    proof {
        assert(strip_hashes(hex@) == s);
    }
    if start == n {
        return Err(ColorParseError::Empty);
    }
    if n - start == 1 && (chars[start] == '+' || chars[start] == '-') {
        return Err(ColorParseError::InvalidDigit);
    }
    let first = if chars[start] == '+' {
        start + 1
    } else {
        start
    };
    let ghost d = chars@.skip(first as int);
    proof {
        if chars[start as int] == '+' {
            assert(d =~= s.drop_first());
        } else {
            assert(d =~= s);
        }
        assert(color_value(hex@) == hex_digits_value(d));
    }
    let mut value: u32 = 0;
    let mut k: usize = first;
    proof {
        assert(d.take(0) =~= Seq::<char>::empty());
    }
    while k < n
        invariant
            n == chars@.len(),
            first <= k <= n,
            d == chars@.skip(first as int),
            color_value(hex@) == hex_digits_value(d),
            hex_digits_value(d.take(k - first)) == Ok::<int, ColorParseError>(value as int),
        decreases n - k,
    {
        let c = chars[k];
        proof {
            assert(d.take(k - first + 1).drop_last() =~= d.take(k - first));
            assert(d.take(k - first + 1).last() == c);
        }
        match hex_digit(c) {
            None => {
                proof {
                    lemma_hex_digits_prefix_err(d, k - first + 1);
                }
                return Err(ColorParseError::InvalidDigit);
            },
            Some(x) => {
                if value > 0x0fff_ffff || (value == 0x0fff_ffff && x > 15) {
                    proof {
                        lemma_hex_digits_prefix_err(d, k - first + 1);
                    }
                    return Err(ColorParseError::Overflow);
                }
                value = value * 16 + x;
            },
        }
        k += 1;
    }
    proof {
        assert(d.take(k - first) =~= d);
    }
    Ok(value)
}

/// Once a prefix of the digits fails, all of them fail the same way.
proof fn lemma_hex_digits_prefix_err(d: Seq<char>, m: int)
    requires
        0 <= m <= d.len(),
        hex_digits_value(d.take(m)) is Err,
    ensures
        hex_digits_value(d) == hex_digits_value(d.take(m)),
    decreases d.len() - m,
{
    if m < d.len() {
        assert(d.take(m + 1).drop_last() =~= d.take(m));
        lemma_hex_digits_prefix_err(d, m + 1);
    } else {
        assert(d.take(m) =~= d);
    }
}

/// A named theme with its palette.
pub struct Theme {
    pub name: String,
    pub palette: Base16Palette,
    pub is_builtin: bool,
}

/// A custom theme as the settings hold it: a name and sixteen colors in
/// hexadecimal.
pub struct ThemeSource {
    pub scheme: String,
    pub base00: String,
    pub base01: String,
    pub base02: String,
    pub base03: String,
    pub base04: String,
    pub base05: String,
    pub base06: String,
    pub base07: String,
    pub base08: String,
    pub base09: String,
    pub base0a: String,
    pub base0b: String,
    pub base0c: String,
    pub base0d: String,
    pub base0e: String,
    pub base0f: String,
}

impl ThemeSource {
    pub open spec fn colors(&self) -> Seq<Seq<char>> {
        seq![
            self.base00@, self.base01@, self.base02@, self.base03@, self.base04@, self.base05@,
            self.base06@, self.base07@, self.base08@, self.base09@, self.base0a@, self.base0b@,
            self.base0c@, self.base0d@, self.base0e@, self.base0f@,
        ]
    }
}

/// The values of the colors, in order, or the first refusal.
pub open spec fn color_values(c: Seq<Seq<char>>) -> Result<Seq<u32>, ColorParseError>
    decreases c.len(),
{
    if c.len() == 0 {
        Ok(Seq::empty())
    } else {
        match color_values(c.drop_last()) {
            Err(e) => Err(e),
            Ok(vs) => match color_value(c.last()) {
                Err(e) => Err(e),
                Ok(v) => Ok(vs.push(v as u32)),
            },
        }
    }
}

pub proof fn lemma_color_values_len(c: Seq<Seq<char>>)
    ensures
        color_values(c) matches Ok(vs) ==> vs.len() == c.len(),
    decreases c.len(),
{
    if c.len() > 0 {
        lemma_color_values_len(c.drop_last());
    }
}

pub struct ThemeView {
    pub name: Seq<char>,
    pub palette: Base16Palette,
}

impl View for Theme {
    type V = ThemeView;

    open spec fn view(&self) -> ThemeView {
        ThemeView { name: self.name@, palette: self.palette }
    }
}

/// The custom theme a source describes, or the first color it fails on.
pub open spec fn theme_from_source(src: &ThemeSource) -> Result<ThemeView, ColorParseError> {
    match color_values(src.colors()) {
        Err(e) => Err(e),
        Ok(vs) => Ok(ThemeView { name: src.scheme@, palette: palette_of(vs) }),
    }
}

/// Reads the custom theme of a settings entry.
pub fn theme_from_yaml(src: &ThemeSource) -> (r: Result<Theme, ColorParseError>)
    ensures
        match theme_from_source(src) {
            Ok(t) => r matches Ok(x) && x@ == t && !x.is_builtin,
            Err(e) => r == Err::<Theme, ColorParseError>(e),
        },
{
    let texts: Vec<&str> = vec![
        src.base00.as_str(),
        src.base01.as_str(),
        src.base02.as_str(),
        src.base03.as_str(),
        src.base04.as_str(),
        src.base05.as_str(),
        src.base06.as_str(),
        src.base07.as_str(),
        src.base08.as_str(),
        src.base09.as_str(),
        src.base0a.as_str(),
        src.base0b.as_str(),
        src.base0c.as_str(),
        src.base0d.as_str(),
        src.base0e.as_str(),
        src.base0f.as_str(),
    ];
    let ghost cs = src.colors();
    proof {
        assert(texts@.map_values(|t: &str| t@) =~= cs);
    }
    let mut values: Vec<u32> = Vec::new();
    let mut k: usize = 0;
    proof {
        assert(cs.take(0) =~= Seq::<Seq<char>>::empty());
    }
    while k < 16
        invariant
            texts@.len() == 16,
            texts@.map_values(|t: &str| t@) == cs,
            cs == src.colors(),
            cs.len() == 16,
            k <= 16,
            color_values(cs.take(k as int)) == Ok::<Seq<u32>, ColorParseError>(values@),
        decreases 16 - k,
    {
        proof {
            assert(cs.take(k + 1).drop_last() =~= cs.take(k as int));
            assert(cs.take(k + 1).last() == texts@[k as int]@);
        }
        match parse_hex_color(texts[k]) {
            Err(e) => {
                proof {
                    lemma_color_values_prefix_err(cs, k + 1);
                }
                return Err(e);
            },
            Ok(v) => {
                values.push(v);
            },
        }
        k += 1;
    }
    proof {
        assert(cs.take(16) =~= cs);
        lemma_color_values_len(cs);
    }
    let palette = palette_from(&values);
    Ok(Theme { name: src.scheme.clone(), palette, is_builtin: false })
}

proof fn lemma_color_values_prefix_err(c: Seq<Seq<char>>, m: int)
    requires
        0 <= m <= c.len(),
        color_values(c.take(m)) is Err,
    ensures
        color_values(c) == color_values(c.take(m)),
    decreases c.len() - m,
{
    if m < c.len() {
        assert(c.take(m + 1).drop_last() =~= c.take(m));
        lemma_color_values_prefix_err(c, m + 1);
    } else {
        assert(c.take(m) =~= c);
    }
}

/// The custom themes that parse, in the order of their sources.
pub open spec fn parsed_themes(srcs: Seq<ThemeSource>) -> Seq<ThemeView>
    decreases srcs.len(),
{
    if srcs.len() == 0 {
        Seq::empty()
    } else {
        let rest = parsed_themes(srcs.drop_last());
        match theme_from_source(&srcs.last()) {
            Ok(t) => rest.push(t),
            Err(_) => rest,
        }
    }
}

pub proof fn lemma_parsed_themes_len(srcs: Seq<ThemeSource>)
    ensures
        parsed_themes(srcs).len() <= srcs.len(),
    decreases srcs.len(),
{
    if srcs.len() > 0 {
        lemma_parsed_themes_len(srcs.drop_last());
    }
}

/// Where a theme goes into themes sorted by name: after every theme whose name
/// does not come after its name.
pub open spec fn name_pos(s: Seq<ThemeView>, t: ThemeView) -> int
    decreases s.len(),
{
    if s.len() == 0 {
        0
    } else if text_lt(t.name, s[0].name) {
        0
    } else {
        1 + name_pos(s.drop_first(), t)
    }
}

/// The stable sort of the themes by name.
pub open spec fn sorted_by_name(s: Seq<ThemeView>) -> Seq<ThemeView>
    decreases s.len(),
{
    if s.len() == 0 {
        s
    } else {
        let t = sorted_by_name(s.drop_last());
        t.insert(name_pos(t, s.last()), s.last())
    }
}

pub open spec fn names_in_order(s: Seq<ThemeView>) -> bool {
    forall|i: int, j: int| 0 <= i < j < s.len() ==> !text_lt(#[trigger] s[j].name, #[trigger] s[i].name)
}

pub proof fn lemma_name_pos(s: Seq<ThemeView>, t: ThemeView)
    ensures
        0 <= name_pos(s, t) <= s.len(),
        forall|j: int| 0 <= j < name_pos(s, t) ==> !text_lt(t.name, #[trigger] s[j].name),
        name_pos(s, t) < s.len() ==> text_lt(t.name, s[name_pos(s, t)].name),
    decreases s.len(),
{
    if s.len() > 0 && !text_lt(t.name, s[0].name) {
        lemma_name_pos(s.drop_first(), t);
        assert forall|j: int| 0 < j < s.len() implies s[j] == s.drop_first()[j - 1] by {}
    }
}

/// The sorted themes are the same themes, in name order.
pub proof fn lemma_sorted_by_name(s: Seq<ThemeView>)
    ensures
        names_in_order(sorted_by_name(s)),
        sorted_by_name(s).to_multiset() == s.to_multiset(),
        sorted_by_name(s).len() == s.len(),
    decreases s.len(),
{
    broadcast use vstd::seq_lib::to_multiset_build, vstd::seq_lib::to_multiset_insert;

    if s.len() > 0 {
        let t = sorted_by_name(s.drop_last());
        let c = s.last();
        lemma_sorted_by_name(s.drop_last());
        lemma_name_pos(t, c);
        let p = name_pos(t, c);
        let r = t.insert(p, c);
        assert forall|i: int, j: int| 0 <= i < j < r.len() implies !text_lt(
            #[trigger] r[j].name,
            #[trigger] r[i].name,
        ) by {
            if j < p {
                assert(r[i] == t[i] && r[j] == t[j]);
            } else if j == p {
                assert(r[i] == t[i]);
            } else if i > p {
                assert(r[i] == t[i - 1] && r[j] == t[j - 1]);
            } else if i == p {
                assert(r[j] == t[j - 1]);
                if text_lt(t[j - 1].name, c.name) {
                    lemma_text_lt_transitive(t[j - 1].name, c.name, t[p].name);
                    if j - 1 == p {
                        crate::text::lemma_text_lt_irreflexive(t[p].name);
                    }
                }
            } else {
                assert(r[i] == t[i] && r[j] == t[j - 1]);
            }
        }
        assert(s.drop_last().push(s.last()) =~= s);
    }
}

/// The names of all themes: the built-in ones, then the custom ones.
pub open spec fn theme_names(custom: Seq<ThemeView>) -> Seq<Seq<char>> {
    seq!["Oceanic Next"@, "Catppuccin Mocha"@, "Kanagawa"@, "Kanagawa Dragon"@] + custom.map_values(
        |t: ThemeView| t.name,
    )
}

/// The name at an index, `Unknown` past the last theme.
pub open spec fn name_at(custom: Seq<ThemeView>, index: int) -> Seq<char> {
    if 0 <= index < theme_names(custom).len() {
        theme_names(custom)[index]
    } else {
        "Unknown"@
    }
}

/// Index of the first theme with the name.
pub open spec fn index_of_name(names: Seq<Seq<char>>, name: Seq<char>) -> Option<int>
    decreases names.len(),
{
    if names.len() == 0 {
        None
    } else if names[0] == name {
        Some(0)
    } else {
        match index_of_name(names.drop_first(), name) {
            Some(i) => Some(i + 1),
            None => None,
        }
    }
}

pub proof fn lemma_index_of_name(names: Seq<Seq<char>>, name: Seq<char>)
    ensures
        match index_of_name(names, name) {
            Some(i) => 0 <= i < names.len() && names[i] == name && forall|j: int|
                0 <= j < i ==> #[trigger] names[j] != name,
            None => forall|j: int| 0 <= j < names.len() ==> #[trigger] names[j] != name,
        },
    decreases names.len(),
{
    if names.len() > 0 {
        lemma_index_of_name(names.drop_first(), name);
        assert forall|j: int| 0 < j < names.len() implies names[j] == names.drop_first()[j - 1] by {}
    }
}

/// The palette at an index: built-in, custom, or the first built-in one past
/// the last theme.
pub open spec fn palette_at(custom: Seq<ThemeView>, index: int) -> Base16Palette {
    if 0 <= index < 4 {
        builtin_palette(builtin_themes()[index])
    } else if 4 <= index < 4 + custom.len() {
        custom[index - 4].palette
    } else {
        builtin_palette(BuiltinTheme::OceanicNext)
    }
}

pub open spec fn themes_view(s: Seq<Theme>) -> Seq<ThemeView> {
    s.map_values(|t: Theme| t@)
}

/// The themes known to the reader and the index of the one in use.
pub struct ThemeRegistry {
    custom: Vec<Theme>,
    current: usize,
}

impl ThemeRegistry {
    #[verifier::type_invariant]
    closed spec fn bounded(self) -> bool {
        self.custom@.len() + 4 <= usize::MAX
    }

    pub closed spec fn custom_themes(self) -> Seq<ThemeView> {
        themes_view(self.custom@)
    }

    pub closed spec fn current(self) -> nat {
        self.current as nat
    }

    /// The built-in themes only, the first one selected.
    pub fn new() -> (r: Self)
        ensures
            r.custom_themes() == Seq::<ThemeView>::empty(),
            r.current() == 0,
    {
        let r = ThemeRegistry { custom: Vec::new(), current: 0 };
        proof {
            assert(r.custom_themes() =~= Seq::<ThemeView>::empty());
        }
        r
    }
}

fn sort_themes_by_name(themes: Vec<Theme>) -> (r: Vec<Theme>)
    ensures
        themes_view(r@) == sorted_by_name(themes_view(themes@)),
{
    let ghost orig = themes_view(themes@);
    let mut src = themes;
    let mut out: Vec<Theme> = Vec::new();
    let ghost mut k: int = 0;
    proof {
        assert(orig.take(0) =~= Seq::<ThemeView>::empty());
        assert(themes_view(out@) =~= Seq::<ThemeView>::empty());
        assert(themes_view(src@) =~= orig.skip(0));
    }
    while src.len() > 0
        invariant
            0 <= k <= orig.len(),
            themes_view(out@) == sorted_by_name(orig.take(k)),
            themes_view(src@) == orig.skip(k),
        decreases src@.len(),
    {
        let ghost before_src = src@;
        proof {
            assert(themes_view(before_src).len() > 0);
            assert(k < orig.len());
        }
        let t = src.remove(0);
        proof {
            assert(orig.skip(k)[0] == themes_view(before_src)[0]);
            assert forall|j: int| 0 <= j < src@.len() implies #[trigger] themes_view(src@)[j] == orig.skip(k + 1)[j] by {
                assert(src@[j] == before_src[j + 1]);
                assert(themes_view(before_src)[j + 1] == orig.skip(k)[j + 1]);
            }
            assert(themes_view(src@) =~= orig.skip(k + 1));
            assert(orig.take(k + 1).drop_last() =~= orig.take(k));
            assert(orig.take(k + 1).last() == t@);
        }
        let ghost ov = themes_view(out@);
        let tn = chars_of(t.name.as_str());
        let mut p: usize = 0;
        while p < out.len() && !chars_lt(tn.as_slice(), chars_of(out[p].name.as_str()).as_slice())
            invariant
                ov == themes_view(out@),
                tn@ == t@.name,
                p <= out@.len(),
                forall|j: int| 0 <= j < p ==> !text_lt(t@.name, #[trigger] ov[j].name),
            decreases out@.len() - p,
        {
            p += 1;
        }
        proof {
            lemma_name_pos(ov, t@);
            let q = name_pos(ov, t@);
            if q < p {
                assert(!text_lt(t@.name, ov[q].name));
            }
            if p < q {
                assert(text_lt(t@.name, ov[p as int].name));
            }
        }
        let ghost before = out@;
        let ghost tv = t@;
        out.insert(p, t);
        proof {
            assert(themes_view(out@) =~= ov.insert(p as int, tv));
            k = k + 1;
        }
    }
    proof {
        assert(orig.skip(k).len() == 0);
        assert(orig.take(k) =~= orig);
    }
    out
}

/// Loads the custom themes of the settings, sorted by name (those with a bad
/// color are left out), and selects the saved theme when it exists.
pub fn load_custom_themes(registry: &mut ThemeRegistry, sources: &Vec<ThemeSource>, saved_theme: &str)
    requires
        sources@.len() + 4 <= usize::MAX,
    ensures
        final(registry).custom_themes() == sorted_by_name(parsed_themes(sources@)),
        final(registry).current() == match index_of_name(
            theme_names(final(registry).custom_themes()),
            saved_theme@,
        ) {
            Some(i) => i as nat,
            None => old(registry).current(),
        },
{
    let mut parsed: Vec<Theme> = Vec::new();
    let mut k: usize = 0;
    proof {
        assert(sources@.take(0) =~= Seq::<ThemeSource>::empty());
        assert(themes_view(parsed@) =~= Seq::<ThemeView>::empty());
    }
    while k < sources.len()
        invariant
            k <= sources@.len(),
            themes_view(parsed@) == parsed_themes(sources@.take(k as int)),
        decreases sources@.len() - k,
    {
        proof {
            assert(sources@.take(k + 1).drop_last() =~= sources@.take(k as int));
            assert(sources@.take(k + 1).last() == sources@[k as int]);
        }
        match theme_from_yaml(&sources[k]) {
            Ok(t) => {
                let ghost before = parsed@;
                parsed.push(t);
                proof {
                    assert(themes_view(parsed@) =~= themes_view(before).push(
                        parsed@.last()@,
                    ));
                }
            },
            Err(_) => {},
        }
        k += 1;
    }
    proof {
        assert(sources@.take(k as int) =~= sources@);
        lemma_parsed_themes_len(sources@);
    }
    let sorted = sort_themes_by_name(parsed);
    proof {
        lemma_sorted_by_name(parsed_themes(sources@));
    }
    let old_current = registry.current;
    *registry = ThemeRegistry { custom: sorted, current: old_current };
    match get_theme_index_by_name(registry, saved_theme) {
        Some(i) => {
            proof {
                use_type_invariant(&*registry);
            }
            registry.current = i;
        },
        None => {},
    }
}

/// Get total number of available themes (built-in + custom)
pub fn theme_count(registry: &ThemeRegistry) -> (n: usize)
    ensures
        n == theme_names(registry.custom_themes()).len(),
{
    proof {
        use_type_invariant(registry);
    }
    4 + registry.custom.len()
}

/// Get theme name by index
pub fn theme_name(registry: &ThemeRegistry, index: usize) -> (r: String)
    ensures
        r@ == name_at(registry.custom_themes(), index as int),
{
    proof {
        use_type_invariant(registry);
    }
    if index < 4 {
        let all = BuiltinTheme::all();
        let t = all[index];
        String::from_str(t.name())
    } else if index - 4 < registry.custom.len() {
        registry.custom[index - 4].name.clone()
    } else {
        String::from_str("Unknown")
    }
}

/// Get all theme names
pub fn all_theme_names(registry: &ThemeRegistry) -> (r: Vec<String>)
    ensures
        r@.map_values(|s: String| s@) == theme_names(registry.custom_themes()),
{
    let ghost cv = registry.custom_themes();
    let mut names: Vec<String> = Vec::new();
    names.push(String::from_str("Oceanic Next"));
    names.push(String::from_str("Catppuccin Mocha"));
    names.push(String::from_str("Kanagawa"));
    names.push(String::from_str("Kanagawa Dragon"));
    let mut k: usize = 0;
    while k < registry.custom.len()
        invariant
            cv == registry.custom_themes(),
            k <= registry.custom@.len(),
            names@.map_values(|s: String| s@) == theme_names(cv).take(4 + k),
        decreases registry.custom@.len() - k,
    {
        let ghost before = names@;
        names.push(registry.custom[k].name.clone());
        proof {
            assert(cv[k as int] == registry.custom@[k as int]@);
            assert(theme_names(cv)[4 + k] == cv[k as int].name);
            assert(names@.map_values(|s: String| s@) =~= before.map_values(|s: String| s@).push(
                cv[k as int].name,
            ));
            assert(names@.map_values(|s: String| s@) =~= theme_names(cv).take(4 + k + 1));
        }
        k += 1;
    }
    proof {
        assert(theme_names(cv).take(4 + k) =~= theme_names(cv));
    }
    names
}

/// Get current theme index
pub fn current_theme_index(registry: &ThemeRegistry) -> (i: usize)
    ensures
        i == registry.current(),
{
    registry.current
}

/// Set theme by index; an index past the last theme changes nothing.
pub fn set_theme_by_index(registry: &mut ThemeRegistry, index: usize)
    ensures
        final(registry).custom_themes() == old(registry).custom_themes(),
        final(registry).current() == if index < theme_names(old(registry).custom_themes()).len() {
            index as nat
        } else {
            old(registry).current()
        },
{
    if index < theme_count(registry) {
        proof {
            use_type_invariant(&*registry);
        }
        registry.current = index;
    }
}

/// Get theme index by name
pub fn get_theme_index_by_name(registry: &ThemeRegistry, name: &str) -> (r: Option<usize>)
    ensures
        match index_of_name(theme_names(registry.custom_themes()), name@) {
            Some(i) => r matches Some(k) && k as int == i,
            None => r is None,
        },
{
    proof {
        use_type_invariant(registry);
    }
    let ghost names = theme_names(registry.custom_themes());
    proof {
        lemma_index_of_name(names, name@);
        reveal_strlit("Oceanic Next");
        reveal_strlit("Catppuccin Mocha");
        reveal_strlit("Kanagawa");
        reveal_strlit("Kanagawa Dragon");
    }
    let all = BuiltinTheme::all();
    let mut i: usize = 0;
    while i < 4
        invariant
            all@ == builtin_themes(),
            names == theme_names(registry.custom_themes()),
            i <= 4,
            forall|j: int| 0 <= j < i ==> #[trigger] names[j] != name@,
        decreases 4 - i,
    {
        let t = all[i];
        if text_eq(t.name(), name) {
            proof {
                assert(names[i as int] == name@);
                lemma_index_of_name(names, name@);
                match index_of_name(names, name@) {
                    Some(q) => {
                        if q < i {
                            assert(names[q] != name@);
                        }
                    },
                    None => {},
                }
            }
            return Some(i);
        }
        i += 1;
    }
    let mut k: usize = 0;
    while k < registry.custom.len()
        invariant
            names == theme_names(registry.custom_themes()),
            registry.custom@.len() + 4 <= usize::MAX,
            k <= registry.custom@.len(),
            forall|j: int| 0 <= j < 4 + k ==> #[trigger] names[j] != name@,
        decreases registry.custom@.len() - k,
    {
        if text_eq(registry.custom[k].name.as_str(), name) {
            proof {
                assert(names[4 + k] == name@);
                lemma_index_of_name(names, name@);
                match index_of_name(names, name@) {
                    Some(q) => {
                        if q < 4 + k {
                            assert(names[q] != name@);
                        }
                    },
                    None => {},
                }
            }
            return Some(4 + k);
        }
        k += 1;
    }
    None
}

/// Selects the theme with the name; tells whether there is one. The caller
/// saves the name in the settings when it was found.
pub fn set_theme_by_name(registry: &mut ThemeRegistry, name: &str) -> (found: bool)
    ensures
        final(registry).custom_themes() == old(registry).custom_themes(),
        found == index_of_name(theme_names(old(registry).custom_themes()), name@) is Some,
        final(registry).current() == match index_of_name(
            theme_names(old(registry).custom_themes()),
            name@,
        ) {
            Some(i) => i as nat,
            None => old(registry).current(),
        },
{
    match get_theme_index_by_name(registry, name) {
        Some(index) => {
            proof {
                use_type_invariant(&*registry);
            }
            registry.current = index;
            true
        },
        None => false,
    }
}

/// Selects the theme at the index and gives its name, for the caller to save
/// in the settings; an index past the last theme changes nothing.
pub fn set_theme_by_index_and_save(registry: &mut ThemeRegistry, index: usize) -> (saved: Option<
    String,
>)
    ensures
        final(registry).custom_themes() == old(registry).custom_themes(),
        index < theme_names(old(registry).custom_themes()).len() ==> (final(registry).current()
            == index && (saved matches Some(n) && n@ == name_at(
            old(registry).custom_themes(),
            index as int,
        ))),
        index >= theme_names(old(registry).custom_themes()).len() ==> final(registry).current()
            == old(registry).current() && saved is None,
{
    if index < theme_count(registry) {
        proof {
            use_type_invariant(&*registry);
        }
        registry.current = index;
        Some(theme_name(registry, index))
    } else {
        None
    }
}

/// Get current theme name
pub fn current_theme_name(registry: &ThemeRegistry) -> (r: String)
    ensures
        r@ == name_at(registry.custom_themes(), registry.current() as int),
{
    theme_name(registry, current_theme_index(registry))
}

/// The palette of the current theme.
pub fn current_theme(registry: &ThemeRegistry) -> (p: Base16Palette)
    ensures
        p == palette_at(registry.custom_themes(), registry.current() as int),
{
    proof {
        use_type_invariant(registry);
    }
    let index = registry.current;
    if index < 4 {
        let all = BuiltinTheme::all();
        all[index].palette()
    } else if index - 4 < registry.custom.len() {
        registry.custom[index - 4].palette
    } else {
        BuiltinTheme::OceanicNext.palette()
    }
}

/// Looking a theme up by name finds a theme of that name, and the first one:
/// selecting by name and reading the current name back gives the name.
pub proof fn law_find_by_name(custom: Seq<ThemeView>, name: Seq<char>)
    ensures
        match index_of_name(theme_names(custom), name) {
            Some(i) => name_at(custom, i) == name && forall|j: int|
                0 <= j < i ==> #[trigger] name_at(custom, j) != name,
            None => forall|j: int|
                0 <= j < theme_names(custom).len() ==> #[trigger] name_at(custom, j) != name,
        },
{
    lemma_index_of_name(theme_names(custom), name);
}

/// Every listed theme is found again by its name, at or before its index.
pub proof fn law_name_found_again(custom: Seq<ThemeView>, index: int)
    requires
        0 <= index < theme_names(custom).len(),
    ensures
        index_of_name(theme_names(custom), name_at(custom, index)) matches Some(j) && j <= index
            && name_at(custom, j) == name_at(custom, index),
{
    lemma_index_of_name(theme_names(custom), name_at(custom, index));
}

/// Loaded custom themes are exactly the sources that parse, ordered by name.
pub proof fn law_loaded_themes(sources: Seq<ThemeSource>)
    ensures
        names_in_order(sorted_by_name(parsed_themes(sources))),
        sorted_by_name(parsed_themes(sources)).to_multiset() == parsed_themes(sources).to_multiset(),
{
    lemma_sorted_by_name(parsed_themes(sources));
}

} // verus!
