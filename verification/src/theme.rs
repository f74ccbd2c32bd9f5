//! Colour tokens: 8-bit sRGB colours and their `#RGB`-style hex notation,
//! the built-in colour schemes, accent tinting, corner styles and the
//! user's appearance selection.

use vstd::prelude::*;
use vstd::string::StringSliceAdditionalSpecFns;
use vstd::string::StrSliceExecFns;
use vstd::string::StringExecFns;
use vstd::utf8::encode_utf8;

verus! {

/// An 8-bit sRGB color with alpha.
#[derive(Clone, Copy, Debug, PartialEq, Eq, Hash, Structural)]
pub struct Color {
    pub r: u8,
    pub g: u8,
    pub b: u8,
    pub a: u8,
}

/// One channel moved 15% of the way from `from` toward `to`, rounded half
/// up, which is exactly what the single-precision blend
/// `from + (to - from) * 0.15` rounds to for every pair of bytes.
pub open spec fn tint_channel(from: u8, to: u8) -> u8 {
    ((17 * from + 3 * to + 10) / 20) as u8
}

impl Color {
    /// An opaque colour.
    pub fn rgb(r: u8, g: u8, b: u8) -> (c: Self)
        ensures
            c == (Color { r, g, b, a: 255 }),
    {
        Color { r, g, b, a: 255 }
    }

    pub fn rgba(r: u8, g: u8, b: u8, a: u8) -> (c: Self)
        ensures
            c == (Color { r, g, b, a }),
    {
        Color { r, g, b, a }
    }

    /// Every channel, alpha included, moved 15% of the way toward `toward`:
    /// the subtle blend used for hover and pressed accents.
    pub fn tint(self, toward: Color) -> (c: Self)
        ensures
            c == (Color {
                r: tint_channel(self.r, toward.r),
                g: tint_channel(self.g, toward.g),
                b: tint_channel(self.b, toward.b),
                a: tint_channel(self.a, toward.a),
            }),
    {
        Color {
            r: tint_byte(self.r, toward.r),
            g: tint_byte(self.g, toward.g),
            b: tint_byte(self.b, toward.b),
            a: tint_byte(self.a, toward.a),
        }
    }
}

fn tint_byte(from: u8, to: u8) -> (r: u8)
    ensures
        r == tint_channel(from, to),
{
    let sum: u32 = 17 * (from as u32) + 3 * (to as u32) + 10;
    (sum / 20) as u8
}

/// Why a hex colour was refused: it is not `#RGB`, `#RGBA`, `#RRGGBB` or
/// `#RRGGBBAA`.
#[derive(Clone, Copy, Debug, PartialEq, Eq, Structural)]
pub struct ColorParseError;

impl ColorParseError {
    /// The text shown for this error.
    pub fn message(&self) -> (m: &'static str)
        ensures
            m@ == "expected #RGB, #RGBA, #RRGGBB, or #RRGGBBAA"@,
    {
        "expected #RGB, #RGBA, #RRGGBB, or #RRGGBBAA"
    }
}

/// The value of an ASCII hex digit.
pub open spec fn hex_digit(c: u8) -> Option<u8> {
    if 48 <= c <= 57 {
        Some((c - 48) as u8)
    } else if 97 <= c <= 102 {
        Some((c - 87) as u8)
    } else if 65 <= c <= 70 {
        Some((c - 55) as u8)
    } else {
        None
    }
}

/// A one-digit channel `d` stands for `d * 17` (`f` is `ff`).
pub open spec fn short_channel(c: u8) -> Option<u8> {
    match hex_digit(c) {
        Some(d) => Some((d * 17) as u8),
        None => None,
    }
}

/// A two-character channel read as an unsigned base-16 number, which
/// takes an optional leading `+` (so `+f` is 15).
pub open spec fn pair_channel(hi: u8, lo: u8) -> Option<u8> {
    if hi == 43 {
        hex_digit(lo)
    } else {
        match (hex_digit(hi), hex_digit(lo)) {
            (Some(h), Some(l)) => Some((h * 16 + l) as u8),
            _ => None,
        }
    }
}

/// An ASCII upper-case letter byte lowered; every other byte unchanged.
pub open spec fn ascii_lower_byte(b: u8) -> u8 {
    if 65 <= b <= 90 { (b + 32) as u8 } else { b }
}

/// Hex digits read the same in either case: a one-digit channel and a
/// two-digit channel give what their lower-case forms give. A one-digit
/// channel `0`-`9`, `a`-`f` or `A`-`F` stands for its digit value times 17
/// (so `F` and `f` are both 255), and a two-digit one for sixteen times
/// the first digit's value plus the second's.
pub proof fn lemma_hex_digits_ignore_case(c: u8, hi: u8, lo: u8)
    ensures
        short_channel(c) == short_channel(ascii_lower_byte(c)),
        pair_channel(hi, lo) == pair_channel(ascii_lower_byte(hi), ascii_lower_byte(lo)),
        48 <= c <= 57 ==> short_channel(c) == Some(((c - 48) * 17) as u8),
        97 <= c <= 102 ==> short_channel(c) == Some(((c - 97 + 10) * 17) as u8),
        65 <= c <= 70 ==> short_channel(c) == Some(((c - 65 + 10) * 17) as u8),
        !(48 <= c <= 57 || 97 <= c <= 102 || 65 <= c <= 70) ==> short_channel(c) is None,
        short_channel(hi) is Some && short_channel(lo) is Some
            ==> pair_channel(hi, lo) == Some((short_channel(hi)->0 / 17 * 16 + short_channel(lo)->0 / 17) as u8),
        hi != 43 && (short_channel(hi) is None || short_channel(lo) is None) ==> pair_channel(hi, lo) is None,
{
}

/// A colour's hex notation reads the same in either case: lowering every
/// ASCII letter of it gives the same colour, or none either way (so
/// `#FFF` and `#fff` are both white).
pub proof fn lemma_hex_notation_ignores_case(s: Seq<u8>)
    ensures
        parse_hex(s) == parse_hex(s.map_values(|b: u8| ascii_lower_byte(b))),
{
    let t = s.map_values(|b: u8| ascii_lower_byte(b));
    if s.len() > 0 {
        let v = s.drop_first();
        let w = t.drop_first();
        assert(t[0] == ascii_lower_byte(s[0]));
        assert forall|k: int| 0 <= k < v.len() implies #[trigger] w[k] == ascii_lower_byte(v[k]) by {
            assert(w[k] == t[k + 1]);
        }
        if v.len() >= 3 {
            lemma_hex_digits_ignore_case(v[0], v[0], v[1]);
            lemma_hex_digits_ignore_case(v[1], v[2], v[3]);
            lemma_hex_digits_ignore_case(v[2], v[4], v[5]);
        }
        if v.len() >= 4 {
            lemma_hex_digits_ignore_case(v[3], v[6], v[7]);
        }
    }
}

/// A UTF-8 continuation byte: no character starts there.
pub open spec fn is_continuation(b: u8) -> bool {
    128 <= b < 192
}

/// Whether reading the two-character channels of `v` from byte `k` on
/// cuts a character in two before a channel fails to parse.
pub open spec fn splits_char(v: Seq<u8>, k: int) -> bool
    decreases v.len() - k,
{
    if k < 0 || k + 2 > v.len() {
        false
    } else if k + 2 < v.len() && is_continuation(v[k + 2]) {
        true
    } else if pair_channel(v[k], v[k + 1]) is None {
        false
    } else {
        splits_char(v, k + 2)
    }
}

/// The colour that the hex notation `s` (the bytes of a string) denotes.
pub open spec fn parse_hex(s: Seq<u8>) -> Option<Color> {
    if s.len() == 0 || s[0] != 35 {
        None
    } else {
        let v = s.drop_first();
        if v.len() == 3 || v.len() == 4 {
            match (short_channel(v[0]), short_channel(v[1]), short_channel(v[2])) {
                (Some(r), Some(g), Some(b)) => if v.len() == 3 {
                    Some(Color { r, g, b, a: 255 })
                } else {
                    match short_channel(v[3]) {
                        Some(a) => Some(Color { r, g, b, a }),
                        None => None,
                    }
                },
                _ => None,
            }
        } else if v.len() == 6 || v.len() == 8 {
            match (pair_channel(v[0], v[1]), pair_channel(v[2], v[3]), pair_channel(v[4], v[5])) {
                (Some(r), Some(g), Some(b)) => if v.len() == 6 {
                    Some(Color { r, g, b, a: 255 })
                } else {
                    match pair_channel(v[6], v[7]) {
                        Some(a) => Some(Color { r, g, b, a }),
                        None => None,
                    }
                },
                _ => None,
            }
        } else {
            None
        }
    }
}

/// Whether reading `s` as hex notation slices a multi-byte character in
/// two (which the string slicing of the reader does not allow).
pub open spec fn hex_splits_char(s: Seq<u8>) -> bool {
    &&& s.len() > 0
    &&& s[0] == 35
    &&& (s.len() == 7 || s.len() == 9)
    &&& splits_char(s.drop_first(), 0)
}

fn hex_value(c: u8) -> (r: Option<u8>)
    ensures
        r == hex_digit(c),
{
    if 48 <= c && c <= 57 {
        Some(c - 48)
    } else if 97 <= c && c <= 102 {
        Some(c - 87)
    } else if 65 <= c && c <= 70 {
        Some(c - 55)
    } else {
        None
    }
}

fn short_value(c: u8) -> (r: Option<u8>)
    ensures
        r == short_channel(c),
{
    match hex_value(c) {
        Some(d) => Some(d * 17),
        None => None,
    }
}

fn pair_value(hi: u8, lo: u8) -> (r: Option<u8>)
    ensures
        r == pair_channel(hi, lo),
{
    if hi == 43 {
        hex_value(lo)
    } else {
        match (hex_value(hi), hex_value(lo)) {
            (Some(h), Some(l)) => Some(h * 16 + l),
            _ => None,
        }
    }
}

/// `parse_hex` over a byte slice.
fn parse_hex_bytes(s: &[u8]) -> (r: Option<Color>)
    ensures
        r == parse_hex(s@),
{
    if s.len() == 0 || s[0] != 35 {
        return None;
    }
    let n = s.len() - 1;
    let ghost v = s@.drop_first();
    assert(forall|i: int| 0 <= i < n ==> #[trigger] v[i] == s@[i + 1]);
    if n == 3 || n == 4 {
        let r = short_value(s[1]);
        let g = short_value(s[2]);
        let b = short_value(s[3]);
        match (r, g, b) {
            (Some(r), Some(g), Some(b)) => if n == 3 {
                Some(Color { r, g, b, a: 255 })
            } else {
                match short_value(s[4]) {
                    Some(a) => Some(Color { r, g, b, a }),
                    None => None,
                }
            },
            _ => None,
        }
    } else if n == 6 || n == 8 {
        let r = pair_value(s[1], s[2]);
        let g = pair_value(s[3], s[4]);
        let b = pair_value(s[5], s[6]);
        match (r, g, b) {
            (Some(r), Some(g), Some(b)) => if n == 6 {
                Some(Color { r, g, b, a: 255 })
            } else {
                match pair_value(s[7], s[8]) {
                    Some(a) => Some(Color { r, g, b, a }),
                    None => None,
                }
            },
            _ => None,
        }
    } else {
        None
    }
}

/// Whether `hex_splits_char` holds of the bytes `s`.
fn splits_char_bytes(s: &[u8]) -> (r: bool)
    ensures
        r == hex_splits_char(s@),
{
    if s.len() == 0 || s[0] != 35 || !(s.len() == 7 || s.len() == 9) {
        return false;
    }
    let ghost v = s@.drop_first();
    let n = s.len() - 1;
    assert(forall|i: int| 0 <= i < n ==> #[trigger] v[i] == s@[i + 1]);
    let mut k: usize = 0;
    while k + 2 <= n
        invariant
            n == v.len(),
            n == 6 || n == 8,
            s@.len() == n + 1,
            s@[0] == 35,
            v == s@.drop_first(),
            k % 2 == 0,
            k <= n,
            forall|i: int| 0 <= i < n ==> #[trigger] v[i] == s@[i + 1],
            splits_char(v, 0) == splits_char(v, k as int),
        decreases n - k,
    {
        assert(v[k as int] == s@[k + 1] && v[k + 1] == s@[k + 2]);
        if k + 2 < n {
            assert(v[k + 2] == s@[k + 3]);
        }
        if k + 2 < n && 128 <= s[k + 3] && s[k + 3] < 192 {
            return true;
        }
        if pair_value(s[k + 1], s[k + 2]).is_none() {
            return false;
        }
        k = k + 2;
    }
    false
}

impl Color {
    /// Reads `#RGB`, `#RGBA`, `#RRGGBB` or `#RRGGBBAA` hex notation (digits
    /// in either case; a one-digit channel `d` means `dd`). A string whose
    /// two-character channels would split a multi-byte character is left
    /// out; [`Color::parse`] takes every string.
    pub fn from_hex(value: &str) -> (r: Result<Color, ColorParseError>)
        requires
            !hex_splits_char(value.spec_bytes()),
        ensures
            match parse_hex(value.spec_bytes()) {
                Some(c) => r == Ok::<Color, ColorParseError>(c),
                None => r == Err::<Color, ColorParseError>(ColorParseError),
            },
    {
        match parse_hex_bytes(value.as_bytes()) {
            Some(c) => Ok(c),
            None => Err(ColorParseError),
        }
    }

    /// [`Color::from_hex`] for every string: one whose channels would
    /// split a multi-byte character is refused too.
    pub fn parse(value: &str) -> (r: Result<Color, ColorParseError>)
        ensures
            hex_splits_char(value.spec_bytes()) ==> r == Err::<Color, ColorParseError>(ColorParseError),
            !hex_splits_char(value.spec_bytes()) ==> match parse_hex(value.spec_bytes()) {
                Some(c) => r == Ok::<Color, ColorParseError>(c),
                None => r == Err::<Color, ColorParseError>(ColorParseError),
            },
    {
        if splits_char_bytes(value.as_bytes()) {
            Err(ColorParseError)
        } else {
            Color::from_hex(value)
        }
    }
}

impl std::str::FromStr for Color {
    type Err = ColorParseError;

    fn from_str(value: &str) -> (r: Result<Color, ColorParseError>)
        ensures
            hex_splits_char(value.spec_bytes()) ==> r == Err::<Color, ColorParseError>(ColorParseError),
            !hex_splits_char(value.spec_bytes()) ==> match parse_hex(value.spec_bytes()) {
                Some(c) => r == Ok::<Color, ColorParseError>(c),
                None => r == Err::<Color, ColorParseError>(ColorParseError),
            },
    {
        Color::parse(value)
    }
}

/// All colour tokens; a scheme can change independently of the style.
#[derive(Clone, Copy, Debug, PartialEq, Eq, Structural)]
pub struct ColorScheme {
    /// Background primary: the app canvas.
    pub surface: Color,
    /// Background secondary: panels, cards and resting controls.
    pub surface_elevated: Color,
    pub surface_hover: Color,
    pub accent: Color,
    pub accent_hover: Color,
    pub accent_pressed: Color,
    pub selection_background: Color,
    pub selection_text: Color,
    pub text_primary: Color,
    pub text_secondary: Color,
    pub text_disabled: Color,
    pub border: Color,
    pub border_strong: Color,
    pub danger: Color,
    pub warning: Color,
    pub success: Color,
}

/// The default scheme: a warm charcoal canvas with a violet accent.
pub open spec fn dark_scheme() -> ColorScheme {
    ColorScheme {
        surface: Color { r: 28, g: 27, b: 29, a: 255 },
        surface_elevated: Color { r: 39, g: 37, b: 39, a: 255 },
        surface_hover: Color { r: 52, g: 49, b: 52, a: 255 },
        accent: Color { r: 167, g: 123, b: 255, a: 255 },
        accent_hover: Color { r: 183, g: 147, b: 255, a: 255 },
        accent_pressed: Color { r: 141, g: 98, b: 219, a: 255 },
        selection_background: Color { r: 10, g: 132, b: 255, a: 255 },
        selection_text: Color { r: 255, g: 255, b: 255, a: 255 },
        text_primary: Color { r: 244, g: 241, b: 240, a: 255 },
        text_secondary: Color { r: 185, g: 178, b: 180, a: 255 },
        text_disabled: Color { r: 128, g: 122, b: 124, a: 255 },
        border: Color { r: 61, g: 57, b: 61, a: 255 },
        border_strong: Color { r: 93, g: 87, b: 92, a: 255 },
        danger: Color { r: 229, g: 75, b: 75, a: 255 },
        warning: Color { r: 224, g: 165, b: 46, a: 255 },
        success: Color { r: 61, g: 201, b: 111, a: 255 },
    }
}

/// A light warm-grey canvas with white secondary surfaces.
pub open spec fn light_scheme() -> ColorScheme {
    ColorScheme {
        surface: Color { r: 245, g: 242, b: 240, a: 255 },
        surface_elevated: Color { r: 255, g: 253, b: 252, a: 255 },
        surface_hover: Color { r: 235, g: 230, b: 229, a: 255 },
        accent: Color { r: 154, g: 109, b: 242, a: 255 },
        accent_hover: Color { r: 136, g: 89, b: 226, a: 255 },
        accent_pressed: Color { r: 118, g: 72, b: 200, a: 255 },
        selection_background: Color { r: 10, g: 102, b: 204, a: 255 },
        selection_text: Color { r: 255, g: 255, b: 255, a: 255 },
        text_primary: Color { r: 45, g: 41, b: 43, a: 255 },
        text_secondary: Color { r: 109, g: 101, b: 105, a: 255 },
        text_disabled: Color { r: 155, g: 146, b: 150, a: 255 },
        border: Color { r: 228, g: 221, b: 221, a: 255 },
        border_strong: Color { r: 199, g: 189, b: 191, a: 255 },
        danger: Color { r: 209, g: 58, b: 58, a: 255 },
        warning: Color { r: 184, g: 125, b: 10, a: 255 },
        success: Color { r: 34, g: 160, b: 85, a: 255 },
    }
}

/// The dark scheme with deeper surfaces and borders and a brighter accent.
pub open spec fn midnight_scheme() -> ColorScheme {
    ColorScheme {
        surface: Color { r: 10, g: 10, b: 12, a: 255 },
        surface_elevated: Color { r: 18, g: 17, b: 21, a: 255 },
        surface_hover: Color { r: 29, g: 27, b: 33, a: 255 },
        accent: Color { r: 179, g: 140, b: 255, a: 255 },
        accent_hover: Color { r: 196, g: 168, b: 255, a: 255 },
        accent_pressed: Color { r: 145, g: 105, b: 217, a: 255 },
        selection_background: Color { r: 120, g: 86, b: 200, a: 255 },
        selection_text: Color { r: 255, g: 255, b: 255, a: 255 },
        text_primary: Color { r: 244, g: 241, b: 240, a: 255 },
        text_secondary: Color { r: 185, g: 178, b: 180, a: 255 },
        text_disabled: Color { r: 128, g: 122, b: 124, a: 255 },
        border: Color { r: 41, g: 39, b: 46, a: 255 },
        border_strong: Color { r: 67, g: 63, b: 74, a: 255 },
        danger: Color { r: 229, g: 75, b: 75, a: 255 },
        warning: Color { r: 224, g: 165, b: 46, a: 255 },
        success: Color { r: 61, g: 201, b: 111, a: 255 },
    }
}

/// `scheme` with `accent` and its hover (15% toward white) and pressed
/// (15% toward black) shades; every other token is kept.
pub open spec fn accented(scheme: ColorScheme, accent: Color) -> ColorScheme {
    ColorScheme {
        accent: accent,
        accent_hover: Color {
            r: tint_channel(accent.r, 255),
            g: tint_channel(accent.g, 255),
            b: tint_channel(accent.b, 255),
            a: tint_channel(accent.a, 255),
        },
        accent_pressed: Color {
            r: tint_channel(accent.r, 0),
            g: tint_channel(accent.g, 0),
            b: tint_channel(accent.b, 0),
            a: tint_channel(accent.a, 255),
        },
        ..scheme
    }
}

impl ColorScheme {
    /// The app canvas colour (the `surface` token).
    pub fn background_primary(&self) -> (c: Color)
        ensures
            c == self.surface,
    {
        self.surface
    }

    /// The panel and card colour (the `surface_elevated` token).
    pub fn background_secondary(&self) -> (c: Color)
        ensures
            c == self.surface_elevated,
    {
        self.surface_elevated
    }

    pub fn dark() -> (s: Self)
        ensures
            s == dark_scheme(),
    {
        ColorScheme {
            surface: Color::rgb(0x1c, 0x1b, 0x1d),
            surface_elevated: Color::rgb(0x27, 0x25, 0x27),
            surface_hover: Color::rgb(0x34, 0x31, 0x34),
            accent: Color::rgb(0xa7, 0x7b, 0xff),
            accent_hover: Color::rgb(0xb7, 0x93, 0xff),
            accent_pressed: Color::rgb(0x8d, 0x62, 0xdb),
            selection_background: Color::rgb(0x0a, 0x84, 0xff),
            selection_text: Color::rgb(0xff, 0xff, 0xff),
            text_primary: Color::rgb(0xf4, 0xf1, 0xf0),
            text_secondary: Color::rgb(0xb9, 0xb2, 0xb4),
            text_disabled: Color::rgb(0x80, 0x7a, 0x7c),
            border: Color::rgb(0x3d, 0x39, 0x3d),
            border_strong: Color::rgb(0x5d, 0x57, 0x5c),
            danger: Color::rgb(0xe5, 0x4b, 0x4b),
            warning: Color::rgb(0xe0, 0xa5, 0x2e),
            success: Color::rgb(0x3d, 0xc9, 0x6f),
        }
    }

    pub fn light() -> (s: Self)
        ensures
            s == light_scheme(),
    {
        ColorScheme {
            surface: Color::rgb(0xf5, 0xf2, 0xf0),
            surface_elevated: Color::rgb(0xff, 0xfd, 0xfc),
            surface_hover: Color::rgb(0xeb, 0xe6, 0xe5),
            accent: Color::rgb(0x9a, 0x6d, 0xf2),
            accent_hover: Color::rgb(0x88, 0x59, 0xe2),
            accent_pressed: Color::rgb(0x76, 0x48, 0xc8),
            selection_background: Color::rgb(0x0a, 0x66, 0xcc),
            selection_text: Color::rgb(0xff, 0xff, 0xff),
            text_primary: Color::rgb(0x2d, 0x29, 0x2b),
            text_secondary: Color::rgb(0x6d, 0x65, 0x69),
            text_disabled: Color::rgb(0x9b, 0x92, 0x96),
            border: Color::rgb(0xe4, 0xdd, 0xdd),
            border_strong: Color::rgb(0xc7, 0xbd, 0xbf),
            danger: Color::rgb(0xd1, 0x3a, 0x3a),
            warning: Color::rgb(0xb8, 0x7d, 0x0a),
            success: Color::rgb(0x22, 0xa0, 0x55),
        }
    }

    pub fn midnight() -> (s: Self)
        ensures
            s == midnight_scheme(),
    {
        let mut colors = Self::dark();
        colors.surface = Color::rgb(0x0a, 0x0a, 0x0c);
        colors.surface_elevated = Color::rgb(0x12, 0x11, 0x15);
        colors.surface_hover = Color::rgb(0x1d, 0x1b, 0x21);
        colors.accent = Color::rgb(0xb3, 0x8c, 0xff);
        colors.accent_hover = Color::rgb(0xc4, 0xa8, 0xff);
        colors.accent_pressed = Color::rgb(0x91, 0x69, 0xd9);
        colors.selection_background = Color::rgb(0x78, 0x56, 0xc8);
        colors.border = Color::rgb(0x29, 0x27, 0x2e);
        colors.border_strong = Color::rgb(0x43, 0x3f, 0x4a);
        colors
    }

    /// This scheme with another accent, its hover and pressed shades
    /// derived from it.
    pub fn with_accent(self, accent: Color) -> (s: Self)
        ensures
            s == accented(self, accent),
    {
        let mut scheme = self;
        scheme.accent = accent;
        scheme.accent_hover = accent.tint(Color::rgb(255, 255, 255));
        scheme.accent_pressed = accent.tint(Color::rgb(0, 0, 0));
        scheme
    }
}

impl Default for ColorScheme {
    fn default() -> (s: Self)
        ensures
            s == dark_scheme(),
    {
        Self::dark()
    }
}

/// Changing the accent twice keeps only the second one: the derived shades
/// depend on the accent alone.
pub proof fn lemma_accent_replaces(scheme: ColorScheme, first: Color, second: Color)
    ensures
        accented(accented(scheme, first), second) == accented(scheme, second),
{
}

/// How a selected tab or sidebar item communicates selection.
#[derive(Clone, Copy, Debug, PartialEq, Eq, Structural)]
pub enum SelectionStyle {
    Filled,
    Indicator,
}

/// A named accent colour offered to the user.
#[derive(Clone, Debug, PartialEq, Eq)]
pub struct AccentPreset {
    pub id: String,
    pub name: String,
    pub color: Color,
}

/// The user's preferred corner rounding, shared by widgets and the
/// compositor's window frames so the whole desktop agrees on one shape.
#[derive(Clone, Copy, Debug, PartialEq, Eq, Hash, Structural)]
pub enum CornerStyle {
    Square,
    Soft,
    Round,
}

/// The identifier under which a corner style is stored.
pub open spec fn corner_id(style: CornerStyle) -> Seq<char> {
    match style {
        CornerStyle::Square => seq!['s', 'q', 'u', 'a', 'r', 'e'],
        CornerStyle::Soft => seq!['s', 'o', 'f', 't'],
        CornerStyle::Round => seq!['r', 'o', 'u', 'n', 'd'],
    }
}

/// Whitespace as Unicode's `White_Space` property defines it.
pub open spec fn is_white_space(c: char) -> bool {
    let u = c as u32;
    ||| 9 <= u <= 13
    ||| u == 32
    ||| u == 0x85
    ||| u == 0xa0
    ||| u == 0x1680
    ||| 0x2000 <= u <= 0x200a
    ||| u == 0x2028
    ||| u == 0x2029
    ||| u == 0x202f
    ||| u == 0x205f
    ||| u == 0x3000
}

/// `s` without leading whitespace.
pub open spec fn trim_start(s: Seq<char>) -> Seq<char>
    decreases s.len(),
{
    if s.len() > 0 && is_white_space(s[0]) { trim_start(s.drop_first()) } else { s }
}

/// `s` without trailing whitespace.
pub open spec fn trim_end(s: Seq<char>) -> Seq<char>
    decreases s.len(),
{
    if s.len() > 0 && is_white_space(s.last()) { trim_end(s.drop_last()) } else { s }
}

/// ASCII upper-case letters lowered; every other character unchanged.
pub open spec fn ascii_lower(c: char) -> char {
    if 'A' <= c <= 'Z' { ((c as u32) + 32) as char } else { c }
}

/// Equal up to the case of ASCII letters.
pub open spec fn eq_ignore_ascii_case(a: Seq<char>, b: Seq<char>) -> bool {
    &&& a.len() == b.len()
    &&& forall|i: int| 0 <= i < a.len() ==> #[trigger] ascii_lower(a[i]) == ascii_lower(b[i])
}

/// The style whose identifier `text` names, once trimmed, ignoring ASCII
/// case.
pub open spec fn corner_named(text: Seq<char>) -> Option<CornerStyle> {
    let t = trim_end(trim_start(text));
    if eq_ignore_ascii_case(t, corner_id(CornerStyle::Square)) {
        Some(CornerStyle::Square)
    } else if eq_ignore_ascii_case(t, corner_id(CornerStyle::Soft)) {
        Some(CornerStyle::Soft)
    } else if eq_ignore_ascii_case(t, corner_id(CornerStyle::Round)) {
        Some(CornerStyle::Round)
    } else {
        None
    }
}

fn white_space(c: char) -> (r: bool)
    ensures
        r == is_white_space(c),
{
    let u = c as u32;
    (9 <= u && u <= 13) || u == 32 || u == 0x85 || u == 0xa0 || u == 0x1680 || (0x2000 <= u && u <= 0x200a)
        || u == 0x2028 || u == 0x2029 || u == 0x202f || u == 0x205f || u == 0x3000
}

fn lower_code(c: char) -> (r: u32)
    ensures
        r == ascii_lower(c) as u32,
{
    if 'A' <= c && c <= 'Z' {
        (c as u32) + 32
    } else {
        c as u32
    }
}

proof fn lemma_trim_start(s: Seq<char>, k: int)
    requires
        0 <= k <= s.len(),
        forall|i: int| 0 <= i < k ==> #[trigger] is_white_space(s[i]),
        k == s.len() || !is_white_space(s[k]),
    ensures
        trim_start(s) == s.subrange(k, s.len() as int),
    decreases k,
{
    if k > 0 {
        assert forall|i: int| 0 <= i < k - 1 implies #[trigger] is_white_space(s.drop_first()[i]) by {
            assert(s.drop_first()[i] == s[i + 1]);
        }
        if k < s.len() {
            assert(s.drop_first()[k - 1] == s[k]);
        }
        lemma_trim_start(s.drop_first(), k - 1);
        assert(s.drop_first().subrange(k - 1, s.len() - 1) =~= s.subrange(k, s.len() as int));
    } else {
        assert(s.subrange(0, s.len() as int) =~= s);
    }
}

proof fn lemma_trim_end(s: Seq<char>, k: int)
    requires
        0 <= k <= s.len(),
        forall|i: int| k <= i < s.len() ==> #[trigger] is_white_space(s[i]),
        k == 0 || !is_white_space(s[k - 1]),
    ensures
        trim_end(s) == s.subrange(0, k),
    decreases s.len() - k,
{
    if k < s.len() {
        assert forall|i: int| k <= i < s.len() - 1 implies #[trigger] is_white_space(s.drop_last()[i]) by {
            assert(s.drop_last()[i] == s[i]);
        }
        if k > 0 {
            assert(s.drop_last()[k - 1] == s[k - 1]);
        }
        lemma_trim_end(s.drop_last(), k);
        assert(s.drop_last().subrange(0, k) =~= s.subrange(0, k));
    } else {
        assert(s.subrange(0, s.len() as int) =~= s);
    }
}

/// The characters `lo..hi` of `text` that remain once leading and
/// trailing whitespace is removed.
pub(crate) fn trim_range(text: &str) -> (r: (usize, usize))
    ensures
        r.0 <= r.1 <= text@.len(),
        text@.subrange(r.0 as int, r.1 as int) == trim_end(trim_start(text@)),
{
    let n = text.unicode_len();
    let mut lo: usize = 0;
    while lo < n && white_space(text.get_char(lo))
        invariant
            n == text@.len(),
            lo <= n,
            forall|i: int| 0 <= i < lo ==> #[trigger] is_white_space(text@[i]),
        decreases n - lo,
    {
        lo = lo + 1;
    }
    let mut hi: usize = n;
    while hi > lo && white_space(text.get_char(hi - 1))
        invariant
            n == text@.len(),
            lo <= hi <= n,
            forall|i: int| hi <= i < n ==> #[trigger] is_white_space(text@[i]),
        decreases hi - lo,
    {
        hi = hi - 1;
    }
    proof {
        lemma_trim_start(text@, lo as int);
        let s = text@.subrange(lo as int, n as int);
        assert forall|i: int| hi - lo <= i < s.len() implies #[trigger] is_white_space(s[i]) by {
            assert(s[i] == text@[lo + i]);
        }
        if hi > lo {
            assert(s[hi - lo - 1] == text@[hi - 1]);
        }
        lemma_trim_end(s, hi - lo);
        assert(s.subrange(0, hi - lo) =~= text@.subrange(lo as int, hi as int));
    }
    (lo, hi)
}

/// Whether the characters `lo..hi` of `text` equal `name` up to ASCII case.
pub(crate) fn caseless_matches(text: &str, lo: usize, hi: usize, name: &[char]) -> (r: bool)
    requires
        lo <= hi <= text@.len(),
    ensures
        r == eq_ignore_ascii_case(text@.subrange(lo as int, hi as int), name@),
{
    let ghost t = text@.subrange(lo as int, hi as int);
    if hi - lo != name.len() {
        return false;
    }
    let mut i: usize = 0;
    while i < name.len()
        invariant
            lo <= hi <= text@.len(),
            hi - lo == name@.len(),
            t == text@.subrange(lo as int, hi as int),
            i <= name@.len(),
            forall|j: int| 0 <= j < i ==> #[trigger] ascii_lower(t[j]) == ascii_lower(name@[j]),
        decreases name@.len() - i,
    {
        if lower_code(text.get_char(lo + i)) != lower_code(name[i]) {
            assert(t[i as int] == text@[lo + i]);
            return false;
        }
        assert(t[i as int] == text@[lo + i]);
        i = i + 1;
    }
    true
}

impl CornerStyle {
    /// The identifier under which this style is stored.
    pub fn id(self) -> (r: &'static str)
        ensures
            r@ == corner_id(self),
    {
        match self {
            CornerStyle::Square => {
                proof { reveal_strlit("square"); }
                "square"
            },
            CornerStyle::Soft => {
                proof { reveal_strlit("soft"); }
                "soft"
            },
            CornerStyle::Round => {
                proof { reveal_strlit("round"); }
                "round"
            },
        }
    }

    /// The style whose identifier `id` names; surrounding whitespace and
    /// the case of ASCII letters are ignored, so hand-edited files may say
    /// `Soft` or `SOFT`.
    pub fn from_id(id: &str) -> (r: Option<CornerStyle>)
        ensures
            r == corner_named(id@),
    {
        let (lo, hi) = trim_range(id);
        let square = ['s', 'q', 'u', 'a', 'r', 'e'];
        let soft = ['s', 'o', 'f', 't'];
        let round = ['r', 'o', 'u', 'n', 'd'];
        assert(square@ =~= corner_id(CornerStyle::Square));
        assert(soft@ =~= corner_id(CornerStyle::Soft));
        assert(round@ =~= corner_id(CornerStyle::Round));
        if caseless_matches(id, lo, hi, &square) {
            Some(CornerStyle::Square)
        } else if caseless_matches(id, lo, hi, &soft) {
            Some(CornerStyle::Soft)
        } else if caseless_matches(id, lo, hi, &round) {
            Some(CornerStyle::Round)
        } else {
            None
        }
    }

    /// Outer corner radius of top-level windows, in logical pixels.
    pub fn window_radius(self) -> (r: i32)
        ensures
            r == (match self {
                CornerStyle::Square => 0i32,
                CornerStyle::Soft => 6i32,
                CornerStyle::Round => 12i32,
            }),
    {
        match self {
            CornerStyle::Square => 0,
            CornerStyle::Soft => 6,
            CornerStyle::Round => 12,
        }
    }
}

impl Default for CornerStyle {
    fn default() -> (s: Self)
        ensures
            s == CornerStyle::Round,
    {
        CornerStyle::Round
    }
}

/// A style's identifier reads back as that style.
pub proof fn lemma_corner_id_round_trip(style: CornerStyle)
    ensures
        corner_named(corner_id(style)) == Some(style),
{
    let t = corner_id(style);
    assert(!is_white_space(t[0]));
    assert(trim_start(t) == t);
    assert(!is_white_space(t.last()));
    assert(trim_end(t) == t);
    if style != CornerStyle::Square {
        assert(ascii_lower(t[1]) != ascii_lower(corner_id(CornerStyle::Square)[1]) || t.len() != 6);
    }
    if style == CornerStyle::Round {
        assert(ascii_lower(t[0]) != ascii_lower(corner_id(CornerStyle::Soft)[0]) || t.len() != 4);
    }
}

/// The user's appearance choices; every field left `None` falls back to
/// a lower-priority source or the theme's own default.
#[derive(Clone, Debug, PartialEq, Eq)]
pub struct AppearanceSelection {
    pub theme: Option<String>,
    pub variant: Option<String>,
    pub accent: Option<Color>,
    /// A CSS-style family stack (e.g. `"Inter, sans-serif"`) preferred over
    /// the bundled default.
    pub font_family: Option<String>,
    pub corners: Option<CornerStyle>,
}

impl Default for AppearanceSelection {
    fn default() -> (s: Self)
        ensures
            s.theme is None,
            s.variant is None,
            s.accent is None,
            s.font_family is None,
            s.corners is None,
    {
        AppearanceSelection { theme: None, variant: None, accent: None, font_family: None, corners: None }
    }
}

/// `high` when it is set, else `low`.
pub open spec fn prefer<T>(high: Option<T>, low: Option<T>) -> Option<T> {
    match high {
        Some(v) => Some(v),
        None => low,
    }
}

fn prefer_exec<T>(high: Option<T>, low: Option<T>) -> (r: Option<T>)
    ensures
        r == prefer(high, low),
{
    match high {
        Some(v) => Some(v),
        None => low,
    }
}

/// Layers three selections: each field comes from `top` if set there,
/// else from `middle`, else from `base` (programmatic choices over the
/// environment over the configuration file).
pub fn merge_selection(
    base: AppearanceSelection,
    middle: AppearanceSelection,
    top: AppearanceSelection,
) -> (r: AppearanceSelection)
    ensures
        r.theme == prefer(top.theme, prefer(middle.theme, base.theme)),
        r.variant == prefer(top.variant, prefer(middle.variant, base.variant)),
        r.accent == prefer(top.accent, prefer(middle.accent, base.accent)),
        r.font_family == prefer(top.font_family, prefer(middle.font_family, base.font_family)),
        r.corners == prefer(top.corners, prefer(middle.corners, base.corners)),
{
    AppearanceSelection {
        theme: prefer_exec(top.theme, prefer_exec(middle.theme, base.theme)),
        variant: prefer_exec(top.variant, prefer_exec(middle.variant, base.variant)),
        accent: prefer_exec(top.accent, prefer_exec(middle.accent, base.accent)),
        font_family: prefer_exec(top.font_family, prefer_exec(middle.font_family, base.font_family)),
        corners: prefer_exec(top.corners, prefer_exec(middle.corners, base.corners)),
    }
}

/// Merging is associative: layering `top` over (`middle` over `base`)
/// chooses every field as layering (`top` over `middle`) over `base` does.
pub proof fn lemma_prefer_associative<T>(base: Option<T>, middle: Option<T>, top: Option<T>)
    ensures
        prefer(top, prefer(middle, base)) == prefer(prefer(top, middle), base),
{
}

/// An ASCII letter or digit.
pub open spec fn is_ascii_alphanumeric(b: u8) -> bool {
    (48 <= b <= 57) || (65 <= b <= 90) || (97 <= b <= 122)
}

/// A theme id is non-empty and made of ASCII letters, digits, `-` and `_`
/// only, so it can never leave the themes directory.
pub open spec fn valid_theme_id(id: Seq<u8>) -> bool {
    &&& id.len() > 0
    &&& forall|i: int| 0 <= i < id.len() ==> {
        let b = #[trigger] id[i];
        is_ascii_alphanumeric(b) || b == 45 || b == 95
    }
}

/// Whether `id` is a valid theme id.
pub fn is_valid_theme_id(id: &str) -> (r: bool)
    ensures
        r == valid_theme_id(id.spec_bytes()),
{
    let bytes = id.as_bytes();
    if bytes.len() == 0 {
        return false;
    }
    let mut i: usize = 0;
    while i < bytes.len()
        invariant
            bytes@ == id.spec_bytes(),
            i <= bytes@.len(),
            forall|j: int| 0 <= j < i ==> {
                let b = #[trigger] bytes@[j];
                is_ascii_alphanumeric(b) || b == 45 || b == 95
            },
        decreases bytes@.len() - i,
    {
        let b = bytes[i];
        if !((48 <= b && b <= 57) || (65 <= b && b <= 90) || (97 <= b && b <= 122) || b == 45 || b == 95) {
            return false;
        }
        i = i + 1;
    }
    true
}

/// The path `base` with the component `part` appended, separated by a `/`
/// unless `base` is empty or already ends in one; an absolute `part`
/// replaces `base`.
pub open spec fn path_join(base: Seq<char>, part: Seq<char>) -> Seq<char> {
    if part.len() > 0 && part[0] == '/' {
        part
    } else if base.len() == 0 {
        part
    } else if base.last() == '/' {
        base + part
    } else {
        base + seq!['/'] + part
    }
}

/// Joins `part` onto the path `base`.
pub fn join_path(base: &str, part: &str) -> (r: String)
    ensures
        r@ == path_join(base@, part@),
{
    proof { reveal_strlit("/"); }
    if part.unicode_len() > 0 && part.get_char(0) == '/' {
        return part.to_owned();
    }
    let n = base.unicode_len();
    if n == 0 {
        part.to_owned()
    } else if base.get_char(n - 1) == '/' {
        base.to_owned().concat(part)
    } else {
        base.to_owned().concat("/").concat(part)
    }
}

/// The file that holds theme `id` under data directory `root`:
/// `root/themes/<id>/cream/theme.toml`.
pub open spec fn theme_file(root: Seq<char>, id: Seq<char>) -> Seq<char> {
    path_join(root, seq!['t', 'h', 'e', 'm', 'e', 's', '/'] + id + seq![
        '/', 'c', 'r', 'e', 'a', 'm', '/', 't', 'h', 'e', 'm', 'e', '.', 't', 'o', 'm', 'l',
    ])
}

/// A theme id that is empty or has a character other than an ASCII
/// letter, digit, `-` or `_`.
#[derive(Clone, Debug, PartialEq, Eq)]
pub struct InvalidThemeId {
    pub id: String,
}

/// Where theme `id` lives under data directory `root`; refuses an id that
/// could name anything outside the themes directory.
pub fn theme_path(root: &str, id: &str) -> (r: Result<String, InvalidThemeId>)
    ensures
        valid_theme_id(id.spec_bytes()) ==> (r matches Ok(p) && p@ == theme_file(root@, id@)),
        !valid_theme_id(id.spec_bytes()) ==> (r matches Err(e) && e.id@ == id@),
{
    if !is_valid_theme_id(id) {
        return Err(InvalidThemeId { id: id.to_owned() });
    }
    proof {
        reveal_strlit("themes/");
        reveal_strlit("/cream/theme.toml");
        reveal_strlit("/");
    }
    let tail = "themes/".to_owned().concat(id).concat("/cream/theme.toml");
    let path = join_path(root, tail.as_str());
    assert(tail@ =~= seq!['t', 'h', 'e', 'm', 'e', 's', '/'] + id@ + seq![
        '/', 'c', 'r', 'e', 'a', 'm', '/', 't', 'h', 'e', 'm', 'e', '.', 't', 'o', 'm', 'l',
    ]);
    Ok(path)
}

/// The colour that the string with bytes `s` denotes as hex notation,
/// where [`Color::parse`] accepts it.
#[verifier::opaque]
pub open spec fn hex_color(s: Seq<u8>) -> Option<Color> {
    if hex_splits_char(s) { None } else { parse_hex(s) }
}

/// A hex colour value that does not parse.
#[derive(Clone, Debug, PartialEq, Eq)]
pub struct InvalidColor {
    pub value: String,
}

/// Reads a colour as a theme or appearance file writes it.
pub fn parse_color(value: String) -> (r: Result<Color, InvalidColor>)
    ensures
        match hex_color(encode_utf8(value@)) {
            Some(c) => r == Ok::<Color, InvalidColor>(c),
            None => r matches Err(e) && e.value@ == value@,
        },
{
    proof { reveal(hex_color); }
    match Color::parse(value.as_str()) {
        Ok(c) => Ok(c),
        Err(_) => Err(InvalidColor { value }),
    }
}

/// Every colour token of a scheme as the hex text a theme file gives.
#[derive(Clone, Debug, PartialEq, Eq)]
pub struct ColorSchemeText {
    pub surface: String,
    pub surface_elevated: String,
    pub surface_hover: String,
    pub accent: String,
    pub accent_hover: String,
    pub accent_pressed: String,
    pub selection_background: String,
    pub selection_text: String,
    pub text_primary: String,
    pub text_secondary: String,
    pub text_disabled: String,
    pub border: String,
    pub border_strong: String,
    pub danger: String,
    pub warning: String,
    pub success: String,
}

/// The tokens of `text` in declaration order.
pub open spec fn scheme_text_fields(text: ColorSchemeText) -> Seq<Seq<u8>> {
    seq![
        encode_utf8(text.surface@),
        encode_utf8(text.surface_elevated@),
        encode_utf8(text.surface_hover@),
        encode_utf8(text.accent@),
        encode_utf8(text.accent_hover@),
        encode_utf8(text.accent_pressed@),
        encode_utf8(text.selection_background@),
        encode_utf8(text.selection_text@),
        encode_utf8(text.text_primary@),
        encode_utf8(text.text_secondary@),
        encode_utf8(text.text_disabled@),
        encode_utf8(text.border@),
        encode_utf8(text.border_strong@),
        encode_utf8(text.danger@),
        encode_utf8(text.warning@),
        encode_utf8(text.success@),
    ]
}

/// The colour a theme file's token text denotes, if any.
pub open spec fn token_color(text: String) -> Option<Color> {
    hex_color(encode_utf8(text@))
}

/// Every token of `scheme` is the colour of the same-named field of
/// `text`.
pub open spec fn tokens_by_name(scheme: ColorScheme, text: ColorSchemeText) -> bool {
    &&& token_color(text.surface) == Some(scheme.surface)
    &&& token_color(text.surface_elevated) == Some(scheme.surface_elevated)
    &&& token_color(text.surface_hover) == Some(scheme.surface_hover)
    &&& token_color(text.accent) == Some(scheme.accent)
    &&& token_color(text.accent_hover) == Some(scheme.accent_hover)
    &&& token_color(text.accent_pressed) == Some(scheme.accent_pressed)
    &&& token_color(text.selection_background) == Some(scheme.selection_background)
    &&& token_color(text.selection_text) == Some(scheme.selection_text)
    &&& token_color(text.text_primary) == Some(scheme.text_primary)
    &&& token_color(text.text_secondary) == Some(scheme.text_secondary)
    &&& token_color(text.text_disabled) == Some(scheme.text_disabled)
    &&& token_color(text.border) == Some(scheme.border)
    &&& token_color(text.border_strong) == Some(scheme.border_strong)
    &&& token_color(text.danger) == Some(scheme.danger)
    &&& token_color(text.warning) == Some(scheme.warning)
    &&& token_color(text.success) == Some(scheme.success)
}

/// When every token of a theme file's scheme parses, the scheme read from
/// it has, for each token, the colour written under that token's name.
pub proof fn lemma_scheme_tokens_by_name(text: ColorSchemeText)
    requires
        forall|i: int| 0 <= i < 16 ==> #[trigger] hex_color(scheme_text_fields(text)[i]) is Some,
    ensures
        tokens_by_name(scheme_of(Seq::new(16, |i: int| hex_color(scheme_text_fields(text)[i])->0)), text),
{
    let f = scheme_text_fields(text);
    assert forall|i: int| 0 <= i < 16 implies #[trigger] hex_color(f[i]) == Some(hex_color(f[i])->0) by {
        assert(hex_color(f[i]) is Some);
    }
}

/// The scheme whose tokens `colors` lists in declaration order.
pub open spec fn scheme_of(colors: Seq<Color>) -> ColorScheme {
    ColorScheme {
        surface: colors[0],
        surface_elevated: colors[1],
        surface_hover: colors[2],
        accent: colors[3],
        accent_hover: colors[4],
        accent_pressed: colors[5],
        selection_background: colors[6],
        selection_text: colors[7],
        text_primary: colors[8],
        text_secondary: colors[9],
        text_disabled: colors[10],
        border: colors[11],
        border_strong: colors[12],
        danger: colors[13],
        warning: colors[14],
        success: colors[15],
    }
}

/// Parses every token of a theme file's scheme; the first token (in
/// declaration order) that does not parse is the error.
pub fn colors_from_text(text: ColorSchemeText) -> (r: Result<ColorScheme, InvalidColor>)
    ensures
        (forall|i: int| 0 <= i < 16 ==> #[trigger] hex_color(scheme_text_fields(text)[i]) is Some) ==>
            r == Ok::<ColorScheme, InvalidColor>(scheme_of(Seq::new(16, |i: int| hex_color(scheme_text_fields(text)[i])->0))),
        r is Ok ==> forall|i: int| 0 <= i < 16 ==> #[trigger] hex_color(scheme_text_fields(text)[i]) is Some,
        r matches Ok(scheme) ==> tokens_by_name(scheme, text),
        r matches Err(e) ==> exists|k: int| {
            &&& 0 <= k < 16
            &&& hex_color(scheme_text_fields(text)[k]) is None
            &&& encode_utf8(e.value@) == scheme_text_fields(text)[k]
            &&& forall|i: int| 0 <= i < k ==> #[trigger] hex_color(scheme_text_fields(text)[i]) is Some
        },
{
    let ghost fields = scheme_text_fields(text);
    let values: Vec<String> = vec![
        text.surface,
        text.surface_elevated,
        text.surface_hover,
        text.accent,
        text.accent_hover,
        text.accent_pressed,
        text.selection_background,
        text.selection_text,
        text.text_primary,
        text.text_secondary,
        text.text_disabled,
        text.border,
        text.border_strong,
        text.danger,
        text.warning,
        text.success,
    ];
    assert(forall|i: int| 0 <= i < 16 ==> #[trigger] encode_utf8(values@[i]@) == fields[i]);
    let mut colors: Vec<Color> = Vec::new();
    let mut k: usize = 0;
    while k < 16
        invariant
            values@.len() == 16,
            fields == scheme_text_fields(text),
            forall|i: int| 0 <= i < 16 ==> #[trigger] encode_utf8(values@[i]@) == fields[i],
            k <= 16,
            colors@.len() == k,
            forall|i: int| 0 <= i < k ==> #[trigger] hex_color(fields[i]) == Some(colors@[i]),
        decreases 16 - k,
    {
        let value = values[k].clone();
        assert(encode_utf8(value@) == fields[k as int]);
        match parse_color(value) {
            Ok(c) => colors.push(c),
            Err(e) => {
                assert(hex_color(fields[k as int]) is None);
                assert(encode_utf8(e.value@) == fields[k as int]);
                assert(forall|i: int| 0 <= i < k ==> #[trigger] hex_color(fields[i]) is Some);
                assert(!(forall|i: int| 0 <= i < 16 ==> #[trigger] hex_color(fields[i]) is Some));
                return Err(e);
            },
        }
        k = k + 1;
    }
    let r = ColorScheme {
        surface: colors[0],
        surface_elevated: colors[1],
        surface_hover: colors[2],
        accent: colors[3],
        accent_hover: colors[4],
        accent_pressed: colors[5],
        selection_background: colors[6],
        selection_text: colors[7],
        text_primary: colors[8],
        text_secondary: colors[9],
        text_disabled: colors[10],
        border: colors[11],
        border_strong: colors[12],
        danger: colors[13],
        warning: colors[14],
        success: colors[15],
    };
    proof {
        let parsed = Seq::new(16, |i: int| hex_color(fields[i])->0);
        assert(parsed =~= colors@);
        assert(tokens_by_name(r, text)) by {
            assert(hex_color(fields[0]) == Some(colors@[0]));
            assert(hex_color(fields[8]) == Some(colors@[8]));
        }
    }
    Ok(r)
}

/// How the `toml` crate writes the string `s` as a TOML value (quoted and
/// escaped).
pub uninterp spec fn toml_string_literal(s: Seq<char>) -> Seq<char>;

/// Whether `s` has no run of 256 or more single quotes, nor of 256 or
/// more double quotes. The `toml` crate counts such runs, byte by byte, in
/// a counter of one byte, which a longer run overflows; a quote is one
/// byte in UTF-8 and no other character's bytes are quotes, so runs of
/// quote characters and of quote bytes are the same.
pub open spec fn toml_quote_runs_fit(s: Seq<char>) -> bool {
    forall|i: int| 0 <= i && i + 256 <= s.len()
        ==> !#[trigger] quote_run_at(s, i, '\'') && !quote_run_at(s, i, '"')
}

/// Whether the 256 characters of `s` from `i` on are all `quote`.
pub open spec fn quote_run_at(s: Seq<char>, i: int, quote: char) -> bool {
    forall|k: int| i <= k < i + 256 ==> #[trigger] s[k] == quote
}

/// `toml::Value::String(s)` rendered through its `Display` impl: the
/// string as a TOML value. The result depends on `s` alone; nothing else
/// is claimed of it. A run of 256 or more quotes overflows the crate's
/// quote counter, so such strings are left out.
#[verifier::external_body]
fn toml_string(s: &String) -> (r: String)
    requires
        toml_quote_runs_fit(s@),
    ensures
        r@ == toml_string_literal(s@),
{
    toml::Value::String(s.clone()).to_string()
}

/// A lower-case hex digit.
pub open spec fn nibble_char(n: int) -> char {
    if n < 10 { (48 + n) as char } else { (87 + n) as char }
}

/// A byte as two lower-case hex digits.
pub open spec fn hex_byte(b: u8) -> Seq<char> {
    seq![nibble_char((b / 16) as int), nibble_char((b % 16) as int)]
}

/// One `key = value` line of an appearance file.
pub open spec fn setting_line(key: Seq<char>, value: Seq<char>) -> Seq<char> {
    key + seq![' ', '=', ' '] + value + seq!['\n']
}

/// The `key = value` line for an optional string setting.
pub open spec fn string_setting(key: Seq<char>, value: Option<String>) -> Seq<char> {
    match value {
        Some(v) => setting_line(key, toml_string_literal(v@)),
        None => Seq::empty(),
    }
}

/// The `key = literal` line for a string setting already rendered as a
/// TOML literal, when it is set.
pub open spec fn literal_setting(key: Seq<char>, literal: Option<String>) -> Seq<char> {
    match literal {
        Some(l) => setting_line(key, l@),
        None => Seq::empty(),
    }
}

/// The text of an appearance file from its settings, the string ones
/// already rendered as TOML literals.
pub open spec fn appearance_text_of(
    theme: Option<String>,
    variant: Option<String>,
    accent: Option<Color>,
    font_family: Option<String>,
) -> Seq<char> {
    literal_setting(seq!['t', 'h', 'e', 'm', 'e'], theme)
        + literal_setting(seq!['v', 'a', 'r', 'i', 'a', 'n', 't'], variant)
        + accent_setting(accent)
        + literal_setting(seq!['f', 'o', 'n', 't', '_', 'f', 'a', 'm', 'i', 'l', 'y'], font_family)
}

/// The `#rrggbbaa` notation an appearance file records an accent in.
pub open spec fn accent_notation(c: Color) -> Seq<char> {
    seq!['#'] + hex_byte(c.r) + hex_byte(c.g) + hex_byte(c.b) + hex_byte(c.a)
}

/// The `accent = "#rrggbbaa"` line, when an accent is set.
pub open spec fn accent_setting(accent: Option<Color>) -> Seq<char> {
    match accent {
        Some(c) => setting_line(
            seq!['a', 'c', 'c', 'e', 'n', 't'],
            seq!['"'] + accent_notation(c) + seq!['"'],
        ),
        None => Seq::empty(),
    }
}

/// A hex digit as written reads back as its value.
proof fn lemma_nibble_reads_back(n: int)
    requires
        0 <= n < 16,
    ensures
        '\0' <= nibble_char(n) <= '\u{7f}',
        nibble_char(n) as u8 != 43,
        !is_continuation(nibble_char(n) as u8),
        hex_digit(nibble_char(n) as u8) == Some(n as u8),
{
    if n < 10 {
        assert(nibble_char(n) as u8 == 48 + n);
    } else {
        assert(nibble_char(n) as u8 == 87 + n);
    }
}

/// A byte as written reads back as the same byte.
proof fn lemma_byte_reads_back(b: u8)
    ensures
        pair_channel(hex_byte(b)[0] as u8, hex_byte(b)[1] as u8) == Some(b),
        hex_byte(b)[0] as u8 != 43,
        !is_continuation(hex_byte(b)[0] as u8),
        !is_continuation(hex_byte(b)[1] as u8),
        '\0' <= hex_byte(b)[0] <= '\u{7f}',
        '\0' <= hex_byte(b)[1] <= '\u{7f}',
{
    lemma_nibble_reads_back((b / 16) as int);
    lemma_nibble_reads_back((b % 16) as int);
    assert((b / 16) * 16 + b % 16 == b);
}

/// An accent an appearance file records reads back as the same colour.
pub proof fn lemma_accent_notation_round_trip(c: Color)
    ensures
        hex_color(encode_utf8(accent_notation(c))) == Some(c),
{
    let t = accent_notation(c);
    lemma_byte_reads_back(c.r);
    lemma_byte_reads_back(c.g);
    lemma_byte_reads_back(c.b);
    lemma_byte_reads_back(c.a);
    assert(t.len() == 9);
    assert(t[0] == '#');
    assert(t[1] == hex_byte(c.r)[0] && t[2] == hex_byte(c.r)[1]);
    assert(t[3] == hex_byte(c.g)[0] && t[4] == hex_byte(c.g)[1]);
    assert(t[5] == hex_byte(c.b)[0] && t[6] == hex_byte(c.b)[1]);
    assert(t[7] == hex_byte(c.a)[0] && t[8] == hex_byte(c.a)[1]);
    assert(vstd::utf8::is_ascii_chars(t));
    vstd::utf8::is_ascii_chars_encode_utf8(t);
    let s = encode_utf8(t);
    assert forall|i: int| 0 <= i < 9 implies #[trigger] s[i] == t[i] as u8 by {}
    let v = s.drop_first();
    assert forall|i: int| 0 <= i < 8 implies #[trigger] v[i] == s[i + 1] by {}
    assert(!splits_char(v, 0)) by {
        reveal_with_fuel(splits_char, 5);
    }
    reveal(hex_color);
}

/// The appearance file that records `selection`: a line for each of the
/// theme, variant, accent (as `"#rrggbbaa"`) and font family that is set,
/// in that order.
pub open spec fn appearance_text(selection: AppearanceSelection) -> Seq<char> {
    string_setting(seq!['t', 'h', 'e', 'm', 'e'], selection.theme)
        + string_setting(seq!['v', 'a', 'r', 'i', 'a', 'n', 't'], selection.variant)
        + accent_setting(selection.accent)
        + string_setting(seq!['f', 'o', 'n', 't', '_', 'f', 'a', 'm', 'i', 'l', 'y'], selection.font_family)
}

/// Appends `b` as two lower-case hex digits.
fn push_hex_byte(out: &mut String, b: u8)
    ensures
        final(out)@ == old(out)@ + hex_byte(b),
{
    let digits = "0123456789abcdef";
    proof {
        reveal_strlit("0123456789abcdef");
    }
    assert(digits.is_ascii());
    let hi = (b / 16) as usize;
    let lo = (b % 16) as usize;
    let h = digits.substring_ascii(hi, hi + 1);
    let l = digits.substring_ascii(lo, lo + 1);
    assert(h@ =~= seq![nibble_char((b / 16) as int)]);
    assert(l@ =~= seq![nibble_char((b % 16) as int)]);
    out.append(h);
    out.append(l);
}

/// An optional string rendered as a TOML literal.
fn rendered(value: &Option<String>) -> (r: Option<String>)
    requires
        value matches Some(v) ==> toml_quote_runs_fit(v@),
    ensures
        match *value {
            Some(v) => r matches Some(l) && l@ == toml_string_literal(v@),
            None => r is None,
        },
{
    match value {
        Some(v) => Some(toml_string(v)),
        None => None,
    }
}

/// Appends the line for an optional, already rendered, string setting.
fn push_literal_setting(out: &mut String, key: &str, literal: &Option<String>)
    ensures
        final(out)@ == old(out)@ + literal_setting(key@, *literal),
{
    match literal {
        Some(l) => {
            proof {
                reveal_strlit(" = ");
                reveal_strlit("\n");
            }
            out.append(key);
            out.append(" = ");
            out.append(l.as_str());
            out.append("\n");
            assert(final(out)@ =~= old(out)@ + literal_setting(key@, *literal)) by {
                assert(*final(out) == *out);
            }
        },
        None => {
            assert(out@ =~= old(out)@ + Seq::<char>::empty());
        },
    }
}

/// Appends the accent line, when an accent is set.
fn push_accent_setting(out: &mut String, accent: Option<Color>)
    ensures
        final(out)@ == old(out)@ + accent_setting(accent),
{
    match accent {
        Some(c) => {
            proof {
                reveal_strlit("accent = \"#");
                reveal_strlit("\"\n");
            }
            out.append("accent = \"#");
            push_hex_byte(out, c.r);
            push_hex_byte(out, c.g);
            push_hex_byte(out, c.b);
            push_hex_byte(out, c.a);
            out.append("\"\n");
            assert(out@ =~= old(out)@ + accent_setting(accent));
        },
        None => {
            assert(out@ =~= old(out)@ + accent_setting(accent));
        },
    }
}

/// The text of an appearance file from its settings, the string ones
/// (theme, variant, font family) already rendered as TOML literals.
pub fn appearance_text_from_literals(
    theme: &Option<String>,
    variant: &Option<String>,
    accent: Option<Color>,
    font_family: &Option<String>,
) -> (r: String)
    ensures
        r@ == appearance_text_of(*theme, *variant, accent, *font_family),
{
    let mut out = String::new();
    proof {
        reveal_strlit("theme");
        reveal_strlit("variant");
        reveal_strlit("font_family");
    }
    push_literal_setting(&mut out, "theme", theme);
    let ghost a = out@;
    push_literal_setting(&mut out, "variant", variant);
    push_accent_setting(&mut out, accent);
    push_literal_setting(&mut out, "font_family", font_family);
    assert(a =~= literal_setting(seq!['t', 'h', 'e', 'm', 'e'], *theme));
    assert(out@ =~= appearance_text_of(*theme, *variant, accent, *font_family));
    out
}

/// The text of the appearance file that records `selection`.
pub fn appearance_file_text(selection: &AppearanceSelection) -> (r: String)
    requires
        selection.theme matches Some(v) ==> toml_quote_runs_fit(v@),
        selection.variant matches Some(v) ==> toml_quote_runs_fit(v@),
        selection.font_family matches Some(v) ==> toml_quote_runs_fit(v@),
    ensures
        r@ == appearance_text(*selection),
{
    let theme = rendered(&selection.theme);
    let variant = rendered(&selection.variant);
    let font_family = rendered(&selection.font_family);
    let r = appearance_text_from_literals(&theme, &variant, selection.accent, &font_family);
    proof {
        assert(literal_setting(seq!['t', 'h', 'e', 'm', 'e'], theme)
            == string_setting(seq!['t', 'h', 'e', 'm', 'e'], selection.theme));
        assert(literal_setting(seq!['v', 'a', 'r', 'i', 'a', 'n', 't'], variant)
            == string_setting(seq!['v', 'a', 'r', 'i', 'a', 'n', 't'], selection.variant));
        assert(literal_setting(seq!['f', 'o', 'n', 't', '_', 'f', 'a', 'm', 'i', 'l', 'y'], font_family)
            == string_setting(seq!['f', 'o', 'n', 't', '_', 'f', 'a', 'm', 'i', 'l', 'y'], selection.font_family));
    }
    r
}

} // verus!
