//! Settings that last from session to session.

use vstd::prelude::*;
use vstd::string::*;
use crate::arith::{number, from_whole};
use crate::fft::FFT_SIZE;
use crate::keybindings::{Bindings, KeyAction};
use crate::scalar::{fadd, fmul, fdiv, fmin, rounded, add_to, multiply, divide_by, smaller, round};
use crate::single::{Bits, ONE};
use crate::text::{characters, copy_of, text_of, is_text_in_any_case, split, split_words, trim, fill_in};
use crate::text::{lowered, pieces, texts, trimmed, words, filled};

verus! {

// ---- Colours ----------------------------------------------------------------

/// Red, green, blue and opacity, from zero to one.
#[derive(Clone, Copy, PartialEq, Eq, Debug, Structural)]
pub struct Colour {
    pub r: Bits,
    pub g: Bits,
    pub b: Bits,
    pub a: Bits,
}

/// A number of thousandths.
pub open spec fn thousandths(n: u16) -> Bits {
    fdiv(number(n as nat), number(1000))
}

pub open spec fn shade(r: u16, g: u16, b: u16, a: u16) -> Colour {
    Colour { r: thousandths(r), g: thousandths(g), b: thousandths(b), a: thousandths(a) }
}

fn to_thousandths(n: u16) -> (r: Bits)
    ensures
        r == thousandths(n),
{
    divide_by(from_whole(n as u64), from_whole(1000))
}

fn colour(r: u16, g: u16, b: u16, a: u16) -> (c: Colour)
    ensures
        c == shade(r, g, b, a),
{
    Colour {
        r: to_thousandths(r),
        g: to_thousandths(g),
        b: to_thousandths(b),
        a: to_thousandths(a),
    }
}

/// A colour made lighter by some thousandths, with another opacity.
pub open spec fn lighter(c: Colour, by: u16, a: Bits) -> Colour {
    Colour {
        r: fmin(fadd(c.r, thousandths(by)), ONE),
        g: fmin(fadd(c.g, thousandths(by)), ONE),
        b: fmin(fadd(c.b, thousandths(by)), ONE),
        a,
    }
}

fn lighten(c: Colour, by: u16, a: Bits) -> (r: Colour)
    ensures
        r == lighter(c, by, a),
{
    let d: Bits = to_thousandths(by);
    Colour {
        r: smaller(add_to(c.r, d), ONE),
        g: smaller(add_to(c.g, d), ONE),
        b: smaller(add_to(c.b, d), ONE),
        a,
    }
}

// ---- Choices ----------------------------------------------------------------

/// Light text on dark ground, or the other way round.
#[derive(Clone, Copy, PartialEq, Eq, Debug, Structural)]
pub enum ThemeChoice {
    Dark,
    Light,
}

impl Default for ThemeChoice {
    fn default() -> (d: ThemeChoice)
        ensures
            d == ThemeChoice::Dark,
    {
        ThemeChoice::Dark
    }
}

impl ThemeChoice {
    pub open spec fn name(self) -> Seq<char> {
        match self {
            ThemeChoice::Dark => "Dark"@,
            ThemeChoice::Light => "Light"@,
        }
    }

    /// Every choice, in the order of the menu.
    pub fn all() -> (list: [ThemeChoice; 2])
        ensures
            list@ == seq![
                ThemeChoice::Dark,
                ThemeChoice::Light,
            ],
    {
        let list: [ThemeChoice; 2] = [
            ThemeChoice::Dark,
            ThemeChoice::Light,
        ];
        list
    }

    /// The name shown in menus.
    pub fn label(self) -> (s: &'static str)
        ensures
            s@ == self.name(),
    {
        match self {
            ThemeChoice::Dark => "Dark",
            ThemeChoice::Light => "Light",
        }
    }

    /// The name of the theme that is built for the choice.
    pub fn theme_name(self) -> (s: String)
        ensures
            s@ == "PeakMuncher "@ + self.name(),
    {
        let mut s: String = "PeakMuncher ".to_owned();
        s.append(self.label());
        s
    }
}

/// The colour of buttons and sliders.
#[derive(Clone, Copy, PartialEq, Eq, Debug, Structural)]
pub enum AccentColor {
    Blue,
    Green,
    Orange,
    Purple,
    Red,
    Teal,
    /// The accent colour of the desktop; blue where it cannot be found out.
    System,
}

impl Default for AccentColor {
    fn default() -> (d: AccentColor)
        ensures
            d == AccentColor::Blue,
    {
        AccentColor::Blue
    }
}

impl AccentColor {
    pub open spec fn name(self) -> Seq<char> {
        match self {
            AccentColor::Blue => "Blue"@,
            AccentColor::Green => "Green"@,
            AccentColor::Orange => "Orange"@,
            AccentColor::Purple => "Purple"@,
            AccentColor::Red => "Red"@,
            AccentColor::Teal => "Teal"@,
            AccentColor::System => "System"@,
        }
    }

    /// Every choice, in the order of the menu.
    pub fn all() -> (list: [AccentColor; 7])
        ensures
            list@ == seq![
                AccentColor::Blue,
                AccentColor::Green,
                AccentColor::Orange,
                AccentColor::Purple,
                AccentColor::Red,
                AccentColor::Teal,
                AccentColor::System,
            ],
    {
        let list: [AccentColor; 7] = [
            AccentColor::Blue,
            AccentColor::Green,
            AccentColor::Orange,
            AccentColor::Purple,
            AccentColor::Red,
            AccentColor::Teal,
            AccentColor::System,
        ];
        list
    }

    /// The name shown in menus.
    pub fn label(self) -> (s: &'static str)
        ensures
            s@ == self.name(),
    {
        match self {
            AccentColor::Blue => "Blue",
            AccentColor::Green => "Green",
            AccentColor::Orange => "Orange",
            AccentColor::Purple => "Purple",
            AccentColor::Red => "Red",
            AccentColor::Teal => "Teal",
            AccentColor::System => "System",
        }
    }

    /// The colour at rest. `system` is the accent of the desktop, if it was
    /// found.
    pub open spec fn resting(self, system: Option<Colour>) -> Colour {
        match self {
            AccentColor::Blue => shade(160, 380, 780, 1000),
            AccentColor::Green => shade(200, 600, 350, 1000),
            AccentColor::Orange => shade(850, 500, 150, 1000),
            AccentColor::Purple => shade(550, 300, 750, 1000),
            AccentColor::Red => shade(780, 250, 250, 1000),
            AccentColor::Teal => shade(100, 550, 600, 1000),
            AccentColor::System => match system {
                Some(c) => c,
                None => shade(160, 380, 780, 1000),
            },
        }
    }

    /// The colour at rest.
    pub fn color(self, system: Option<Colour>) -> (c: Colour)
        ensures
            c == self.resting(system),
    {
        match self {
            AccentColor::Blue => colour(160, 380, 780, 1000),
            AccentColor::Green => colour(200, 600, 350, 1000),
            AccentColor::Orange => colour(850, 500, 150, 1000),
            AccentColor::Purple => colour(550, 300, 750, 1000),
            AccentColor::Red => colour(780, 250, 250, 1000),
            AccentColor::Teal => colour(100, 550, 600, 1000),
            AccentColor::System => match system {
                Some(c) => c,
                None => colour(160, 380, 780, 1000),
            },
        }
    }

    /// The slightly brighter colour under the pointer.
    pub fn color_hover(self, system: Option<Colour>) -> (c: Colour)
        ensures
            c == lighter(self.resting(system), 80, thousandths(1000)),
    {
        lighten(self.color(system), 80, to_thousandths(1000))
    }
}

/// The colours of the input and of the processed waveform.
#[derive(Clone, Copy, PartialEq, Eq, Debug, Structural)]
pub enum WaveformScheme {
    Classic,
    Mono,
    Warm,
    Cool,
    /// Derived from the accent colour.
    AccentTied,
    PeakMuncher,
    /// Two colours from the settings.
    Custom,
}

impl Default for WaveformScheme {
    fn default() -> (d: WaveformScheme)
        ensures
            d == WaveformScheme::Classic,
    {
        WaveformScheme::Classic
    }
}

impl WaveformScheme {
    pub open spec fn name(self) -> Seq<char> {
        match self {
            WaveformScheme::Classic => "Classic"@,
            WaveformScheme::Mono => "Mono"@,
            WaveformScheme::Warm => "Warm"@,
            WaveformScheme::Cool => "Cool"@,
            WaveformScheme::AccentTied => "Accent-tied"@,
            WaveformScheme::PeakMuncher => "PeakMuncher"@,
            WaveformScheme::Custom => "Custom"@,
        }
    }

    /// Every choice, in the order of the menu.
    pub fn all() -> (list: [WaveformScheme; 7])
        ensures
            list@ == seq![
                WaveformScheme::Classic,
                WaveformScheme::Mono,
                WaveformScheme::Warm,
                WaveformScheme::Cool,
                WaveformScheme::AccentTied,
                WaveformScheme::PeakMuncher,
                WaveformScheme::Custom,
            ],
    {
        let list: [WaveformScheme; 7] = [
            WaveformScheme::Classic,
            WaveformScheme::Mono,
            WaveformScheme::Warm,
            WaveformScheme::Cool,
            WaveformScheme::AccentTied,
            WaveformScheme::PeakMuncher,
            WaveformScheme::Custom,
        ];
        list
    }

    /// The name shown in menus.
    pub fn label(self) -> (s: &'static str)
        ensures
            s@ == self.name(),
    {
        match self {
            WaveformScheme::Classic => "Classic",
            WaveformScheme::Mono => "Mono",
            WaveformScheme::Warm => "Warm",
            WaveformScheme::Cool => "Cool",
            WaveformScheme::AccentTied => "Accent-tied",
            WaveformScheme::PeakMuncher => "PeakMuncher",
            WaveformScheme::Custom => "Custom",
        }
    }

    /// The colours of the input and of the processed waveform.
    pub open spec fn pair(self, accent: Colour, custom_in: Colour, custom_out: Colour) -> (Colour, Colour) {
        match self {
            WaveformScheme::Classic => (shade(700, 700, 750, 550), shade(1000, 550, 180, 850)),
            WaveformScheme::Mono => (shade(550, 550, 550, 500), shade(950, 950, 950, 850)),
            WaveformScheme::Warm => (shade(900, 650, 200, 550), shade(850, 200, 200, 850)),
            WaveformScheme::Cool => (shade(300, 500, 850, 550), shade(300, 850, 950, 850)),
            WaveformScheme::AccentTied => (
                Colour {
                    r: fmul(accent.r, thousandths(550)),
                    g: fmul(accent.g, thousandths(550)),
                    b: fmul(accent.b, thousandths(550)),
                    a: thousandths(550),
                },
                lighter(accent, 150, thousandths(850)),
            ),
            WaveformScheme::PeakMuncher => (shade(137, 137, 580, 1000), shade(1000, 650, 150, 950)),
            WaveformScheme::Custom => (custom_in, custom_out),
        }
    }

    /// The colours of the input and of the processed waveform.
    pub fn colors(self, accent: Colour, custom_in: Colour, custom_out: Colour) -> (r: (Colour, Colour))
        ensures
            r == self.pair(accent, custom_in, custom_out),
    {
        match self {
            WaveformScheme::Classic => (colour(700, 700, 750, 550), colour(1000, 550, 180, 850)),
            WaveformScheme::Mono => (colour(550, 550, 550, 500), colour(950, 950, 950, 850)),
            WaveformScheme::Warm => (colour(900, 650, 200, 550), colour(850, 200, 200, 850)),
            WaveformScheme::Cool => (colour(300, 500, 850, 550), colour(300, 850, 950, 850)),
            WaveformScheme::AccentTied => {
                let dim: Bits = to_thousandths(550);
                (
                    Colour {
                        r: multiply(accent.r, dim),
                        g: multiply(accent.g, dim),
                        b: multiply(accent.b, dim),
                        a: dim,
                    },
                    lighten(accent, 150, to_thousandths(850)),
                )
            },
            WaveformScheme::PeakMuncher => (colour(137, 137, 580, 1000), colour(1000, 650, 150, 950)),
            WaveformScheme::Custom => (custom_in, custom_out),
        }
    }
}

// ---- Colours as text --------------------------------------------------------

/// A colour as four bytes.
#[derive(Clone, Copy, PartialEq, Eq, Debug, Structural)]
pub struct HexColor {
    pub r: u8,
    pub g: u8,
    pub b: u8,
    pub a: u8,
}

/// The value of a hexadecimal digit.
pub open spec fn digit_value(c: char) -> Option<int> {
    if '0' <= c && c <= '9' {
        Some(c as int - '0' as int)
    } else if 'a' <= c && c <= 'f' {
        Some(c as int - 'a' as int + 10)
    } else if 'A' <= c && c <= 'F' {
        Some(c as int - 'A' as int + 10)
    } else {
        None
    }
}

/// The value of two hexadecimal digits.
pub open spec fn pair_value(hi: char, lo: char) -> Option<int> {
    match (digit_value(hi), digit_value(lo)) {
        (Some(h), Some(l)) => Some(16 * h + l),
        _ => None,
    }
}

/// Without the number signs in front.
pub open spec fn without_marks(s: Seq<char>) -> Seq<char>
    decreases s.len(),
{
    if s.len() > 0 && s[0] == '#' {
        without_marks(s.drop_first())
    } else {
        s
    }
}

/// The byte at a pair of digits.
pub open spec fn byte_at(s: Seq<char>, i: int) -> Option<int> {
    pair_value(s[2 * i], s[2 * i + 1])
}

/// The colour that `#RRGGBB` or `#RRGGBBAA` means.
pub open spec fn hex_color(s: Seq<char>) -> Option<HexColor> {
    let d = without_marks(trimmed(s));
    let opaque = d.len() == 6;
    if (d.len() == 6 || d.len() == 8) && byte_at(d, 0) is Some && byte_at(d, 1) is Some && byte_at(
        d,
        2,
    ) is Some && (opaque || byte_at(d, 3) is Some) {
        Some(
            HexColor {
                r: byte_at(d, 0)->0 as u8,
                g: byte_at(d, 1)->0 as u8,
                b: byte_at(d, 2)->0 as u8,
                a: if opaque {
                    255
                } else {
                    byte_at(d, 3)->0 as u8
                },
            },
        )
    } else {
        None
    }
}

/// The hexadecimal digit of a value.
pub open spec fn hex_digit(n: int) -> char {
    if n < 10 {
        ('0' as u32 + n) as char
    } else {
        ('A' as u32 + n - 10) as char
    }
}

/// `#RRGGBBAA`.
pub open spec fn hex_text(c: HexColor) -> Seq<char> {
    seq![
        '#',
        hex_digit(c.r as int / 16),
        hex_digit(c.r as int % 16),
        hex_digit(c.g as int / 16),
        hex_digit(c.g as int % 16),
        hex_digit(c.b as int / 16),
        hex_digit(c.b as int % 16),
        hex_digit(c.a as int / 16),
        hex_digit(c.a as int % 16),
    ]
}

fn read_digit(c: char) -> (r: Option<u8>)
    ensures
        r matches Some(v) ==> v < 16 && digit_value(c) == Some(v as int),
        r is None ==> digit_value(c) is None,
{
    let n: u32 = c as u32;
    if '0' <= c && c <= '9' {
        Some((n - 48) as u8)
    } else if 'a' <= c && c <= 'f' {
        Some((n - 97 + 10) as u8)
    } else if 'A' <= c && c <= 'F' {
        Some((n - 65 + 10) as u8)
    } else {
        None
    }
}

fn read_pair(hi: char, lo: char) -> (r: Option<u8>)
    ensures
        r matches Some(v) ==> pair_value(hi, lo) == Some(v as int),
        r is None ==> pair_value(hi, lo) is None,
{
    match (read_digit(hi), read_digit(lo)) {
        (Some(h), Some(l)) => Some(16 * h + l),
        _ => None,
    }
}

fn strip_marks(v: &Vec<char>) -> (r: Vec<char>)
    ensures
        r@ == without_marks(v@),
{
    let mut a: usize = 0;
    assert(v@.skip(0) =~= v@);
    while a < v.len() && v[a] == '#'
        invariant
            a <= v@.len(),
            without_marks(v@) == without_marks(v@.skip(a as int)),
        decreases v@.len() - a,
    {
        assert(v@.skip(a as int).drop_first() =~= v@.skip(a + 1));
        a = a + 1;
    }
    assert(v@.subrange(a as int, v@.len() as int) =~= v@.skip(a as int));
    copy_of(v, a, v.len())
}

/// Reads `#RRGGBB` or `#RRGGBBAA`; the number sign may be missing.
pub fn parse_hex_color(s: &str) -> (r: Option<HexColor>)
    ensures
        r == hex_color(s@),
{
    let d: Vec<char> = strip_marks(&trim(&characters(s)));
    if d.len() != 6 && d.len() != 8 {
        return None;
    }
    let r: u8 = match read_pair(d[0], d[1]) {
        None => return None,
        Some(v) => v,
    };
    let g: u8 = match read_pair(d[2], d[3]) {
        None => return None,
        Some(v) => v,
    };
    let b: u8 = match read_pair(d[4], d[5]) {
        None => return None,
        Some(v) => v,
    };
    if d.len() == 6 {
        return Some(HexColor { r, g, b, a: 255 });
    }
    match read_pair(d[6], d[7]) {
        None => None,
        Some(a) => Some(HexColor { r, g, b, a }),
    }
}

fn write_digit(n: u8) -> (c: char)
    requires
        n < 16,
    ensures
        c == hex_digit(n as int),
{
    if n < 10 {
        (48 + n) as char
    } else {
        (65 + n - 10) as char
    }
}

impl HexColor {
    /// Writes `#RRGGBBAA`.
    pub fn to_text(self) -> (s: String)
        ensures
            s@ == hex_text(self),
    {
        let mut s: String = String::new();
        s.push('#');
        s.push(write_digit(self.r / 16));
        s.push(write_digit(self.r % 16));
        s.push(write_digit(self.g / 16));
        s.push(write_digit(self.g % 16));
        s.push(write_digit(self.b / 16));
        s.push(write_digit(self.b % 16));
        s.push(write_digit(self.a / 16));
        s.push(write_digit(self.a % 16));
        assert(s@ =~= hex_text(self));
        s
    }

    /// The byte of a colour component.
    pub open spec fn byte_of(x: Bits) -> u8 {
        let n = rounded(fmul(x, number(255)));
        if n > 255 {
            255
        } else {
            n as u8
        }
    }

    fn to_byte(x: Bits) -> (r: u8)
        ensures
            r == HexColor::byte_of(x),
    {
        let n: u64 = round(multiply(x, from_whole(255)));
        if n > 255 {
            255
        } else {
            n as u8
        }
    }

    /// The four bytes of a colour.
    pub fn new(c: Colour) -> (h: HexColor)
        ensures
            h.r == HexColor::byte_of(c.r),
            h.g == HexColor::byte_of(c.g),
            h.b == HexColor::byte_of(c.b),
            h.a == HexColor::byte_of(c.a),
    {
        HexColor {
            r: HexColor::to_byte(c.r),
            g: HexColor::to_byte(c.g),
            b: HexColor::to_byte(c.b),
            a: HexColor::to_byte(c.a),
        }
    }

    pub open spec fn component(n: u8) -> Bits {
        fdiv(number(n as nat), number(255))
    }

    /// The colour of four bytes.
    pub fn to_color(self) -> (c: Colour)
        ensures
            c == (Colour {
                r: HexColor::component(self.r),
                g: HexColor::component(self.g),
                b: HexColor::component(self.b),
                a: HexColor::component(self.a),
            }),
    {
        let full: Bits = from_whole(255);
        Colour {
            r: divide_by(from_whole(self.r as u64), full),
            g: divide_by(from_whole(self.g as u64), full),
            b: divide_by(from_whole(self.b as u64), full),
            a: divide_by(from_whole(self.a as u64), full),
        }
    }
}

/// A colour that is written as text is read back as it was.
pub proof fn law_hex_round_trip(c: HexColor)
    ensures
        hex_color(hex_text(c)) == Some(c),
{
    let s = hex_text(c);
    lemma_digits(c.r);
    lemma_digits(c.g);
    lemma_digits(c.b);
    lemma_digits(c.a);
    assert(trimmed(s) == s) by {
        assert(!crate::text::is_space('#'));
        assert(!crate::text::is_space(s.last()));
    }
    let d = s.drop_first();
    assert(without_marks(s) == without_marks(d));
    assert(without_marks(d) == d);
    assert(d.len() == 8);
    assert(d[0] == s[1] && d[1] == s[2] && d[2] == s[3] && d[3] == s[4]);
    assert(d[4] == s[5] && d[5] == s[6] && d[6] == s[7] && d[7] == s[8]);
}

proof fn lemma_digits(n: u8)
    ensures
        pair_value(hex_digit(n as int / 16), hex_digit(n as int % 16)) == Some(n as int),
        hex_digit(n as int / 16) != '#',
        !crate::text::is_space(hex_digit(n as int % 16)),
{
    lemma_digit(n as int / 16);
    lemma_digit(n as int % 16);
}

proof fn lemma_digit(n: int)
    requires
        0 <= n < 16,
    ensures
        digit_value(hex_digit(n)) == Some(n),
        hex_digit(n) != '#',
        !crate::text::is_space(hex_digit(n)),
{
}

// ---- The accent of the desktop ----------------------------------------------

/// Does a line open a section?
pub open spec fn opens_section(line: Seq<char>) -> bool {
    line.len() > 0 && line[0] == '[' && line.last() == ']'
}

/// What follows a prefix.
pub open spec fn after(line: Seq<char>, prefix: Seq<char>) -> Option<Seq<char>> {
    if prefix.len() <= line.len() && line.take(prefix.len() as int) == prefix {
        Some(line.skip(prefix.len() as int))
    } else {
        None
    }
}

/// The value of an accent line.
pub open spec fn accent_value(line: Seq<char>) -> Option<Seq<char>> {
    match after(line, "AccentColor="@) {
        Some(v) => Some(v),
        None => after(line, "AccentColor ="@),
    }
}

/// The three numbers of an accent value.
pub open spec fn three_numbers(value: Seq<char>) -> Option<(Seq<char>, Seq<char>, Seq<char>)> {
    let p = pieces(value, ',');
    if p.len() == 3 {
        Some((trimmed(p[0]), trimmed(p[1]), trimmed(p[2])))
    } else {
        None
    }
}

/// The accent in the lines from `i` on; `general` says whether they are in the
/// general section.
pub open spec fn accent_from(lines: Seq<Seq<char>>, general: bool, i: nat) -> Option<
    (Seq<char>, Seq<char>, Seq<char>),
>
    decreases lines.len() - i,
{
    if i >= lines.len() {
        None
    } else {
        let line = trimmed(lines[i as int]);
        if opens_section(line) {
            accent_from(lines, lowered(line) == lowered("[General]"@), i + 1)
        } else if general && accent_value(line) is Some && three_numbers(accent_value(line)->0) is Some {
            three_numbers(accent_value(line)->0)
        } else {
            accent_from(lines, general, i + 1)
        }
    }
}

/// The accent colour in the desktop's settings file, as three numbers from 0 to
/// 255.
pub open spec fn accent_numbers(text: Seq<char>) -> Option<(Seq<char>, Seq<char>, Seq<char>)> {
    accent_from(pieces(text, '\n'), false, 0)
}

fn strip_prefix(line: &Vec<char>, prefix: &str) -> (r: Option<Vec<char>>)
    ensures
        match r {
            Some(v) => after(line@, prefix@) == Some(v@),
            None => after(line@, prefix@) is None,
        },
{
    let p: Vec<char> = characters(prefix);
    if line.len() < p.len() {
        return None;
    }
    let mut i: usize = 0;
    while i < p.len()
        invariant
            p@ == prefix@,
            p@.len() <= line@.len(),
            i <= p@.len(),
            forall|k: int| 0 <= k < i ==> line@[k] == p@[k],
        decreases p@.len() - i,
    {
        if line[i] != p[i] {
            assert(line@.take(p@.len() as int)[i as int] != p@[i as int]);
            return None;
        }
        i = i + 1;
    }
    assert(line@.take(p@.len() as int) =~= prefix@);
    assert(line@.subrange(p@.len() as int, line@.len() as int) =~= line@.skip(p@.len() as int));
    Some(copy_of(line, p.len(), line.len()))
}

/// The three numbers, as texts.
pub open spec fn numbers_view(r: Option<(String, String, String)>) -> Option<
    (Seq<char>, Seq<char>, Seq<char>),
> {
    match r {
        None => None,
        Some((a, b, c)) => Some((a@, b@, c@)),
    }
}

fn as_text(v: &Vec<char>) -> (s: String)
    ensures
        s@ == v@,
{
    assert(v@.subrange(0, v@.len() as int) =~= v@);
    text_of(v, 0, v.len())
}

fn read_three(value: &Vec<char>) -> (r: Option<(String, String, String)>)
    ensures
        numbers_view(r) == three_numbers(value@),
{
    let p: Vec<Vec<char>> = split(value, ',');
    assert(texts(p@).len() == p@.len());
    if p.len() != 3 {
        return None;
    }
    assert(texts(p@)[0] == p@[0]@ && texts(p@)[1] == p@[1]@ && texts(p@)[2] == p@[2]@);
    Some((as_text(&trim(&p[0])), as_text(&trim(&p[1])), as_text(&trim(&p[2]))))
}

/// Finds the accent colour in the desktop's settings file.
pub fn system_accent(text: &str) -> (r: Option<(String, String, String)>)
    ensures
        numbers_view(r) == accent_numbers(text@),
{
    let lines: Vec<Vec<char>> = split(&characters(text), '\n');
    let ghost all = pieces(text@, '\n');
    assert(all.len() == lines@.len());
    let mut general: bool = false;
    let mut i: usize = 0;
    while i < lines.len()
        invariant
            all == texts(lines@),
            all.len() == lines@.len(),
            i <= lines@.len(),
            accent_from(all, false, 0) == accent_from(all, general, i as nat),
            all == pieces(text@, '\n'),
        decreases lines@.len() - i,
    {
        assert(all[i as int] == lines@[i as int]@);
        let line: Vec<char> = trim(&lines[i]);
        let n: usize = line.len();
        if n > 0 && line[0] == '[' && line[n - 1] == ']' {
            general = is_text_in_any_case(&line, "[General]");
        } else if general {
            let value: Option<Vec<char>> = match strip_prefix(&line, "AccentColor=") {
                Some(v) => Some(v),
                None => strip_prefix(&line, "AccentColor ="),
            };
            if let Some(v) = value {
                assert(accent_value(line@) == Some(v@));
                if let Some(t) = read_three(&v) {
                    return Some(t);
                }
            }
        }
        i = i + 1;
    }
    None
}

// ---- External tools ---------------------------------------------------------

/// A program that an exported file can be handed to. `%f` in the command stands
/// for the file.
pub struct ExternalTool {
    pub name: String,
    pub command: String,
}

pub open spec fn strings(list: Seq<String>) -> Seq<Seq<char>> {
    list.map_values(|s: String| s@)
}

impl ExternalTool {
    /// The program and its arguments: the first word of the command, and the
    /// others with `%f` filled in.
    pub fn resolve(&self, file_path: &str) -> (r: Option<(String, Vec<String>)>)
        ensures
            match r {
                None => words(self.command@).len() == 0,
                Some((program, args)) => {
                    &&& words(self.command@).len() > 0
                    &&& program@ == words(self.command@)[0]
                    &&& strings(args@) == words(self.command@).skip(1).map_values(
                        |w: Seq<char>| filled(w, file_path@),
                    )
                },
            },
    {
        let list: Vec<Vec<char>> = split_words(&characters(self.command.as_str()));
        let ghost all = words(self.command@);
        assert(all.len() == list@.len());
        if list.len() == 0 {
            return None;
        }
        assert(all[0] == list@[0]@);
        let program: String = as_text(&list[0]);
        let ghost wanted = all.skip(1).map_values(|w: Seq<char>| filled(w, file_path@));
        let mut args: Vec<String> = Vec::new();
        let mut i: usize = 1;
        while i < list.len()
            invariant
                all == texts(list@),
                all.len() == list@.len(),
                wanted == all.skip(1).map_values(|w: Seq<char>| filled(w, file_path@)),
                1 <= i <= list@.len(),
                strings(args@) =~= wanted.take(i - 1),
            decreases list@.len() - i,
        {
            assert(all[i as int] == list@[i as int]@);
            let ghost before = strings(args@);
            let arg: String = fill_in(&list[i], file_path);
            let ghost last = arg@;
            args.push(arg);
            assert(strings(args@) =~= before.push(last));
            i = i + 1;
        }
        assert(wanted.take(wanted.len() as int) =~= wanted);
        Some((program, args))
    }
}

// ---- Settings ---------------------------------------------------------------

/// The settings. Paths are texts.
pub struct Settings {
    pub theme: ThemeChoice,
    pub accent: AccentColor,
    pub waveform_scheme: WaveformScheme,
    pub custom_input_color: Colour,
    pub custom_output_color: Colour,
    pub default_open_dir: Option<String>,
    pub default_export_dir: Option<String>,
    pub external_tools: Vec<ExternalTool>,
    pub keybindings: Bindings,
    /// Window of the spectrogram, in samples.
    pub spectrogram_fft_size: usize,
}

/// The spectrogram's window unless the user sets another.
pub fn default_sg_fft() -> (n: usize)
    ensures
        n == FFT_SIZE,
{
    FFT_SIZE
}

/// The custom colour of the input until the user sets it.
pub fn default_custom_in() -> (c: Colour)
    ensures
        c == shade(500, 500, 550, 650),
{
    colour(500, 500, 550, 650)
}

/// The custom colour of the processed waveform until the user sets it.
pub fn default_custom_out() -> (c: Colour)
    ensures
        c == shade(950, 500, 200, 850),
{
    colour(950, 500, 200, 850)
}

impl Default for Settings {
    fn default() -> (s: Settings)
        ensures
            s.theme == ThemeChoice::Dark,
            s.accent == AccentColor::Blue,
            s.waveform_scheme == WaveformScheme::Classic,
            s.custom_input_color == shade(500, 500, 550, 650),
            s.custom_output_color == shade(950, 500, 200, 850),
            s.default_open_dir is None,
            s.default_export_dir is None,
            s.external_tools@.len() == 0,
            s.keybindings@ == KeyAction::list().map_values(|a: KeyAction| (a, a.usual())),
            s.spectrogram_fft_size == FFT_SIZE,
    {
        Settings {
            theme: ThemeChoice::default(),
            accent: AccentColor::default(),
            waveform_scheme: WaveformScheme::default(),
            custom_input_color: default_custom_in(),
            custom_output_color: default_custom_out(),
            default_open_dir: None,
            default_export_dir: None,
            external_tools: Vec::new(),
            keybindings: Bindings::default(),
            spectrogram_fft_size: default_sg_fft(),
        }
    }
}

} // verus!
