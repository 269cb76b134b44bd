//! The presentation layer's data: colors, glyph styles, the theme, and
//! the shapes the renderer walks.  The terminal writing itself lives
//! outside the library.

use vstd::prelude::*;

use crate::stream::Stream;
use crate::text;

verus! {

/// One RGB color.
#[derive(Debug, Copy, Clone, PartialEq, Eq, Structural)]
pub struct Color(pub u8, pub u8, pub u8);

/// The strings whose trimmed form a color is read from: with or
/// without a leading hash sign.
pub open spec fn color_trimmed(s: Seq<char>) -> Seq<char> {
    text::drop_trailing(
        text::drop_leading(s, |c: char| text::is_space_char(c)),
        |c: char| text::is_space_char(c),
    )
}

/// A hex digit, either case.
pub open spec fn is_hex_digit(c: char) -> bool {
    ('0' <= c && c <= '9') || ('a' <= c && c <= 'f') || ('A' <= c && c <= 'F')
}

/// One hex digit's value.
pub open spec fn hex_digit_val(c: char) -> int {
    if '0' <= c && c <= '9' {
        (c as u32) - 48
    } else if 'a' <= c && c <= 'f' {
        (c as u32) - 87
    } else {
        (c as u32) - 55
    }
}

/// The number a digit run denotes, most significant digit first;
/// `None` when the run is empty or holds a non-digit.
pub open spec fn hex_run_val(s: Seq<char>) -> Option<int>
    decreases s.len(),
{
    if s.len() == 0 {
        None
    } else if s.len() == 1 {
        if is_hex_digit(s[0]) {
            Some(hex_digit_val(s[0]))
        } else {
            None
        }
    } else {
        match (hex_run_val(s.drop_last()), if is_hex_digit(s.last()) {
            Some(hex_digit_val(s.last()))
        } else {
            None
        }) {
            (Some(h), Some(d)) => Some(h * 16 + d),
            _ => None,
        }
    }
}

/// What a hex number literal denotes: an optional plus sign, then at
/// least one digit.
pub open spec fn hex_literal_val(s: Seq<char>) -> Option<int> {
    if s.len() > 0 && s[0] == '+' {
        hex_run_val(s.drop_first())
    } else {
        hex_run_val(s)
    }
}

/// The color a configuration string denotes: after trimming, either a
/// hash sign and six more characters, or six hex digits outright; the
/// remaining characters must read as a hex number, whose three bytes
/// are the channels.
pub open spec fn color_parsed(s: Seq<char>) -> Option<Color> {
    let t = color_trimmed(s);
    let hex = if t.len() == 7 && t[0] == '#' {
        Some(t.subrange(1, 7))
    } else if t.len() == 6 && (forall|i: int| 0 <= i < 6 ==> is_hex_digit(t[i])) {
        Some(t)
    } else {
        None
    };
    match hex {
        Some(h) => match hex_literal_val(h) {
            Some(v) => Some(
                Color(((v / 65536) % 256) as u8, ((v / 256) % 256) as u8, (v % 256) as u8),
            ),
            None => None,
        },
        None => None,
    }
}

/// Why a color string was rejected: its shape, or its digits.
#[derive(Debug, Copy, Clone, PartialEq, Eq, Structural)]
pub enum ColorParseError {
    NotHexShaped,
    BadHexNumber,
}

impl Color {
    /// The foreground a theme starts from.
    pub fn default_fg() -> (r: Color)
        ensures
            r == Color(0xC0u8, 0xC0u8, 0xC0u8),
    {
        Color(0xC0, 0xC0, 0xC0)
    }

    /// The background a theme starts from.
    pub fn default_bg() -> (r: Color)
        ensures
            r == Color(0u8, 0u8, 0u8),
    {
        Color(0x00, 0x00, 0x00)
    }

    /// Reads a configuration color such as `#3B78FF`.
    #[verifier::loop_isolation(false)]
    #[verifier::rlimit(60)]
    pub fn parse(s: &str) -> (r: Result<Color, ColorParseError>)
        ensures
            match r {
                Ok(c) => color_parsed(s@) == Some(c),
                Err(ColorParseError::NotHexShaped) => ({
                    let t = color_trimmed(s@);
                    !(t.len() == 7 && t[0] == '#') && !(t.len() == 6 && (forall|i: int|
                        0 <= i < 6 ==> is_hex_digit(t[i])))
                }),
                Err(ColorParseError::BadHexNumber) => color_parsed(s@) is None,
            },
    {
        let n = s.unicode_len();
        let mut lo: usize = 0;
        while lo < n && space(s.get_char(lo))
            invariant
                n == s@.len(),
                lo <= n,
                forall|i: int| 0 <= i < lo ==> text::is_space_char(s@[i]),
            decreases n - lo,
        {
            lo += 1;
        }
        let mut hi: usize = n;
        while hi > lo && space(s.get_char(hi - 1))
            invariant
                lo <= hi <= n,
                n == s@.len(),
                forall|i: int| hi <= i < n ==> text::is_space_char(s@[i]),
            decreases hi,
        {
            hi -= 1;
        }
        let ghost a = text::drop_leading(s@, |c: char| text::is_space_char(c));
        proof {
            text::lemma_drop_leading_subrange(s@, |c: char| text::is_space_char(c), lo as int);
            text::lemma_drop_trailing_subrange(a, |c: char| text::is_space_char(c), hi - lo);
            assert(color_trimmed(s@) =~= s@.subrange(lo as int, hi as int));
        }
        let t = s.substring_char(lo, hi);
        let tn = hi - lo;
        let start: usize = if tn == 7 && t.get_char(0) == '#' {
            1
        } else if tn == 6 && all_hex(t) {
            0
        } else {
            return Err(ColorParseError::NotHexShaped);
        };
        let ghost h = if start == 1 {
            t@.subrange(1, 7)
        } else {
            t@
        };
        proof {
            if start == 1 {
                assert(h =~= t@.subrange(1, 7));
            }
        }
        let mut k = start;
        let mut plus = false;
        if k < tn && t.get_char(k) == '+' {
            plus = true;
            k += 1;
        }
        let ghost digits = if plus {
            h.drop_first()
        } else {
            h
        };
        proof {
            if plus {
                assert(h[0] == '+');
                assert(digits =~= t@.subrange(k as int, tn as int));
            } else {
                if h.len() > 0 {
                    assert(h[0] != '+');
                }
                assert(digits =~= t@.subrange(k as int, tn as int));
            }
            assert(hex_literal_val(h) == hex_run_val(digits));
        }
        if k == tn {
            proof {
                assert(hex_run_val(digits) is None);
            }
            return Err(ColorParseError::BadHexNumber);
        }
        let mut v: u32 = 0;
        let mut j = k;
        proof {
            reveal_with_fuel(pow16, 8);
        }
        while j < tn
            invariant
                k <= j <= tn,
                j > k || v == 0,
                hex_run_val(t@.subrange(k as int, j as int)) == if j == k {
                    None::<int>
                } else {
                    Some(v as int)
                },
                v < pow16((j - k) as nat),
            decreases tn - j,
        {
            let c = t.get_char(j);
            let d: u32 = if '0' <= c && c <= '9' {
                (c as u32) - 48
            } else if 'a' <= c && c <= 'f' {
                (c as u32) - 87
            } else if 'A' <= c && c <= 'F' {
                (c as u32) - 55
            } else {
                proof {
                    lemma_hex_run_bad(t@.subrange(k as int, tn as int), j - k);
                }
                return Err(ColorParseError::BadHexNumber);
            };
            proof {
                assert(t@.subrange(k as int, j + 1).drop_last() =~= t@.subrange(
                    k as int,
                    j as int,
                ));
                assert(t@.subrange(k as int, j + 1).last() == t@[j as int]);
                lemma_pow16_mono((j - k) as nat, 5);
                assert(pow16(((j + 1) - k) as nat) == 16 * pow16((j - k) as nat));
            }
            v = v * 16 + d;
            j += 1;
        }
        proof {
            lemma_pow16_mono((j - k) as nat, 6);
        }
        proof {
            assert(t@.subrange(k as int, tn as int) =~= digits);
        }
        Ok(Color(((v / 65536) % 256) as u8, ((v / 256) % 256) as u8, (v % 256) as u8))
    }
}

/// Whatever a hex run holds a bad digit at some position, the whole
/// run reads as nothing.
proof fn lemma_hex_run_bad(s: Seq<char>, at: int)
    requires
        0 <= at < s.len(),
        !is_hex_digit(s[at]),
    ensures
        hex_run_val(s) is None,
    decreases s.len(),
{
    if s.len() > 1 && at < s.len() - 1 {
        lemma_hex_run_bad(s.drop_last(), at);
    }
}

/// Sixteen to a power.
pub open spec fn pow16(n: nat) -> int
    decreases n,
{
    if n == 0 {
        1
    } else {
        16 * pow16((n - 1) as nat)
    }
}

proof fn lemma_pow16_mono(a: nat, b: nat)
    requires
        a <= b,
    ensures
        pow16(a) <= pow16(b),
        pow16(a) >= 1,
    decreases b,
{
    if b > 0 {
        if a == b {
            lemma_pow16_mono(0, (b - 1) as nat);
        } else {
            lemma_pow16_mono(a, (b - 1) as nat);
        }
    }
}

/// A digit run's value stays below sixteen to its length.
proof fn lemma_hex_run_bound(s: Seq<char>)
    ensures
        hex_run_val(s) matches Some(v) ==> 0 <= v < pow16(s.len() as nat),
    decreases s.len(),
{
    reveal_with_fuel(pow16, 2);
    if s.len() > 1 {
        lemma_hex_run_bound(s.drop_last());
        assert(pow16(s.len() as nat) == 16 * pow16((s.len() - 1) as nat));
    }
}

/// Tests for Unicode whitespace.
fn space(c: char) -> (r: bool)
    ensures
        r == text::is_space_char(c),
{
    c == ' ' || c == '\u{9}' || c == '\u{a}' || c == '\u{b}' || c == '\u{c}' || c == '\u{d}'
        || c == '\u{85}' || c == '\u{a0}' || c == '\u{1680}' || ('\u{2000}' <= c && c
        <= '\u{200a}') || c == '\u{2028}' || c == '\u{2029}' || c == '\u{202f}' || c == '\u{205f}'
        || c == '\u{3000}'
}

/// Whether every character is a hex digit.
fn all_hex(t: &str) -> (r: bool)
    ensures
        r == forall|i: int| 0 <= i < t@.len() ==> is_hex_digit(t@[i]),
{
    let n = t.unicode_len();
    let mut i: usize = 0;
    while i < n
        invariant
            n == t@.len(),
            i <= n,
            forall|j: int| 0 <= j < i ==> is_hex_digit(t@[j]),
        decreases n - i,
    {
        let c = t.get_char(i);
        if !(('0' <= c && c <= '9') || ('a' <= c && c <= 'f') || ('A' <= c && c <= 'F')) {
            return false;
        }
        i += 1;
    }
    true
}

/// A color with its rendering attributes.
#[derive(Debug, Copy, Clone)]
pub struct ColorStyle {
    pub fg: Color,
    pub bg: Option<Color>,
    pub bold: bool,
}

impl ColorStyle {
    /// A plain style over the given foreground.
    pub fn new(fg: Color) -> (r: ColorStyle)
        ensures
            r.fg == fg,
            r.bg is None,
            !r.bold,
    {
        ColorStyle { fg, bg: None, bold: false }
    }

    /// The same style with the bold attribute toggled.
    pub fn bold(self) -> (r: ColorStyle)
        ensures
            r.fg == self.fg,
            r.bg == self.bg,
            r.bold == !self.bold,
    {
        ColorStyle { bold: !self.bold, ..self }
    }
}

impl Default for ColorStyle {
    /// The default foreground, no background, not bold.
    fn default() -> (r: ColorStyle)
        ensures
            r.fg == Color(0xC0u8, 0xC0u8, 0xC0u8),
            r.bg is None,
            !r.bold,
    {
        ColorStyle { fg: Color::default_fg(), bg: None, bold: false }
    }
}

/// The glyphs that frame one rendered entry.
#[derive(Debug, Clone)]
pub struct Style {
    pub top: String,
    pub entry_sep: String,
    pub end: String,
    pub link: String,
    pub title: String,
    pub continuation: String,
    pub stats: String,
}

impl Style {
    /// No framing glyphs at all.
    pub fn plain() -> (r: Style)
        ensures
            r.top@ == ""@ && r.entry_sep@ == ""@ && r.end@ == ""@ && r.link@ == ""@ && r.title@
                == ""@ && r.continuation@ == ""@ && r.stats@ == ""@,
    {
        proof {
            reveal_strlit("");
        }
        Style {
            top: String::new(),
            entry_sep: String::new(),
            end: String::new(),
            link: String::new(),
            title: String::new(),
            continuation: String::new(),
            stats: String::new(),
        }
    }

    /// The boxed frame the default configuration draws.
    pub fn boxed() -> (r: Style)
        ensures
            r.top@ == "\u{250c}\u{2500}\u{2500} "@,
            r.entry_sep@ == "\u{2502}"@,
            r.end@ == "\u{2514} "@,
            r.link@ == "\u{251c} "@,
            r.title@ == "\u{251c} "@,
            r.continuation@ == "\u{2502} "@,
            r.stats@ == "\u{251c} "@,
    {
        Style {
            top: "\u{250c}\u{2500}\u{2500} ".to_owned(),
            entry_sep: "\u{2502}".to_owned(),
            end: "\u{2514} ".to_owned(),
            link: "\u{251c} ".to_owned(),
            title: "\u{251c} ".to_owned(),
            continuation: "\u{2502} ".to_owned(),
            stats: "\u{251c} ".to_owned(),
        }
    }

    /// The fancier frame.
    pub fn fancy() -> (r: Style)
        ensures
            r.top@ == "\u{256d}\u{254d}\u{254d} "@,
            r.entry_sep@ == "\u{254e}"@,
            r.end@ == "\u{2570}\u{254d} "@,
            r.link@ == "\u{255e}\u{2550} "@,
            r.title@ == "\u{251c}\u{2504} "@,
            r.continuation@ == "\u{251d} "@,
            r.stats@ == "\u{251c}\u{2504} "@,
    {
        Style {
            top: "\u{256d}\u{254d}\u{254d} ".to_owned(),
            entry_sep: "\u{254e}".to_owned(),
            end: "\u{2570}\u{254d} ".to_owned(),
            link: "\u{255e}\u{2550} ".to_owned(),
            title: "\u{251c}\u{2504} ".to_owned(),
            continuation: "\u{251d} ".to_owned(),
            stats: "\u{251c}\u{2504} ".to_owned(),
        }
    }
}

impl Default for Style {
    /// The boxed frame, as the default configuration has it.
    fn default() -> (r: Style)
        ensures
            r.top@ == "\u{250c}\u{2500}\u{2500} "@,
    {
        Style::boxed()
    }
}

/// The colors of each rendered part.
#[derive(Debug, Clone)]
pub struct Theme {
    pub fringe: ColorStyle,
    pub entry: ColorStyle,
    pub category: ColorStyle,
    pub spoken_language: ColorStyle,
    pub link: ColorStyle,
    pub title: ColorStyle,
    pub uptime: ColorStyle,
    pub viewers: ColorStyle,
}

impl Theme {
    /// The standard palette.
    pub fn standard() -> (r: Theme)
        ensures
            r.fringe.fg == Color(128u8, 128u8, 128u8) && r.fringe.bold,
            r.entry.fg == Color(96u8, 96u8, 96u8) && r.entry.bold,
            r.category.fg == Color(136u8, 23u8, 152u8) && !r.category.bold,
            r.spoken_language.fg == Color(242u8, 242u8, 242u8) && !r.spoken_language.bold,
            r.link.fg == Color(59u8, 120u8, 255u8) && r.link.bold,
            r.title.fg == Color(193u8, 156u8, 0u8) && r.title.bold,
            r.uptime.fg == Color(19u8, 161u8, 14u8) && !r.uptime.bold,
            r.viewers.fg == Color(58u8, 150u8, 221u8) && !r.viewers.bold,
    {
        Theme {
            fringe: ColorStyle::new(Color(128, 128, 128)).bold(),
            entry: ColorStyle::new(Color(96, 96, 96)).bold(),
            category: ColorStyle::new(Color(136, 23, 152)),
            spoken_language: ColorStyle::new(Color(242, 242, 242)),
            link: ColorStyle::new(Color(59, 120, 255)).bold(),
            title: ColorStyle::new(Color(193, 156, 0)).bold(),
            uptime: ColorStyle::new(Color(19, 161, 14)),
            viewers: ColorStyle::new(Color(58, 150, 221)),
        }
    }
}

impl Default for Theme {
    /// The standard palette.
    fn default() -> (r: Theme)
        ensures
            r.fringe.fg == Color(128u8, 128u8, 128u8),
    {
        Theme::standard()
    }
}

/// One query term's entries, ready for rendering.
pub struct Entries<'a> {
    pub query: &'a str,
    pub streams: &'a [Stream],
}

/// How a word lands when a long title is wrapped: continuing the
/// current line, or starting the next one.
pub enum LinePartition<'a> {
    Start(&'a str),
    Continuation(&'a str),
}

} // verus!
