//! Color tokens for rendered diagrams.
//!
//! The default palette follows the editorial skin: warm stone paper, deep
//! charcoal ink, rust accent. Typography and stroke widths are renderer
//! concerns and live with the layout engines.

use vstd::prelude::*;

verus! {

/// RGBA color in 0..=255 channels.
#[derive(Debug, Clone, Copy, PartialEq, Eq)]
pub struct Color {
    pub r: u8,
    pub g: u8,
    pub b: u8,
    pub a: u8,
}

/// Is `c` one of `0-9`, `a-f`, `A-F`?
pub open spec fn is_hex_digit(c: char) -> bool {
    ('0' <= c && c <= '9') || ('a' <= c && c <= 'f') || ('A' <= c && c <= 'F')
}

/// Numeric value of a hex digit.
pub open spec fn hex_digit_value(c: char) -> int {
    if '0' <= c && c <= '9' {
        c as int - '0' as int
    } else if 'a' <= c && c <= 'f' {
        c as int - 'a' as int + 10
    } else {
        c as int - 'A' as int + 10
    }
}

/// Value of the two-digit hex number `hi lo`.
pub open spec fn hex_pair_value(hi: char, lo: char) -> int {
    hex_digit_value(hi) * 16 + hex_digit_value(lo)
}

/// `s` has the shape `#rrggbb`.
pub open spec fn is_hex_color(s: Seq<char>) -> bool {
    &&& s.len() == 7
    &&& s[0] == '#'
    &&& forall|i: int| 1 <= i < 7 ==> is_hex_digit(#[trigger] s[i])
}

/// The opaque color that `#rrggbb` denotes.
pub open spec fn hex_color(s: Seq<char>) -> Color {
    Color {
        r: hex_pair_value(s[1], s[2]) as u8,
        g: hex_pair_value(s[3], s[4]) as u8,
        b: hex_pair_value(s[5], s[6]) as u8,
        a: 255,
    }
}

impl Color {
    /// Construct an opaque RGB color.
    pub fn rgb(r: u8, g: u8, b: u8) -> (c: Self)
        ensures
            c == (Color { r, g, b, a: 255 }),
    {
        Color { r, g, b, a: 255 }
    }

    /// Construct a color with an explicit alpha channel.
    pub fn rgba(r: u8, g: u8, b: u8, a: u8) -> (c: Self)
        ensures
            c == (Color { r, g, b, a }),
    {
        Color { r, g, b, a }
    }

    /// Parse a `#rrggbb` hex string into an opaque color. The string must
    /// have that shape: the digits may be upper or lower case.
    pub fn hex(s: &str) -> (c: Self)
        requires
            is_hex_color(s@),
        ensures
            c == hex_color(s@),
    {
        let r = hex_byte(s.get_char(1), s.get_char(2));
        let g = hex_byte(s.get_char(3), s.get_char(4));
        let b = hex_byte(s.get_char(5), s.get_char(6));
        Color { r, g, b, a: 255 }
    }

    /// Return a copy with the alpha channel replaced.
    pub fn with_alpha(self, a: u8) -> (c: Self)
        ensures
            c == (Color { a, ..self }),
    {
        let mut out = self;
        out.a = a;
        out
    }
}

fn hex_byte(hi: char, lo: char) -> (v: u8)
    requires
        is_hex_digit(hi),
        is_hex_digit(lo),
    ensures
        v as int == hex_pair_value(hi, lo),
{
    hex_nibble(hi) * 16 + hex_nibble(lo)
}

fn hex_nibble(c: char) -> (v: u8)
    requires
        is_hex_digit(c),
    ensures
        v as int == hex_digit_value(c),
        v < 16,
{
    if '0' <= c && c <= '9' {
        (c as u32 - '0' as u32) as u8
    } else if 'a' <= c && c <= 'f' {
        (c as u32 - 'a' as u32 + 10) as u8
    } else {
        (c as u32 - 'A' as u32 + 10) as u8
    }
}

/// Semantic color tokens.
#[derive(Debug, Clone, Copy, PartialEq, Eq)]
pub struct Palette {
    /// Page / canvas background; default node fill.
    pub paper: Color,
    /// Primary text, primary stroke.
    pub ink: Color,
    /// Focal / accent (one per diagram).
    pub accent: Color,
    /// Secondary text, default arrow stroke.
    pub muted: Color,
    /// Hairline border color for dividers and rules.
    pub rule: Color,
    /// Cross-system / external edges (blue).
    pub link: Color,
    /// Translucent accent wash used as the fill of focal nodes.
    pub accent_tint: Color,
    /// Faint ink wash (ink at about 5% opacity) for stores, inputs and lanes.
    pub leaf_tint: Color,
    /// Quieter than `muted`: sublabels and secondary strokes.
    pub soft: Color,
}

impl Palette {
    /// Editorial light skin: paper `#faf7f2`, ink `#1c1917`, accent `#b5523a`.
    pub fn light() -> (p: Palette)
        ensures
            p.paper == (Color { r: 0xfa, g: 0xf7, b: 0xf2, a: 255 }),
            p.ink == (Color { r: 0x1c, g: 0x19, b: 0x17, a: 255 }),
            p.accent == (Color { r: 0xb5, g: 0x52, b: 0x3a, a: 255 }),
            p.muted == (Color { r: 0x78, g: 0x71, b: 0x6c, a: 255 }),
            p.rule == (Color { r: 0xe7, g: 0xe5, b: 0xe4, a: 255 }),
            p.link == (Color { r: 0x25, g: 0x63, b: 0xeb, a: 255 }),
            p.accent_tint == (Color { r: 0xb5, g: 0x52, b: 0x3a, a: 26 }),
            p.leaf_tint == (Color { r: 0x1c, g: 0x19, b: 0x17, a: 13 }),
            p.soft == (Color { r: 0xa8, g: 0xa2, b: 0x9e, a: 255 }),
    {
        proof {
            reveal_strlit("#faf7f2");
            reveal_strlit("#1c1917");
            reveal_strlit("#b5523a");
            reveal_strlit("#78716c");
            reveal_strlit("#e7e5e4");
            reveal_strlit("#2563eb");
            reveal_strlit("#a8a29e");
        }
        Palette {
            paper: Color::hex("#faf7f2"),
            ink: Color::hex("#1c1917"),
            accent: Color::hex("#b5523a"),
            muted: Color::hex("#78716c"),
            rule: Color::hex("#e7e5e4"),
            link: Color::hex("#2563eb"),
            accent_tint: Color::rgba(0xb5, 0x52, 0x3a, 0x1a),
            leaf_tint: Color::rgba(0x1c, 0x19, 0x17, 0x0d),
            soft: Color::hex("#a8a29e"),
        }
    }

    /// Editorial dark skin: paper `#1c1917`, ink `#faf7f2`, accent `#d97757`.
    pub fn dark() -> (p: Palette)
        ensures
            p.paper == (Color { r: 0x1c, g: 0x19, b: 0x17, a: 255 }),
            p.ink == (Color { r: 0xfa, g: 0xf7, b: 0xf2, a: 255 }),
            p.accent == (Color { r: 0xd9, g: 0x77, b: 0x57, a: 255 }),
            p.muted == (Color { r: 0xa8, g: 0xa2, b: 0x9e, a: 255 }),
            p.rule == (Color { r: 0x44, g: 0x40, b: 0x3c, a: 255 }),
            p.link == (Color { r: 0x60, g: 0xa5, b: 0xfa, a: 255 }),
            p.accent_tint == (Color { r: 0xd9, g: 0x77, b: 0x57, a: 31 }),
            p.leaf_tint == (Color { r: 0xfa, g: 0xf7, b: 0xf2, a: 13 }),
            p.soft == (Color { r: 0x78, g: 0x71, b: 0x6c, a: 255 }),
    {
        proof {
            reveal_strlit("#1c1917");
            reveal_strlit("#faf7f2");
            reveal_strlit("#d97757");
            reveal_strlit("#a8a29e");
            reveal_strlit("#44403c");
            reveal_strlit("#60a5fa");
            reveal_strlit("#78716c");
        }
        Palette {
            paper: Color::hex("#1c1917"),
            ink: Color::hex("#faf7f2"),
            accent: Color::hex("#d97757"),
            muted: Color::hex("#a8a29e"),
            rule: Color::hex("#44403c"),
            link: Color::hex("#60a5fa"),
            accent_tint: Color::rgba(0xd9, 0x77, 0x57, 0x1f),
            leaf_tint: Color::rgba(0xfa, 0xf7, 0xf2, 0x0d),
            soft: Color::hex("#78716c"),
        }
    }
}

} // verus!
