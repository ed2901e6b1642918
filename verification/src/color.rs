//! Terminal color model: direct RGB values, the 16-entry theme palette,
//! the 6x6x6 color cube, and the grayscale ramp, plus the fixed-point
//! anti-alias blending law used when compositing glyph coverage.
use vstd::prelude::*;

verus! {

/// An opaque 8-bit-per-channel RGB triple.
#[derive(Clone, Copy, PartialEq, Eq, Structural, Debug)]
pub struct Rgb {
    pub r: u8,
    pub g: u8,
    pub b: u8,
}

/// An 8-bit-per-channel RGBA quadruple.
#[derive(Clone, Copy, PartialEq, Eq, Structural, Debug)]
pub struct Rgba {
    pub r: u8,
    pub g: u8,
    pub b: u8,
    pub a: u8,
}

impl Rgb {
    /// Extends a color with a fully opaque alpha channel.
    pub fn alpha(self, a: u8) -> (c: Rgba)
        ensures
            c == (Rgba { r: self.r, g: self.g, b: self.b, a: a }),
    {
        Rgba { r: self.r, g: self.g, b: self.b, a }
    }
}

/// A cell color as reported by the terminal-state engine: either an
/// index into the 256-entry terminal color space or a direct RGB value.
#[derive(Clone, Copy, PartialEq, Eq, Structural, Debug)]
pub enum TermColor {
    Indexed(u8),
    Rgb(Rgb),
}

/// The fixed default color scheme: default background and foreground
/// plus the 16 base palette entries (indices 0-15).
pub struct Theme {
    pub background: Rgb,
    pub foreground: Rgb,
    pub palette: [Rgb; 16],
}

/// One channel of the 6x6x6 color cube: level 0 stays 0, levels 1-5 map
/// to 95, 135, 175, 215, 255 (level * 40, plus 55 when non-zero).
pub open spec fn cube_channel(level: int) -> int {
    if level == 0 {
        0
    } else {
        level * 40 + 55
    }
}

/// The color that an 8-bit index resolves to under a theme: 0-15 from the
/// palette, 16-231 from the 6x6x6 cube, 232-255 from the grayscale ramp.
pub open spec fn spec_color(theme: Theme, color: u8) -> Rgb {
    if color < 16 {
        theme.palette[color as int]
    } else if color <= 231 {
        let n = color - 16;
        Rgb {
            r: cube_channel((n / 36) % 6) as u8,
            g: cube_channel((n / 6) % 6) as u8,
            b: cube_channel(n % 6) as u8,
        }
    } else {
        let v = (8 + 10 * (color - 232)) as u8;
        Rgb { r: v, g: v, b: v }
    }
}

impl Theme {
    /// Resolves an 8-bit indexed terminal color to an RGB triple.
    pub fn color(&self, color: u8) -> (c: Rgb)
        ensures
            c == spec_color(*self, color),
    {
        if color < 16 {
            self.palette[color as usize]
        } else if color <= 231 {
            let n = color - 16;
            let mut r = ((n / 36) % 6) * 40;
            let mut g = ((n / 6) % 6) * 40;
            let mut b = (n % 6) * 40;
            if r > 0 {
                r += 55;
            }
            if g > 0 {
                g += 55;
            }
            if b > 0 {
                b += 55;
            }
            Rgb { r, g, b }
        } else {
            let v = 8 + 10 * (color - 232);
            Rgb { r: v, g: v, b: v }
        }
    }
}

/// One channel of the anti-alias blend: the background weighted by
/// `255 - ratio` plus the foreground weighted by `ratio`, each scaled by
/// the fixed-point denominator 256 with truncating division.
pub open spec fn blend_channel(fg: u8, bg: u8, ratio: u8) -> int {
    bg * (255 - ratio) / 256 + fg * ratio / 256
}

/// The blend of an opaque foreground over an opaque background at a given
/// coverage ratio; the result's alpha is always 255.
pub open spec fn spec_blend(fg: Rgba, bg: Rgba, ratio: u8) -> Rgba {
    Rgba {
        r: blend_channel(fg.r, bg.r, ratio) as u8,
        g: blend_channel(fg.g, bg.g, ratio) as u8,
        b: blend_channel(fg.b, bg.b, ratio) as u8,
        a: 255,
    }
}

/// Each blended channel fits in a byte: the two weighted terms can sum to
/// at most 255.
pub proof fn lemma_blend_channel_bound(fg: u8, bg: u8, ratio: u8)
    ensures
        0 <= blend_channel(fg, bg, ratio) <= 255,
{
    assert(bg * (255 - ratio) <= 255 * (255 - ratio)) by (nonlinear_arith)
        requires bg <= 255 && ratio <= 255;
    assert(fg * ratio <= 255 * ratio) by (nonlinear_arith)
        requires fg <= 255 && ratio <= 255;
    assert(255 * (255 - ratio) / 256 + 255 * ratio / 256 <= 255);
}

/// Blends a foreground color over a background color using a glyph
/// coverage byte as the mixing ratio.
pub fn blend(fg: Rgba, bg: Rgba, ratio: u8) -> (out: Rgba)
    ensures
        out == spec_blend(fg, bg, ratio),
{
    proof {
        lemma_blend_channel_bound(fg.r, bg.r, ratio);
        lemma_blend_channel_bound(fg.g, bg.g, ratio);
        lemma_blend_channel_bound(fg.b, bg.b, ratio);
    }
    let ratio = ratio as u16;
    Rgba {
        r: ((bg.r as u16) * (255 - ratio) / 256 + (fg.r as u16) * ratio / 256) as u8,
        g: ((bg.g as u16) * (255 - ratio) / 256 + (fg.g as u16) * ratio / 256) as u8,
        b: ((bg.b as u16) * (255 - ratio) / 256 + (fg.b as u16) * ratio / 256) as u8,
        a: 255,
    }
}

/// A packed 32-bit pixel: R in the low byte, then G, B, and A in the
/// high byte.
pub open spec fn spec_rgb_to_u32(color: Rgba) -> u32 {
    (color.r as u32) | ((color.g as u32) << 8) | ((color.b as u32) << 16) | (
    (color.a as u32) << 24)
}

/// Packs an RGBA color into one 32-bit pixel value.
pub fn rgb_to_u32(color: Rgba) -> (p: u32)
    ensures
        p == spec_rgb_to_u32(color),
{
    (color.r as u32) | ((color.g as u32) << 8) | ((color.b as u32) << 16) | (
    (color.a as u32) << 24)
}

/// The fixed color scheme that rendering uses.
pub fn default_theme() -> (t: Theme)
    ensures
        t.background == (Rgb { r: 0x12, g: 0x13, b: 0x14 }),
        t.foreground == (Rgb { r: 0xcc, g: 0xcc, b: 0xcc }),
        t.palette[0] == (Rgb { r: 0x00, g: 0x00, b: 0x00 }),
        t.palette[1] == (Rgb { r: 0xdd, g: 0x3c, b: 0x69 }),
        t.palette[2] == (Rgb { r: 0x4e, g: 0xbf, b: 0x22 }),
        t.palette[3] == (Rgb { r: 0xdd, g: 0xaf, b: 0x3c }),
        t.palette[4] == (Rgb { r: 0x26, g: 0xb0, b: 0xd7 }),
        t.palette[5] == (Rgb { r: 0xb9, g: 0x54, b: 0xe1 }),
        t.palette[6] == (Rgb { r: 0x54, g: 0xe1, b: 0xb9 }),
        t.palette[7] == (Rgb { r: 0xd9, g: 0xd9, b: 0xd9 }),
        t.palette[8] == (Rgb { r: 0x4d, g: 0x4d, b: 0x4d }),
        t.palette[9] == (Rgb { r: 0xdd, g: 0x3c, b: 0x69 }),
        t.palette[10] == (Rgb { r: 0x4e, g: 0xbf, b: 0x22 }),
        t.palette[11] == (Rgb { r: 0xdd, g: 0xaf, b: 0x3c }),
        t.palette[12] == (Rgb { r: 0x26, g: 0xb0, b: 0xd7 }),
        t.palette[13] == (Rgb { r: 0xb9, g: 0x54, b: 0xe1 }),
        t.palette[14] == (Rgb { r: 0x54, g: 0xe1, b: 0xb9 }),
        t.palette[15] == (Rgb { r: 0xff, g: 0xff, b: 0xff }),
{
    Theme {
        background: Rgb { r: 0x12, g: 0x13, b: 0x14 },
        foreground: Rgb { r: 0xcc, g: 0xcc, b: 0xcc },
        palette: [
            Rgb { r: 0x00, g: 0x00, b: 0x00 },
            Rgb { r: 0xdd, g: 0x3c, b: 0x69 },
            Rgb { r: 0x4e, g: 0xbf, b: 0x22 },
            Rgb { r: 0xdd, g: 0xaf, b: 0x3c },
            Rgb { r: 0x26, g: 0xb0, b: 0xd7 },
            Rgb { r: 0xb9, g: 0x54, b: 0xe1 },
            Rgb { r: 0x54, g: 0xe1, b: 0xb9 },
            Rgb { r: 0xd9, g: 0xd9, b: 0xd9 },
            Rgb { r: 0x4d, g: 0x4d, b: 0x4d },
            Rgb { r: 0xdd, g: 0x3c, b: 0x69 },
            Rgb { r: 0x4e, g: 0xbf, b: 0x22 },
            Rgb { r: 0xdd, g: 0xaf, b: 0x3c },
            Rgb { r: 0x26, g: 0xb0, b: 0xd7 },
            Rgb { r: 0xb9, g: 0x54, b: 0xe1 },
            Rgb { r: 0x54, g: 0xe1, b: 0xb9 },
            Rgb { r: 0xff, g: 0xff, b: 0xff },
        ],
    }
}

} // verus!
