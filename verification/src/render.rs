//! The compositor: renders a selected frame's character grid into a
//! flat buffer of packed 32-bit pixels, using per-cell glyph coverage
//! bitmaps, the theme's color model and fixed-point cell geometry.
//!
//! Geometry is exact integer arithmetic: a cell row starts at
//! `(r * 13 * font_size + 5) / 10` pixels - row height is the font size
//! times the fixed line-spacing factor of thirteen tenths, rounded per
//! row - and a cell column at `c * col_width`. Every pixel write is
//! bounds-checked against the canvas and clipped, never assumed in
//! range.
use vstd::prelude::*;

use crate::color::{blend, rgb_to_u32, spec_blend, spec_color, spec_rgb_to_u32, Rgb, Rgba,
    TermColor, Theme};
use crate::timeline::{Frame, FrameV, TermCell};

verus! {

/// Rendering geometry: the canvas size in pixels, the font size in
/// whole pixels, and the width of one character cell in pixels (taken
/// from the reference glyph's bitmap).
pub struct RenderConfig {
    pub width: usize,
    pub height: usize,
    pub font_size: u32,
    pub col_width: u32,
}

/// A glyph coverage bitmap with its placement metrics: per-pixel
/// opacity bytes, row-major, `width * height` of them; `xmin` and
/// `ymin` offset the bitmap from the cell origin and the baseline.
pub struct GlyphBitmap {
    pub width: usize,
    pub height: usize,
    pub xmin: i32,
    pub ymin: i32,
    pub coverage: Vec<u8>,
}

/// A well-formed glyph holds exactly one coverage byte per pixel.
pub open spec fn wf_glyph(g: GlyphBitmap) -> bool {
    g.coverage@.len() == g.width * g.height
}

/// The vertical pixel origin of grid row `r`.
pub open spec fn cell_y(cfg: RenderConfig, r: int) -> int {
    (r * 13 * cfg.font_size + 5) / 10
}

/// The horizontal pixel origin of grid column `c`.
pub open spec fn cell_x(cfg: RenderConfig, c: int) -> int {
    c * cfg.col_width
}

/// A cell color resolved against the theme: direct RGB values stand as
/// they are, indexed colors go through the palette, cube or ramp.
pub open spec fn spec_resolve(theme: Theme, col: TermColor) -> Rgb {
    match col {
        TermColor::Indexed(i) => spec_color(theme, i),
        TermColor::Rgb(c) => c,
    }
}

/// Resolves a cell color against the theme.
pub fn color_to_rgb(color: TermColor, theme: &Theme) -> (c: Rgb)
    ensures
        c == spec_resolve(*theme, color),
{
    match color {
        TermColor::Indexed(i) => theme.color(i),
        TermColor::Rgb(c) => c,
    }
}

/// An opaque pixel color.
pub open spec fn rgba_of(c: Rgb) -> Rgba {
    Rgba { r: c.r, g: c.g, b: c.b, a: 255 }
}

/// One bounds-checked pixel write: out-of-canvas coordinates change
/// nothing.
pub open spec fn buf_write(buf: Seq<u32>, w: int, h: int, x: int, y: int, v: u32) -> Seq<u32> {
    if 0 <= x < w && 0 <= y < h && 0 <= y * w + x < buf.len() {
        buf.update(y * w + x, v)
    } else {
        buf
    }
}

/// Writes pixel `(x, y)` if it lies on the canvas.
fn put_pixel(buf: &mut Vec<u32>, w: usize, h: usize, x: i128, y: i128, v: u32) -> (nothing: ())
    requires
        old(buf)@.len() == w * h,
        w * h <= usize::MAX,
    ensures
        final(buf)@ == buf_write(old(buf)@, w as int, h as int, x as int, y as int, v),
        final(buf)@.len() == old(buf)@.len(),
{
    if 0 <= x && x < w as i128 && 0 <= y && y < h as i128 {
        let xu = x as usize;
        let yu = y as usize;
        proof {
            assert((y as int) * (w as int) + (x as int) < (w as int) * (h as int)) by (
            nonlinear_arith)
                requires
                    0 <= y as int && (y as int) < h as int && 0 <= x as int && (x as int) < w
                        as int,
            ;
        }
        let idx = yu * w + xu;
        buf.set(idx, v);
    }
}

/// Fills the pixels `[x0, x1)` of canvas row `y`, clipped.
pub open spec fn fill_row(
    buf: Seq<u32>,
    w: int,
    h: int,
    y: int,
    x0: int,
    x1: int,
    v: u32,
) -> Seq<u32>
    decreases x1 - x0,
{
    if x1 <= x0 {
        buf
    } else {
        buf_write(fill_row(buf, w, h, y, x0, x1 - 1, v), w, h, x1 - 1, y, v)
    }
}

/// Fills the pixel rectangle `[y0, y1) x [x0, x1)`, clipped.
pub open spec fn fill_rect(
    buf: Seq<u32>,
    w: int,
    h: int,
    y0: int,
    y1: int,
    x0: int,
    x1: int,
    v: u32,
) -> Seq<u32>
    decreases y1 - y0,
{
    if y1 <= y0 {
        buf
    } else {
        fill_row(fill_rect(buf, w, h, y0, y1 - 1, x0, x1, v), w, h, y1 - 1, x0, x1, v)
    }
}

/// Filling a row only touches the canvas: the range may be clipped to
/// the canvas width before iterating.
proof fn lemma_fill_row_clip(buf: Seq<u32>, w: int, h: int, y: int, x0: int, x1: int, v: u32)
    ensures
        fill_row(buf, w, h, y, x0, x1, v) == fill_row(
            buf,
            w,
            h,
            y,
            if x0 < 0 {
                0
            } else {
                x0
            },
            if x1 > w {
                w
            } else {
                x1
            },
            v,
        ),
    decreases x1 - x0,
{
    let lo: int = if x0 < 0 {
        0
    } else {
        x0
    };
    let hi: int = if x1 > w {
        w
    } else {
        x1
    };
    if x1 <= x0 {
        assert(hi <= x1 && lo >= x0);
    } else {
        lemma_fill_row_clip(buf, w, h, y, x0, x1 - 1, v);
        if x1 - 1 >= w || x1 - 1 < 0 {
            assert(buf_write(fill_row(buf, w, h, y, x0, x1 - 1, v), w, h, x1 - 1, y, v)
                == fill_row(buf, w, h, y, x0, x1 - 1, v));
        }
    }
}

/// Filling a rectangle only touches the canvas: the row range may be
/// clipped to the canvas height before iterating.
proof fn lemma_fill_rect_clip(
    buf: Seq<u32>,
    w: int,
    h: int,
    y0: int,
    y1: int,
    x0: int,
    x1: int,
    v: u32,
)
    ensures
        fill_rect(buf, w, h, y0, y1, x0, x1, v) == fill_rect(
            buf,
            w,
            h,
            if y0 < 0 {
                0
            } else {
                y0
            },
            if y1 > h {
                h
            } else {
                y1
            },
            x0,
            x1,
            v,
        ),
    decreases y1 - y0,
{
    if y1 <= y0 {
    } else {
        lemma_fill_rect_clip(buf, w, h, y0, y1 - 1, x0, x1, v);
        if y1 - 1 >= h || y1 - 1 < 0 {
            lemma_fill_row_off(fill_rect(buf, w, h, y0, y1 - 1, x0, x1, v), w, h, y1 - 1, x0, x1, v);
        }
    }
}

/// A whole-row fill off the canvas changes nothing.
proof fn lemma_fill_row_off(buf: Seq<u32>, w: int, h: int, y: int, x0: int, x1: int, v: u32)
    requires
        y < 0 || y >= h,
    ensures
        fill_row(buf, w, h, y, x0, x1, v) == buf,
    decreases x1 - x0,
{
    if x1 > x0 {
        lemma_fill_row_off(buf, w, h, y, x0, x1 - 1, v);
    }
}

/// Fills a clipped pixel rectangle.
fn fill_rect_exec(
    buf: &mut Vec<u32>,
    w: usize,
    h: usize,
    y0: i128,
    y1: i128,
    x0: i128,
    x1: i128,
    v: u32,
) -> (nothing: ())
    requires
        old(buf)@.len() == w * h,
        w * h <= usize::MAX,
    ensures
        final(buf)@ == fill_rect(
            old(buf)@,
            w as int,
            h as int,
            y0 as int,
            y1 as int,
            x0 as int,
            x1 as int,
            v,
        ),
        final(buf)@.len() == old(buf)@.len(),
{
    let yc0: usize = if y0 < 0 {
        0
    } else if y0 > h as i128 {
        h
    } else {
        y0 as usize
    };
    let yc1: usize = if y1 < 0 {
        0
    } else if y1 > h as i128 {
        h
    } else {
        y1 as usize
    };
    let xc0: usize = if x0 < 0 {
        0
    } else if x0 > w as i128 {
        w
    } else {
        x0 as usize
    };
    let xc1: usize = if x1 < 0 {
        0
    } else if x1 > w as i128 {
        w
    } else {
        x1 as usize
    };
    let mut y = yc0;
    while y < yc1
        invariant
            yc0 <= y <= yc1 || y == yc0,
            yc1 <= h,
            xc0 <= w,
            xc1 <= w,
            buf@.len() == w * h,
            w * h <= usize::MAX,
            xc0 as int == (if (x0 as int) < 0 {
                0int
            } else if (x0 as int) > w as int {
                w as int
            } else {
                x0 as int
            }),
            xc1 as int == (if (x1 as int) < 0 {
                0int
            } else if (x1 as int) > w as int {
                w as int
            } else {
                x1 as int
            }),
            buf@ == fill_rect(
                old(buf)@,
                w as int,
                h as int,
                yc0 as int,
                y as int,
                x0 as int,
                x1 as int,
                v,
            ),
        decreases yc1 - y,
    {
        let ghost row_start = buf@;
        let mut x = xc0;
        while x < xc1
            invariant
                xc0 <= x <= xc1 || x == xc0,
                xc1 <= w,
                y < h,
                buf@.len() == w * h,
                w * h <= usize::MAX,
                buf@ == fill_row(row_start, w as int, h as int, y as int, xc0 as int, x as int, v),
            decreases xc1 - x,
        {
            proof {
                assert((y as int) * (w as int) + (x as int) < (w as int) * (h as int)) by (
                nonlinear_arith)
                    requires
                        0 <= y as int && (y as int) < h as int && 0 <= x as int && (x as int)
                            < w as int,
                ;
            }
            let idx = y * w + x;
            buf.set(idx, v);
            x = x + 1;
        }
        proof {
            lemma_fill_row_clip(row_start, w as int, h as int, y as int, x0 as int, x1 as int, v);
            let cx0: int = if (x0 as int) < 0 {
                0
            } else {
                x0 as int
            };
            let cx1: int = if (x1 as int) > w as int {
                w as int
            } else {
                x1 as int
            };
            if cx0 < cx1 {
                assert(xc0 as int == cx0 && xc1 as int == cx1);
                assert(buf@ == fill_row(row_start, w as int, h as int, y as int, cx0, cx1, v));
            } else {
                assert(xc1 <= xc0);
                assert(buf@ == row_start);
                lemma_fill_row_empty(row_start, w as int, h as int, y as int, cx0, cx1, v);
            }
            assert(buf@ == fill_row(
                row_start,
                w as int,
                h as int,
                y as int,
                x0 as int,
                x1 as int,
                v,
            ));
        }
        y = y + 1;
    }
    proof {
        lemma_fill_rect_clip(
            old(buf)@,
            w as int,
            h as int,
            y0 as int,
            y1 as int,
            x0 as int,
            x1 as int,
            v,
        );
        let cy0: int = if (y0 as int) < 0 {
            0
        } else {
            y0 as int
        };
        let cy1: int = if (y1 as int) > h as int {
            h as int
        } else {
            y1 as int
        };
        if cy0 < cy1 {
            assert(yc0 as int == cy0 && yc1 as int == cy1);
        } else {
            assert(yc1 <= yc0);
            lemma_fill_rect_empty(old(buf)@, w as int, h as int, cy0, cy1, x0 as int, x1 as int, v);
        }
    }
}

/// An empty column range fills nothing.
proof fn lemma_fill_row_empty(buf: Seq<u32>, w: int, h: int, y: int, x0: int, x1: int, v: u32)
    requires
        x1 <= x0,
    ensures
        fill_row(buf, w, h, y, x0, x1, v) == buf,
{
}

/// An empty row range fills nothing.
proof fn lemma_fill_rect_empty(
    buf: Seq<u32>,
    w: int,
    h: int,
    y0: int,
    y1: int,
    x0: int,
    x1: int,
    v: u32,
)
    requires
        y1 <= y0,
    ensures
        fill_rect(buf, w, h, y0, y1, x0, x1, v) == buf,
{
}

} // verus!

verus! {

/// The packed pixel a glyph writes at bitmap position `(gx, gy)`: the
/// cell's foreground blended over its background with the coverage byte
/// as the mixing ratio.
pub open spec fn glyph_pix(cov: Seq<u8>, gw: int, fg: Rgba, bg: Rgba, gx: int, gy: int) -> u32 {
    spec_rgb_to_u32(spec_blend(fg, bg, cov[gy * gw + gx]))
}

/// Draws the first `gx1` pixels of bitmap row `gy` at canvas row `y`,
/// clipped.
pub open spec fn glyph_row(
    buf: Seq<u32>,
    w: int,
    h: int,
    cov: Seq<u8>,
    gw: int,
    fg: Rgba,
    bg: Rgba,
    x0: int,
    y: int,
    gy: int,
    gx1: int,
) -> Seq<u32>
    decreases gx1,
{
    if gx1 <= 0 {
        buf
    } else {
        buf_write(
            glyph_row(buf, w, h, cov, gw, fg, bg, x0, y, gy, gx1 - 1),
            w,
            h,
            x0 + (gx1 - 1),
            y,
            glyph_pix(cov, gw, fg, bg, gx1 - 1, gy),
        )
    }
}

/// Draws the first `gy1` rows of a glyph bitmap with its origin at
/// `(x0, y0)`, clipped.
pub open spec fn glyph_rows(
    buf: Seq<u32>,
    w: int,
    h: int,
    cov: Seq<u8>,
    gw: int,
    fg: Rgba,
    bg: Rgba,
    x0: int,
    y0: int,
    gy1: int,
) -> Seq<u32>
    decreases gy1,
{
    if gy1 <= 0 {
        buf
    } else {
        glyph_row(
            glyph_rows(buf, w, h, cov, gw, fg, bg, x0, y0, gy1 - 1),
            w,
            h,
            cov,
            gw,
            fg,
            bg,
            x0,
            y0 + (gy1 - 1),
            gy1 - 1,
            gw,
        )
    }
}

/// Blends one glyph's coverage bitmap onto the canvas.
fn draw_glyph_exec(
    buf: &mut Vec<u32>,
    w: usize,
    h: usize,
    g: &GlyphBitmap,
    fg: Rgba,
    bg: Rgba,
    x0: i128,
    y0: i128,
) -> (nothing: ())
    requires
        old(buf)@.len() == w * h,
        w * h <= usize::MAX,
        wf_glyph(*g),
        x0 + g.width <= i128::MAX,
        x0 >= i128::MIN + 1,
        y0 + g.height <= i128::MAX,
        y0 >= i128::MIN + 1,
    ensures
        final(buf)@ == glyph_rows(
            old(buf)@,
            w as int,
            h as int,
            g.coverage@,
            g.width as int,
            fg,
            bg,
            x0 as int,
            y0 as int,
            g.height as int,
        ),
        final(buf)@.len() == old(buf)@.len(),
{
    let mut gy: usize = 0;
    while gy < g.height
        invariant
            gy <= g.height,
            wf_glyph(*g),
            buf@.len() == w * h,
            w * h <= usize::MAX,
            x0 + g.width <= i128::MAX,
            x0 >= i128::MIN + 1,
            y0 + g.height <= i128::MAX,
            y0 >= i128::MIN + 1,
            buf@ == glyph_rows(
                old(buf)@,
                w as int,
                h as int,
                g.coverage@,
                g.width as int,
                fg,
                bg,
                x0 as int,
                y0 as int,
                gy as int,
            ),
        decreases g.height - gy,
    {
        let ghost row_start = buf@;
        let mut gx: usize = 0;
        while gx < g.width
            invariant
                gx <= g.width,
                gy < g.height,
                wf_glyph(*g),
                buf@.len() == w * h,
                w * h <= usize::MAX,
                x0 + g.width <= i128::MAX,
                x0 >= i128::MIN + 1,
                y0 + g.height <= i128::MAX,
                y0 >= i128::MIN + 1,
                buf@ == glyph_row(
                    row_start,
                    w as int,
                    h as int,
                    g.coverage@,
                    g.width as int,
                    fg,
                    bg,
                    x0 as int,
                    y0 + gy as int,
                    gy as int,
                    gx as int,
                ),
            decreases g.width - gx,
        {
            proof {
                assert((gy as int) * (g.width as int) + (gx as int) < (g.width as int) * (
                g.height as int)) by (nonlinear_arith)
                    requires
                        0 <= gy as int && (gy as int) < g.height as int && 0 <= gx as int && (
                        gx as int) < g.width as int,
                ;
            }
            let clen = g.coverage.len();
            proof {
                assert(clen as int == (g.width as int) * (g.height as int));
            }
            let pix = g.coverage[gy * g.width + gx];
            let v = rgb_to_u32(blend(fg, bg, pix));
            put_pixel(buf, w, h, x0 + gx as i128, y0 + gy as i128, v);
            gx = gx + 1;
        }
        gy = gy + 1;
    }
}

/// The background pass of one cell: an explicit background color fills
/// the whole cell rectangle; without one nothing is painted.
pub open spec fn cell_bg_pass(
    buf: Seq<u32>,
    theme: Theme,
    cfg: RenderConfig,
    r: int,
    c: int,
    cell: TermCell,
) -> Seq<u32> {
    match cell.bg {
        Some(col) => fill_rect(
            buf,
            cfg.width as int,
            cfg.height as int,
            cell_y(cfg, r),
            cell_y(cfg, r + 1),
            cell_x(cfg, c),
            cell_x(cfg, c + 1),
            spec_rgb_to_u32(rgba_of(spec_resolve(theme, col))),
        ),
        None => buf,
    }
}

/// The glyph pass of one cell: spaces draw no glyph at all; otherwise
/// the cell's coverage bitmap is blended at the cell origin, offset by
/// the glyph metrics, using the cell's colors (theme defaults where
/// absent).
pub open spec fn cell_glyph_pass(
    buf: Seq<u32>,
    theme: Theme,
    cfg: RenderConfig,
    r: int,
    c: int,
    cell: TermCell,
    og: Option<GlyphBitmap>,
) -> Seq<u32> {
    if cell.ch == ' ' {
        buf
    } else {
        match og {
            None => buf,
            Some(g) => {
                let fg = rgba_of(
                    match cell.fg {
                        Some(col) => spec_resolve(theme, col),
                        None => theme.foreground,
                    },
                );
                let bg = rgba_of(
                    match cell.bg {
                        Some(col) => spec_resolve(theme, col),
                        None => theme.background,
                    },
                );
                glyph_rows(
                    buf,
                    cfg.width as int,
                    cfg.height as int,
                    g.coverage@,
                    g.width as int,
                    fg,
                    bg,
                    cell_x(cfg, c) + g.xmin,
                    cell_y(cfg, r) + cfg.font_size - g.height - g.ymin,
                    g.height as int,
                )
            },
        }
    }
}

/// One cell drawn: background fill, then glyph blend.
pub open spec fn draw_cell(
    buf: Seq<u32>,
    theme: Theme,
    cfg: RenderConfig,
    r: int,
    c: int,
    cell: TermCell,
    og: Option<GlyphBitmap>,
) -> Seq<u32> {
    cell_glyph_pass(cell_bg_pass(buf, theme, cfg, r, c, cell), theme, cfg, r, c, cell, og)
}

/// The glyph supplied for cell `(r, c)`, if the glyph grid reaches it.
pub open spec fn cell_glyph(glyphs: Seq<Seq<GlyphBitmap>>, r: int, c: int) -> Option<GlyphBitmap> {
    if 0 <= r < glyphs.len() && 0 <= c < glyphs[r].len() {
        Some(glyphs[r][c])
    } else {
        None
    }
}

/// The first `c1` cells of grid row `r` drawn in column order.
pub open spec fn draw_row(
    buf: Seq<u32>,
    theme: Theme,
    cfg: RenderConfig,
    r: int,
    cells: Seq<TermCell>,
    glyphs: Seq<Seq<GlyphBitmap>>,
    c1: int,
) -> Seq<u32>
    decreases c1,
{
    if c1 <= 0 {
        buf
    } else {
        draw_cell(
            draw_row(buf, theme, cfg, r, cells, glyphs, c1 - 1),
            theme,
            cfg,
            r,
            c1 - 1,
            cells[c1 - 1],
            cell_glyph(glyphs, r, c1 - 1),
        )
    }
}

/// The first `r1` grid rows drawn in row-major order.
pub open spec fn draw_rows(
    buf: Seq<u32>,
    theme: Theme,
    cfg: RenderConfig,
    grid: Seq<Seq<TermCell>>,
    glyphs: Seq<Seq<GlyphBitmap>>,
    r1: int,
) -> Seq<u32>
    decreases r1,
{
    if r1 <= 0 {
        buf
    } else {
        draw_row(
            draw_rows(buf, theme, cfg, grid, glyphs, r1 - 1),
            theme,
            cfg,
            r1 - 1,
            grid[r1 - 1],
            glyphs,
            grid[r1 - 1].len() as int,
        )
    }
}

/// The view of a glyph grid.
pub open spec fn glyphs_view(gs: Seq<Vec<GlyphBitmap>>) -> Seq<Seq<GlyphBitmap>> {
    gs.map_values(|v: Vec<GlyphBitmap>| v@)
}

/// A full frame composited: the canvas starts as the theme's background
/// color and the frame's cells are drawn over it in row-major order.
pub open spec fn spec_compose(
    frame: FrameV,
    glyphs: Seq<Seq<GlyphBitmap>>,
    theme: Theme,
    cfg: RenderConfig,
) -> Seq<u32> {
    let init = Seq::new(
        (cfg.width * cfg.height) as nat,
        |i: int| spec_rgb_to_u32(rgba_of(theme.background)),
    );
    draw_rows(init, theme, cfg, frame.data, glyphs, frame.data.len() as int)
}

/// The vertical pixel origin of grid row `r`, by exact fixed-point
/// arithmetic.
fn cell_y_exec(cfg: &RenderConfig, r: u128) -> (y: i128)
    requires
        r <= 0x2_0000_0000_0000_0000,
    ensures
        y as int == cell_y(*cfg, r as int),
        0 <= y <= 0x1_0000_0000_0000_0000_0000_0000_0000,
{
    proof {
        assert((r as int) * 13 * (cfg.font_size as int) <= 0x2_0000_0000_0000_0000 * 13
            * 0x1_0000_0000) by (nonlinear_arith)
            requires
                0 <= r as int && (r as int) <= 0x2_0000_0000_0000_0000 && 0 <= cfg.font_size
                    as int && (cfg.font_size as int) <= 0xFFFF_FFFF + 1,
        ;
        assert((r as int) * 13 * (cfg.font_size as int) >= 0) by (nonlinear_arith)
            requires
                0 <= r as int && 0 <= cfg.font_size as int,
        ;
    }
    let num = r * 13 * (cfg.font_size as u128) + 5;
    (num / 10) as i128
}

/// The horizontal pixel origin of grid column `c`.
fn cell_x_exec(cfg: &RenderConfig, c: u128) -> (x: i128)
    requires
        c <= 0x2_0000_0000_0000_0000,
    ensures
        x as int == cell_x(*cfg, c as int),
        0 <= x <= 0x1_0000_0000_0000_0000_0000_0000_0000,
{
    proof {
        assert((c as int) * (cfg.col_width as int) <= 0x2_0000_0000_0000_0000 * 0x1_0000_0000)
            by (nonlinear_arith)
            requires
                0 <= c as int && (c as int) <= 0x2_0000_0000_0000_0000 && 0 <= cfg.col_width
                    as int && (cfg.col_width as int) <= 0xFFFF_FFFF + 1,
        ;
        assert((c as int) * (cfg.col_width as int) >= 0) by (nonlinear_arith)
            requires
                0 <= c as int && 0 <= cfg.col_width as int,
        ;
    }
    (c * (cfg.col_width as u128)) as i128
}

/// Renders one frame into a flat pixel buffer of `width * height`
/// packed 32-bit colors, row-major, R in the low byte and A in the
/// high byte, over the theme's background.
///
/// `glyphs[r][c]` is the rasterized coverage bitmap for the character
/// of cell `(r, c)`; cells the glyph grid does not reach draw only
/// their background.
pub fn compose(
    frame: &Frame,
    glyphs: &Vec<Vec<GlyphBitmap>>,
    theme: &Theme,
    cfg: &RenderConfig,
) -> (buf: Vec<u32>)
    requires
        cfg.width * cfg.height <= usize::MAX,
        forall|r: int, c: int|
            0 <= r < glyphs@.len() && 0 <= c < glyphs@[r]@.len() ==> wf_glyph(
                #[trigger] glyphs@[r]@[c],
            ),
    ensures
        buf@ == spec_compose(frame@, glyphs_view(glyphs@), *theme, *cfg),
        buf@.len() == cfg.width * cfg.height,
{
    let w = cfg.width;
    let h = cfg.height;
    let size = w * h;
    let bg_px = rgb_to_u32(theme.background.alpha(255));
    let ghost init = Seq::new(
        (cfg.width * cfg.height) as nat,
        |i: int| spec_rgb_to_u32(rgba_of(theme.background)),
    );
    let mut buf: Vec<u32> = Vec::new();
    while buf.len() < size
        invariant
            buf@.len() <= size,
            size == cfg.width * cfg.height,
            bg_px == spec_rgb_to_u32(rgba_of(theme.background)),
            forall|i: int| 0 <= i < buf@.len() ==> buf@[i] == bg_px,
        decreases size - buf@.len(),
    {
        buf.push(bg_px);
    }
    proof {
        assert(buf@ =~= init);
    }
    let ghost fdv = frame@.data;
    let ghost gv = glyphs_view(glyphs@);
    let mut r: usize = 0;
    while r < frame.data.len()
        invariant
            r <= frame.data.len(),
            buf@.len() == w * h,
            w == cfg.width,
            h == cfg.height,
            w * h <= usize::MAX,
            fdv == frame@.data,
            gv == glyphs_view(glyphs@),
            fdv.len() == frame.data@.len(),
            forall|j: int| 0 <= j < fdv.len() ==> fdv[j] == (#[trigger] frame.data@[j])@,
            gv.len() == glyphs@.len(),
            forall|j: int| 0 <= j < gv.len() ==> gv[j] == (#[trigger] glyphs@[j])@,
            forall|a: int, b: int|
                0 <= a < gv.len() && 0 <= b < gv[a].len() ==> wf_glyph(#[trigger] gv[a][b]),
            buf@ == draw_rows(init, *theme, *cfg, fdv, gv, r as int),
        decreases frame.data.len() - r,
    {
        let ghost rows_done = buf@;
        let row = &frame.data[r];
        let mut c: usize = 0;
        while c < row.len()
            invariant
                c <= row.len(),
                r < frame.data.len(),
                row@ == frame.data@[r as int]@,
                row@ == fdv[r as int],
                buf@.len() == w * h,
                w == cfg.width,
                h == cfg.height,
                w * h <= usize::MAX,
                fdv == frame@.data,
                gv == glyphs_view(glyphs@),
                gv.len() == glyphs@.len(),
                forall|j: int| 0 <= j < gv.len() ==> gv[j] == (#[trigger] glyphs@[j])@,
                forall|a: int, b: int|
                    0 <= a < gv.len() && 0 <= b < gv[a].len() ==> wf_glyph(#[trigger] gv[a][b]),
                buf@ == draw_row(rows_done, *theme, *cfg, r as int, fdv[r as int], gv, c as int),
            decreases row.len() - c,
        {
            let cell = row[c];
            let ghost cell_start = buf@;
            match cell.bg {
                Some(col) => {
                    let rgbv = color_to_rgb(col, theme);
                    let v = rgb_to_u32(rgbv.alpha(255));
                    let y0 = cell_y_exec(cfg, r as u128);
                    let y1 = cell_y_exec(cfg, r as u128 + 1);
                    let x0 = cell_x_exec(cfg, c as u128);
                    let x1 = cell_x_exec(cfg, c as u128 + 1);
                    fill_rect_exec(&mut buf, w, h, y0, y1, x0, x1, v);
                },
                None => {},
            }
            proof {
                assert(buf@ == cell_bg_pass(cell_start, *theme, *cfg, r as int, c as int, cell));
            }
            let ghost bg_done = buf@;
            if cell.ch != ' ' {
                if r < glyphs.len() && c < glyphs[r].len() {
                    let fgc = match cell.fg {
                        Some(col) => color_to_rgb(col, theme),
                        None => theme.foreground,
                    };
                    let bgc = match cell.bg {
                        Some(col) => color_to_rgb(col, theme),
                        None => theme.background,
                    };
                    let fga = fgc.alpha(255);
                    let bga = bgc.alpha(255);
                    let cx = cell_x_exec(cfg, c as u128);
                    let cy = cell_y_exec(cfg, r as u128);
                    let g = &glyphs[r][c];
                    let gx0: i128 = cx + g.xmin as i128;
                    let gy0: i128 = cy + cfg.font_size as i128 - g.height as i128 - g.ymin
                        as i128;
                    draw_glyph_exec(&mut buf, w, h, g, fga, bga, gx0, gy0);
                }
            }
            proof {
                assert(buf@ == cell_glyph_pass(
                    bg_done,
                    *theme,
                    *cfg,
                    r as int,
                    c as int,
                    cell,
                    cell_glyph(gv, r as int, c as int),
                ));
                assert(fdv[r as int][c as int] == cell);
            }
            c = c + 1;
        }
        proof {
            assert(fdv[r as int].len() == row@.len());
        }
        r = r + 1;
    }
    proof {
        assert(frame.data@.len() == fdv.len());
    }
    buf
}

/// An empty frame composites to the untouched background canvas: every
/// pixel is the theme's background color.
pub proof fn lemma_compose_blank(glyphs: Seq<Seq<GlyphBitmap>>, theme: Theme, cfg: RenderConfig)
    ensures
        spec_compose(crate::timeline::blank_frame(), glyphs, theme, cfg) == Seq::new(
            (cfg.width * cfg.height) as nat,
            |i: int| spec_rgb_to_u32(rgba_of(theme.background)),
        ),
{
}

} // verus!

verus! {

/// A cut whose marker range falls outside the timeline renders as the
/// flat theme background at every playback time: the selection yields
/// the blank fallback frame and compositing it touches no pixel.
pub proof fn lemma_clamped_cut_renders_background(
    gs: Seq<crate::timeline::GroupV>,
    cut: Option<crate::events::Cut>,
    t: i64,
    glyphs: Seq<Seq<GlyphBitmap>>,
    theme: Theme,
    cfg: RenderConfig,
)
    requires
        ({
            let w = crate::select::window(cut, gs.len() as int);
            w.0 >= w.1
        }),
    ensures
        spec_compose(crate::select::spec_frame_at(gs, cut, t), glyphs, theme, cfg) == Seq::new(
            (cfg.width * cfg.height) as nat,
            |i: int| spec_rgb_to_u32(rgba_of(theme.background)),
        ),
{
    crate::select::lemma_clamped_cut_blank(gs, cut, t);
    lemma_compose_blank(glyphs, theme, cfg);
}

} // verus!
