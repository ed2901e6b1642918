use vtcast::color::{blend, default_theme, rgb_to_u32, Rgb, Rgba, TermColor};
use vtcast::render::{compose, GlyphBitmap, RenderConfig};
use vtcast::timeline::{Frame, TermCell};
use vtcast::Vt;

fn px(r: u8, g: u8, b: u8) -> u32 {
    (r as u32) | ((g as u32) << 8) | ((b as u32) << 16) | (255u32 << 24)
}

fn rcell(ch: char, fg: Option<TermColor>, bg: Option<TermColor>) -> TermCell {
    TermCell { ch, fg, bg }
}

#[test]
fn palette_resolution_is_exact() {
    let t = default_theme();
    assert_eq!(t.color(0), t.palette[0]);
    assert_eq!(t.color(0), Rgb { r: 0, g: 0, b: 0 });
    assert_eq!(t.color(7), Rgb { r: 0xd9, g: 0xd9, b: 0xd9 });
    assert_eq!(t.color(15), Rgb { r: 0xff, g: 0xff, b: 0xff });
}

#[test]
fn color_cube_resolution_is_exact() {
    let t = default_theme();
    assert_eq!(t.color(16), Rgb { r: 0, g: 0, b: 0 });
    assert_eq!(t.color(231), Rgb { r: 255, g: 255, b: 255 });
    // one level per channel: 0 stays 0, 1..5 map to 95,135,175,215,255
    assert_eq!(t.color(17), Rgb { r: 0, g: 0, b: 95 });
    assert_eq!(t.color(22), Rgb { r: 0, g: 95, b: 0 });
    assert_eq!(t.color(52), Rgb { r: 95, g: 0, b: 0 });
    assert_eq!(t.color(226), Rgb { r: 255, g: 255, b: 0 });
}

#[test]
fn grayscale_ramp_is_exact() {
    let t = default_theme();
    assert_eq!(t.color(232), Rgb { r: 8, g: 8, b: 8 });
    assert_eq!(t.color(243), Rgb { r: 118, g: 118, b: 118 });
    assert_eq!(t.color(255), Rgb { r: 238, g: 238, b: 238 });
}

#[test]
fn blend_at_zero_coverage_is_almost_background() {
    let fg = Rgba { r: 255, g: 0, b: 0, a: 255 };
    let bg = Rgba { r: 0, g: 0, b: 0, a: 255 };
    assert_eq!(blend(fg, bg, 0), Rgba { r: 0, g: 0, b: 0, a: 255 });
}

#[test]
fn blend_at_full_coverage_truncates() {
    // the fixed-point denominator is 256, so full coverage of a 255
    // channel lands on 254, not 255
    let fg = Rgba { r: 255, g: 0, b: 0, a: 255 };
    let bg = Rgba { r: 0, g: 0, b: 0, a: 255 };
    assert_eq!(blend(fg, bg, 255), Rgba { r: 254, g: 0, b: 0, a: 255 });
    let white = Rgba { r: 255, g: 255, b: 255, a: 255 };
    assert_eq!(blend(white, white, 128), Rgba { r: 253, g: 253, b: 253, a: 255 });
}

#[test]
fn packing_is_little_endian_rgba() {
    assert_eq!(rgb_to_u32(Rgba { r: 1, g: 2, b: 3, a: 4 }), 0x04030201);
}

#[test]
fn compose_of_blank_frame_is_flat_background() {
    let theme = default_theme();
    let cfg = RenderConfig { width: 8, height: 4, font_size: 16, col_width: 8 };
    let vt = Vt::new(8, 4);
    let f = vt.frame(123);
    let buf = compose(&f, &vec![], &theme, &cfg);
    assert_eq!(buf.len(), 32);
    let bg = px(0x12, 0x13, 0x14);
    assert!(buf.iter().all(|&p| p == bg));
}

#[test]
fn compose_blends_glyph_coverage_exactly() {
    let theme = default_theme();
    let cfg = RenderConfig { width: 4, height: 4, font_size: 2, col_width: 2 };
    let frame = Frame {
        time: 0,
        data: vec![vec![rcell('A', Some(TermColor::Indexed(1)), None)]],
    };
    let glyphs = vec![vec![GlyphBitmap {
        width: 2,
        height: 2,
        xmin: 0,
        ymin: 0,
        coverage: vec![0, 255, 255, 0],
    }]];
    let buf = compose(&frame, &glyphs, &theme, &cfg);
    assert_eq!(buf.len(), 16);
    // background (18,19,20) through coverage 0: channel * 255 / 256
    let faint_bg = px(17, 18, 19);
    // palette[1] (221,60,105) through coverage 255
    let strong_fg = px(220, 59, 104);
    let bg = px(0x12, 0x13, 0x14);
    assert_eq!(buf[0], faint_bg);
    assert_eq!(buf[1], strong_fg);
    assert_eq!(buf[4], strong_fg);
    assert_eq!(buf[5], faint_bg);
    // pixels the glyph does not reach keep the untouched background
    assert_eq!(buf[2], bg);
    assert_eq!(buf[3], bg);
    assert_eq!(buf[15], bg);
}

#[test]
fn compose_fills_cell_background_and_skips_space_glyphs() {
    let theme = default_theme();
    let cfg = RenderConfig { width: 4, height: 4, font_size: 2, col_width: 2 };
    let fill = TermColor::Rgb(Rgb { r: 10, g: 20, b: 30 });
    let frame = Frame { time: 0, data: vec![vec![rcell(' ', None, Some(fill))]] };
    // a space cell never draws its glyph, even with full coverage
    let glyphs = vec![vec![GlyphBitmap {
        width: 2,
        height: 2,
        xmin: 0,
        ymin: 0,
        coverage: vec![255, 255, 255, 255],
    }]];
    let buf = compose(&frame, &glyphs, &theme, &cfg);
    let filled = px(10, 20, 30);
    let bg = px(0x12, 0x13, 0x14);
    // the cell rectangle is rows 0..3 (rounded 2.6 -> 3), columns 0..2
    for y in 0..3 {
        assert_eq!(buf[y * 4], filled);
        assert_eq!(buf[y * 4 + 1], filled);
        assert_eq!(buf[y * 4 + 2], bg);
    }
    assert_eq!(buf[12], bg);
}

#[test]
fn compose_clips_glyphs_at_the_canvas_edge() {
    let theme = default_theme();
    let cfg = RenderConfig { width: 2, height: 2, font_size: 2, col_width: 2 };
    let frame = Frame {
        time: 0,
        data: vec![vec![rcell('#', None, None), rcell('#', None, None)]],
    };
    // the second cell starts at x = 2, entirely off a 2-pixel canvas;
    // a negative xmin pushes part of the first glyph off the left edge
    let big = |xmin: i32| GlyphBitmap {
        width: 3,
        height: 3,
        xmin,
        ymin: 0,
        coverage: vec![255; 9],
    };
    let buf = compose(&frame, &vec![vec![big(-1), big(0)]], &theme, &cfg);
    assert_eq!(buf.len(), 4);
    // foreground 0xcc through coverage 255: 204 * 255 / 256 = 203, over
    // background (18,19,20) weighted 0
    let ink = px(203, 203, 203);
    assert_eq!(buf[0], ink);
    assert_eq!(buf[1], ink);
}

#[test]
fn geometry_rounds_rows_like_the_reference() {
    // font size 16: row height 20.8 px; rows start at 0, 21, 42, 62
    let theme = default_theme();
    let cfg = RenderConfig { width: 2, height: 70, font_size: 16, col_width: 2 };
    let fill = TermColor::Rgb(Rgb { r: 1, g: 1, b: 1 });
    let frame = Frame {
        time: 0,
        data: vec![
            vec![rcell(' ', None, Some(fill))],
            vec![rcell(' ', None, None)],
            vec![rcell(' ', None, Some(fill))],
        ],
    };
    let buf = compose(&frame, &vec![], &theme, &cfg);
    let filled = px(1, 1, 1);
    let bg = px(0x12, 0x13, 0x14);
    // row 0 spans y in [0, 21)
    assert_eq!(buf[0], filled);
    assert_eq!(buf[20 * 2], filled);
    assert_eq!(buf[21 * 2], bg);
    // row 2 spans y in [42, 62)
    assert_eq!(buf[41 * 2], bg);
    assert_eq!(buf[42 * 2], filled);
    assert_eq!(buf[61 * 2], filled);
    assert_eq!(buf[62 * 2], bg);
}

#[test]
fn glyph_metrics_offset_the_bitmap() {
    let theme = default_theme();
    let cfg = RenderConfig { width: 2, height: 4, font_size: 2, col_width: 2 };
    let frame = Frame { time: 0, data: vec![vec![rcell('g', None, None)]] };
    // a descender: ymin -1 pushes the bitmap one pixel below the
    // baseline, so target y = cell_y + font_size - height - ymin = 1
    let glyphs = vec![vec![GlyphBitmap {
        width: 1,
        height: 2,
        xmin: 1,
        ymin: -1,
        coverage: vec![255, 255],
    }]];
    let buf = compose(&frame, &glyphs, &theme, &cfg);
    let ink = px(203, 203, 203);
    let bg = px(0x12, 0x13, 0x14);
    // xmin 1 shifts the column right: pixels (1,1) and (1,2)
    assert_eq!(buf[0], bg);
    assert_eq!(buf[1], bg);
    assert_eq!(buf[2], bg);
    assert_eq!(buf[1 * 2 + 1], ink);
    assert_eq!(buf[2 * 2 + 1], ink);
    assert_eq!(buf[3 * 2 + 1], bg);
}
