//! Drawing of a detected grid over the image it was detected in.
use vstd::prelude::*;
use vstd::arithmetic::div_mod::{lemma_fundamental_div_mod, lemma_fundamental_div_mod_converse, lemma_mod_pos_bound, lemma_div_pos_is_pos};
use crate::raster::RgbaBuffer;
use crate::tiles::GridGeometry;

verus! {

/// Colour of the lines at tile starts.
pub open spec fn tile_line_color() -> Seq<u8> {
    seq![255u8, 50u8, 50u8, 220u8]
}

/// Colour of the lines at margin starts.
pub open spec fn margin_line_color() -> Seq<u8> {
    seq![255u8, 165u8, 0u8, 160u8]
}

/// Colour of the cross at the first tile origin.
pub open spec fn origin_color() -> Seq<u8> {
    seq![50u8, 255u8, 50u8, 255u8]
}

/// Position of tile line `k` along an axis with offset `o` and stride `s`.
pub open spec fn line_pos(o: int, s: int, k: int) -> int {
    o + k * s
}

/// `p` (below `n`) is one of the first `k` tile lines of an axis.
pub open spec fn grid_line_upto(p: int, o: int, s: int, n: int, k: int) -> bool {
    s > 0 && o <= p < n && (p - o) % s == 0 && (p - o) / s < k
}

/// `p` (below `n`) is the margin line `t` pixels after one of the first `k`
/// tile lines of an axis whose margin `m` is not zero.
pub open spec fn margin_line_upto(p: int, o: int, s: int, t: int, m: int, n: int, k: int) -> bool {
    m > 0 && s > 0 && o + t <= p < n && (p - o - t) % s == 0 && (p - o - t) / s < k
}

/// The colour left at `p` by the first `k` tile lines and their margin
/// lines, drawn in order (each tile line followed by its margin line):
/// a margin line wins over a tile line only where the tile size is zero.
pub open spec fn line_color_upto(p: int, o: int, s: int, t: int, m: int, n: int, k: int) -> Option<Seq<u8>> {
    if margin_line_upto(p, o, s, t, m, n, k) && !(grid_line_upto(p, o, s, n, k) && t > 0) {
        Some(margin_line_color())
    } else if grid_line_upto(p, o, s, n, k) {
        Some(tile_line_color())
    } else {
        None
    }
}

/// The colour left at `p` by all tile and margin lines of an axis of length `n`.
pub open spec fn line_color(p: int, o: int, s: int, t: int, m: int, n: int) -> Option<Seq<u8>> {
    line_color_upto(p, o, s, t, m, n, n + 1)
}

/// Offset `d` of the seven-pixel arm of the origin cross, as the
/// saturating `u32` arithmetic `o + d - 3` gives it.
pub open spec fn cross_pos(o: int, d: int) -> int {
    let a = if o + d > u32::MAX { u32::MAX as int } else { o + d };
    if a >= 3 { a - 3 } else { 0 }
}

/// `p` is on the arm of the cross centred at `o`, among the first `dn` offsets.
pub open spec fn on_cross_arm(p: int, o: int, dn: int) -> bool {
    exists|d: int| 0 <= d < dn && p == #[trigger] cross_pos(o, d)
}

/// `(x, y)` is on the origin cross drawn with the first `dn` offsets.
pub open spec fn on_origin_cross(g: GridGeometry, x: int, y: int, dn: int) -> bool {
    (y == g.offset_y && on_cross_arm(x, g.offset_x as int, dn))
        || (x == g.offset_x && on_cross_arm(y, g.offset_y as int, dn))
}

/// Byte `ch` of pixel `(x, y)` of the overlay: the origin cross over the
/// horizontal lines over the vertical lines over the image.
pub open spec fn overlay_byte(img: RgbaBuffer, g: GridGeometry, x: int, y: int, ch: int) -> u8 {
    if on_origin_cross(g, x, y, 7) {
        origin_color()[ch]
    } else {
        match line_color(y, g.offset_y as int, g.stride_y as int, g.tile_height as int, g.margin_y as int, img.height as int) {
            Some(col) => col[ch],
            None => match line_color(x, g.offset_x as int, g.stride_x as int, g.tile_width as int, g.margin_x as int, img.width as int) {
                Some(col) => col[ch],
                None => img.byte_at(x, y, ch),
            },
        }
    }
}

/// The walk over the lines of an axis ends: with a zero stride there is no
/// line inside the axis.
pub open spec fn axis_walk_ends(o: int, s: int, n: int) -> bool {
    s > 0 || o >= n
}

/// Every margin line position of an axis fits in `u32`.
pub open spec fn margin_lines_fit(o: int, s: int, t: int, m: int, n: int) -> bool {
    m > 0 ==> forall|k: int| 0 <= k && #[trigger] line_pos(o, s, k) < n ==> line_pos(o, s, k) + t <= u32::MAX
}

/// Adding tile line `k` (with its margin line) to the first `k` lines.
proof fn lemma_line_step(p: int, o: int, s: int, t: int, m: int, n: int, k: int)
    requires
        s > 0,
        k >= 0,
        t >= 0,
        o >= 0,
        line_pos(o, s, k) < n,
    ensures
        grid_line_upto(p, o, s, n, k + 1) == (grid_line_upto(p, o, s, n, k) || p == line_pos(o, s, k)),
        margin_line_upto(p, o, s, t, m, n, k + 1) == (margin_line_upto(p, o, s, t, m, n, k)
            || (m > 0 && p == line_pos(o, s, k) + t && p < n)),
{
    if p >= o {
        lemma_fundamental_div_mod(p - o, s);
        lemma_mod_pos_bound(p - o, s);
        lemma_div_pos_is_pos(p - o, s);
        if p == line_pos(o, s, k) {
            lemma_fundamental_div_mod_converse(p - o, s, k, 0);
        }
        if (p - o) % s == 0 && (p - o) / s == k {
            assert(p - o == s * k);
            assert(s * k == k * s) by (nonlinear_arith);
        }
    }
    if p >= o + t {
        lemma_fundamental_div_mod(p - o - t, s);
        lemma_mod_pos_bound(p - o - t, s);
        lemma_div_pos_is_pos(p - o - t, s);
        if p == line_pos(o, s, k) + t {
            lemma_fundamental_div_mod_converse(p - o - t, s, k, 0);
        }
        if (p - o - t) % s == 0 && (p - o - t) / s == k {
            assert(p - o - t == s * k);
            assert(s * k == k * s) by (nonlinear_arith);
        }
    }
}

/// What adding tile line `k` (with its margin line) does to the colour at `p`:
/// the margin line is drawn last, the tile line before it.
proof fn lemma_line_color_step(p: int, o: int, s: int, t: int, m: int, n: int, k: int)
    requires
        s > 0,
        k >= 0,
        t >= 0,
        o >= 0,
        line_pos(o, s, k) < n,
    ensures
        line_color_upto(p, o, s, t, m, n, k + 1) == if m > 0 && p == line_pos(o, s, k) + t && p < n {
            Some(margin_line_color())
        } else if p == line_pos(o, s, k) {
            Some(tile_line_color())
        } else {
            line_color_upto(p, o, s, t, m, n, k)
        },
{
    lemma_line_step(p, o, s, t, m, n, k);
    let l = line_pos(o, s, k);
    assert(k * s == s * k) by (nonlinear_arith);
    if m > 0 && p == l + t && p < n && t > 0 && grid_line_upto(p, o, s, n, k + 1) {
        let q = (p - o) / s;
        lemma_fundamental_div_mod(p - o, s);
        assert(s * q <= s * k) by (nonlinear_arith) requires q <= k, s > 0;
        assert(false);
    }
    if p == l && t == 0 && margin_line_upto(p, o, s, t, m, n, k) {
        lemma_fundamental_div_mod_converse(p - o, s, k, 0);
        assert(false);
    }
}

/// Once the next tile line lies outside the axis, the lines drawn are all of them.
proof fn lemma_line_complete(p: int, o: int, s: int, t: int, m: int, n: int, k: int)
    requires
        s > 0 || o >= n,
        k >= 0,
        t >= 0,
        0 <= p < n,
        o >= 0,
        line_pos(o, s, k) >= n,
    ensures
        line_color_upto(p, o, s, t, m, n, k) == line_color(p, o, s, t, m, n),
{
    if s > 0 {
        if p >= o {
            lemma_fundamental_div_mod(p - o, s);
            lemma_mod_pos_bound(p - o, s);
            lemma_div_pos_is_pos(p - o, s);
            let q = (p - o) / s;
            assert(q <= p - o) by (nonlinear_arith) requires p - o == s * q + (p - o) % s, s > 0, q >= 0, (p - o) % s >= 0;
            if q >= k {
                assert(q * s >= k * s) by (nonlinear_arith) requires q >= k, s > 0;
                assert(s * q == q * s) by (nonlinear_arith);
            }
        }
        if p >= o + t {
            lemma_fundamental_div_mod(p - o - t, s);
            lemma_mod_pos_bound(p - o - t, s);
            lemma_div_pos_is_pos(p - o - t, s);
            let q = (p - o - t) / s;
            assert(q <= p - o - t) by (nonlinear_arith) requires p - o - t == s * q + (p - o - t) % s, s > 0, q >= 0, (p - o - t) % s >= 0;
            if q >= k {
                assert(q * s >= k * s) by (nonlinear_arith) requires q >= k, s > 0;
                assert(s * q == q * s) by (nonlinear_arith);
            }
        }
    }
}

/// Colours the pixels `(x, y)` for `y0 <= y < y1` (and inside the image).
fn draw_vline(img: &mut RgbaBuffer, x: u32, y0: u32, y1: u32, color: [u8; 4])
    requires
        old(img).wf(),
    ensures
        final(img).wf(),
        final(img).width == old(img).width,
        final(img).height == old(img).height,
        forall|xx: int, yy: int, ch: int|
            0 <= xx < old(img).width && 0 <= yy < old(img).height && 0 <= ch < 4 ==>
            #[trigger] final(img).byte_at(xx, yy, ch) == if xx == x && y0 <= yy < y1 { color@[ch] } else { old(img).byte_at(xx, yy, ch) },
{
    if x >= img.width {
        return;
    }
    let end = if y1 < img.height { y1 } else { img.height };
    let ghost start = *img;
    let mut y = y0;
    while y < end
        invariant
            img.wf(),
            img.width == start.width,
            img.height == start.height,
            x < img.width,
            end <= img.height,
            end == y1 || end == img.height,
            y0 <= y || y >= end,
            forall|xx: int, yy: int, ch: int|
                0 <= xx < start.width && 0 <= yy < start.height && 0 <= ch < 4 ==>
                #[trigger] img.byte_at(xx, yy, ch) == if xx == x && y0 <= yy < y && yy < end { color@[ch] } else { start.byte_at(xx, yy, ch) },
        decreases end - y,
    {
        img.put_pixel(x, y, color);
        y = y + 1;
    }
}

/// Colours the pixels `(x, y)` for `x0 <= x < x1` (and inside the image).
fn draw_hline(img: &mut RgbaBuffer, x0: u32, x1: u32, y: u32, color: [u8; 4])
    requires
        old(img).wf(),
    ensures
        final(img).wf(),
        final(img).width == old(img).width,
        final(img).height == old(img).height,
        forall|xx: int, yy: int, ch: int|
            0 <= xx < old(img).width && 0 <= yy < old(img).height && 0 <= ch < 4 ==>
            #[trigger] final(img).byte_at(xx, yy, ch) == if yy == y && x0 <= xx < x1 { color@[ch] } else { old(img).byte_at(xx, yy, ch) },
{
    if y >= img.height {
        return;
    }
    let end = if x1 < img.width { x1 } else { img.width };
    let ghost start = *img;
    let mut x = x0;
    while x < end
        invariant
            img.wf(),
            img.width == start.width,
            img.height == start.height,
            y < img.height,
            end <= img.width,
            end == x1 || end == img.width,
            x0 <= x || x >= end,
            forall|xx: int, yy: int, ch: int|
                0 <= xx < start.width && 0 <= yy < start.height && 0 <= ch < 4 ==>
                #[trigger] img.byte_at(xx, yy, ch) == if yy == y && x0 <= xx < x && xx < end { color@[ch] } else { start.byte_at(xx, yy, ch) },
        decreases end - x,
    {
        img.put_pixel(x, y, color);
        x = x + 1;
    }
}

/// Byte `ch` of pixel `(x, y)` after the vertical lines are drawn over `img`.
pub open spec fn vertical_byte(img: RgbaBuffer, g: GridGeometry, x: int, y: int, ch: int, k: int) -> u8 {
    match line_color_upto(x, g.offset_x as int, g.stride_x as int, g.tile_width as int, g.margin_x as int, img.width as int, k) {
        Some(col) => col[ch],
        None => img.byte_at(x, y, ch),
    }
}

/// Byte `ch` of pixel `(x, y)` after the horizontal lines are drawn as well.
pub open spec fn horizontal_byte(img: RgbaBuffer, g: GridGeometry, x: int, y: int, ch: int, k: int) -> u8 {
    match line_color_upto(y, g.offset_y as int, g.stride_y as int, g.tile_height as int, g.margin_y as int, img.height as int, k) {
        Some(col) => col[ch],
        None => vertical_byte(img, g, x, y, ch, img.width as int + 1),
    }
}

/// Draws the detected grid over a copy of `img`: a line at every tile start
/// along both axes, a second line at every margin start where the grid has
/// a margin, and a small cross at the first tile origin.
pub fn draw_overlay(img: &RgbaBuffer, g: &GridGeometry) -> (out: RgbaBuffer)
    requires
        img.wf(),
        axis_walk_ends(g.offset_x as int, g.stride_x as int, img.width as int),
        axis_walk_ends(g.offset_y as int, g.stride_y as int, img.height as int),
        margin_lines_fit(g.offset_x as int, g.stride_x as int, g.tile_width as int, g.margin_x as int, img.width as int),
        margin_lines_fit(g.offset_y as int, g.stride_y as int, g.tile_height as int, g.margin_y as int, img.height as int),
    ensures
        out.wf(),
        out.width == img.width,
        out.height == img.height,
        forall|x: int, y: int, ch: int| 0 <= x < img.width && 0 <= y < img.height && 0 <= ch < 4 ==>
            #[trigger] out.byte_at(x, y, ch) == overlay_byte(*img, *g, x, y, ch),
{
    let tile_color: [u8; 4] = [255, 50, 50, 220];
    let margin_color: [u8; 4] = [255, 165, 0, 160];
    let offset_color: [u8; 4] = [50, 255, 50, 255];
    assert(tile_color@ == tile_line_color());
    assert(margin_color@ == margin_line_color());
    assert(offset_color@ == origin_color());
    let w = img.width;
    let h = img.height;
    let ghost wi = w as int;
    let ghost hi = h as int;
    let ghost ox = g.offset_x as int;
    let ghost sx = g.stride_x as int;
    let ghost oy = g.offset_y as int;
    let ghost sy = g.stride_y as int;
    let mut out = img.clone_buffer();

    // Vertical lines at tile boundaries.
    let mut x = g.offset_x;
    let ghost mut k: int = 0;
    assert forall|xx: int, yy: int, ch: int| 0 <= xx < w && 0 <= yy < h && 0 <= ch < 4 implies
        #[trigger] out.byte_at(xx, yy, ch) == vertical_byte(*img, *g, xx, yy, ch, k) by {}
    loop
        invariant_except_break
            x as int == line_pos(ox, sx, k),
        invariant
            out.wf(),
            out.width == w,
            out.height == h,
            w == img.width,
            h == img.height,
            tile_color@ == tile_line_color(),
            margin_color@ == margin_line_color(),
            k >= 0,
            wi == w,
            hi == h,
            ox == g.offset_x,
            sx == g.stride_x,
            axis_walk_ends(ox, sx, wi),
            margin_lines_fit(ox, sx, g.tile_width as int, g.margin_x as int, wi),
            forall|xx: int, yy: int, ch: int| 0 <= xx < w && 0 <= yy < h && 0 <= ch < 4 ==>
                #[trigger] out.byte_at(xx, yy, ch) == vertical_byte(*img, *g, xx, yy, ch, k),
        ensures
            out.wf(),
            out.width == w,
            out.height == h,
            k >= 0,
            line_pos(ox, sx, k) >= wi,
            forall|xx: int, yy: int, ch: int| 0 <= xx < w && 0 <= yy < h && 0 <= ch < 4 ==>
                #[trigger] out.byte_at(xx, yy, ch) == vertical_byte(*img, *g, xx, yy, ch, k),
        decreases u32::MAX - x,
    {
        if x >= w {
            break;
        }
        proof {
            if sx == 0 {
                assert(k * sx == 0) by (nonlinear_arith) requires sx == 0;
            }
        }
        let ghost before = out;
        draw_vline(&mut out, x, 0, h, tile_color);
        let ghost mid = out;
        let mut drew_margin = false;
        if g.margin_x > 0 {
            assert(line_pos(ox, sx, k) < wi);
            let mx = x + g.tile_width;
            if mx < w {
                draw_vline(&mut out, mx, 0, h, margin_color);
                drew_margin = true;
            }
        }
        proof {
            let t = g.tile_width as int;
            assert forall|xx: int, yy: int, ch: int| 0 <= xx < w && 0 <= yy < h && 0 <= ch < 4 implies
                #[trigger] out.byte_at(xx, yy, ch) == vertical_byte(*img, *g, xx, yy, ch, k + 1) by {
                lemma_line_color_step(xx, ox, sx, t, g.margin_x as int, wi, k);
                assert(mid.byte_at(xx, yy, ch) == if xx == x { tile_color@[ch] } else { before.byte_at(xx, yy, ch) });
                if drew_margin {
                    assert(out.byte_at(xx, yy, ch) == if xx == x + t { margin_color@[ch] } else { mid.byte_at(xx, yy, ch) });
                } else {
                    assert(out.byte_at(xx, yy, ch) == mid.byte_at(xx, yy, ch));
                }
            }
            assert(line_pos(ox, sx, k + 1) == line_pos(ox, sx, k) + sx) by (nonlinear_arith);
            k = k + 1;
        }
        match x.checked_add(g.stride_x) {
            Some(v) => {
                x = v;
            },
            None => {
                break;
            },
        }
    }
    proof {
        assert forall|xx: int, yy: int, ch: int| 0 <= xx < w && 0 <= yy < h && 0 <= ch < 4 implies
            #[trigger] out.byte_at(xx, yy, ch) == vertical_byte(*img, *g, xx, yy, ch, wi + 1) by {
            lemma_line_complete(xx, ox, sx, g.tile_width as int, g.margin_x as int, wi, k);
        }
    }

    // Horizontal lines at tile boundaries.
    let mut y = g.offset_y;
    let ghost mut k: int = 0;
    loop
        invariant_except_break
            y as int == line_pos(oy, sy, k),
        invariant
            out.wf(),
            out.width == w,
            out.height == h,
            w == img.width,
            h == img.height,
            tile_color@ == tile_line_color(),
            margin_color@ == margin_line_color(),
            k >= 0,
            wi == w,
            hi == h,
            oy == g.offset_y,
            sy == g.stride_y,
            axis_walk_ends(oy, sy, hi),
            margin_lines_fit(oy, sy, g.tile_height as int, g.margin_y as int, hi),
            forall|xx: int, yy: int, ch: int| 0 <= xx < w && 0 <= yy < h && 0 <= ch < 4 ==>
                #[trigger] out.byte_at(xx, yy, ch) == horizontal_byte(*img, *g, xx, yy, ch, k),
        ensures
            out.wf(),
            out.width == w,
            out.height == h,
            k >= 0,
            line_pos(oy, sy, k) >= hi,
            forall|xx: int, yy: int, ch: int| 0 <= xx < w && 0 <= yy < h && 0 <= ch < 4 ==>
                #[trigger] out.byte_at(xx, yy, ch) == horizontal_byte(*img, *g, xx, yy, ch, k),
        decreases u32::MAX - y,
    {
        if y >= h {
            break;
        }
        proof {
            if sy == 0 {
                assert(k * sy == 0) by (nonlinear_arith) requires sy == 0;
            }
        }
        let ghost before = out;
        draw_hline(&mut out, 0, w, y, tile_color);
        let ghost mid = out;
        let mut drew_margin = false;
        if g.margin_y > 0 {
            assert(line_pos(oy, sy, k) < hi);
            let my = y + g.tile_height;
            if my < h {
                draw_hline(&mut out, 0, w, my, margin_color);
                drew_margin = true;
            }
        }
        proof {
            let t = g.tile_height as int;
            assert forall|xx: int, yy: int, ch: int| 0 <= xx < w && 0 <= yy < h && 0 <= ch < 4 implies
                #[trigger] out.byte_at(xx, yy, ch) == horizontal_byte(*img, *g, xx, yy, ch, k + 1) by {
                lemma_line_color_step(yy, oy, sy, t, g.margin_y as int, hi, k);
                assert(mid.byte_at(xx, yy, ch) == if yy == y { tile_color@[ch] } else { before.byte_at(xx, yy, ch) });
                if drew_margin {
                    assert(out.byte_at(xx, yy, ch) == if yy == y + t { margin_color@[ch] } else { mid.byte_at(xx, yy, ch) });
                } else {
                    assert(out.byte_at(xx, yy, ch) == mid.byte_at(xx, yy, ch));
                }
            }
            assert(line_pos(oy, sy, k + 1) == line_pos(oy, sy, k) + sy) by (nonlinear_arith);
            k = k + 1;
        }
        match y.checked_add(g.stride_y) {
            Some(v) => {
                y = v;
            },
            None => {
                break;
            },
        }
    }
    proof {
        assert forall|xx: int, yy: int, ch: int| 0 <= xx < w && 0 <= yy < h && 0 <= ch < 4 implies
            #[trigger] out.byte_at(xx, yy, ch) == horizontal_byte(*img, *g, xx, yy, ch, hi + 1) by {
            lemma_line_complete(yy, oy, sy, g.tile_height as int, g.margin_y as int, hi, k);
        }
    }

    // Cross marker at the first tile origin.
    let ox32 = g.offset_x;
    let oy32 = g.offset_y;
    let mut d: u32 = 0;
    while d < 7
        invariant
            out.wf(),
            out.width == w,
            out.height == h,
            w == img.width,
            h == img.height,
            offset_color@ == origin_color(),
            ox32 == g.offset_x,
            oy32 == g.offset_y,
            hi == h,
            d <= 7,
            forall|xx: int, yy: int, ch: int| 0 <= xx < w && 0 <= yy < h && 0 <= ch < 4 ==>
                #[trigger] out.byte_at(xx, yy, ch) == if on_origin_cross(*g, xx, yy, d as int) {
                    origin_color()[ch]
                } else {
                    horizontal_byte(*img, *g, xx, yy, ch, hi + 1)
                },
        decreases 7 - d,
    {
        let ghost before = out;
        let px = ox32.saturating_add(d).saturating_sub(3);
        if px < w && oy32 < h {
            out.put_pixel(px, oy32, offset_color);
        }
        let ghost mid = out;
        let py = oy32.saturating_add(d).saturating_sub(3);
        if ox32 < w && py < h {
            out.put_pixel(ox32, py, offset_color);
        }
        proof {
            assert(px as int == cross_pos(ox32 as int, d as int));
            assert(py as int == cross_pos(oy32 as int, d as int));
            assert forall|xx: int, yy: int, ch: int| 0 <= xx < w && 0 <= yy < h && 0 <= ch < 4 implies
                #[trigger] out.byte_at(xx, yy, ch) == if on_origin_cross(*g, xx, yy, d + 1) {
                    origin_color()[ch]
                } else {
                    horizontal_byte(*img, *g, xx, yy, ch, hi + 1)
                } by {
                if on_origin_cross(*g, xx, yy, d + 1) && !on_origin_cross(*g, xx, yy, d as int) {
                    if yy == oy32 && on_cross_arm(xx, ox32 as int, d + 1) {
                        let e = choose|e: int| 0 <= e < d + 1 && xx == #[trigger] cross_pos(ox32 as int, e);
                        if e < d {
                            assert(on_cross_arm(xx, ox32 as int, d as int));
                        }
                    } else {
                        let e = choose|e: int| 0 <= e < d + 1 && yy == #[trigger] cross_pos(oy32 as int, e);
                        if e < d {
                            assert(on_cross_arm(yy, oy32 as int, d as int));
                        }
                    }
                }
                if on_origin_cross(*g, xx, yy, d as int) {
                    if yy == oy32 && on_cross_arm(xx, ox32 as int, d as int) {
                        let e = choose|e: int| 0 <= e < d && xx == #[trigger] cross_pos(ox32 as int, e);
                        assert(on_cross_arm(xx, ox32 as int, d + 1));
                    } else {
                        let e = choose|e: int| 0 <= e < d && yy == #[trigger] cross_pos(oy32 as int, e);
                        assert(on_cross_arm(yy, oy32 as int, d + 1));
                    }
                }
                if yy == oy32 && xx == px {
                    assert(on_cross_arm(xx, ox32 as int, d + 1));
                }
                if xx == ox32 && yy == py {
                    assert(on_cross_arm(yy, oy32 as int, d + 1));
                }
            }
        }
        d = d + 1;
    }
    out
}

} // verus!
