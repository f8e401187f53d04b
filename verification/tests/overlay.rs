use detile::{draw_overlay, GridGeometry, RgbaBuffer};

const TILE: [u8; 4] = [255, 50, 50, 220];
const MARGIN: [u8; 4] = [255, 165, 0, 160];
const ORIGIN: [u8; 4] = [50, 255, 50, 255];
const BG: [u8; 4] = [1, 2, 3, 4];

fn geometry(stride: u32, tile: u32, offset: u32) -> GridGeometry {
    GridGeometry {
        tile_width: tile,
        tile_height: tile,
        stride_x: stride,
        stride_y: stride,
        offset_x: offset,
        offset_y: offset,
        margin_x: stride - tile,
        margin_y: stride - tile,
        columns: 2,
        rows: 2,
    }
}

#[test]
fn overlay_draws_tile_lines() {
    let img = RgbaBuffer::from_pixel(20, 20, BG);
    let out = draw_overlay(&img, &geometry(8, 8, 2));
    assert_eq!(out.width, 20);
    assert_eq!(out.height, 20);
    // Lines at 2, 10 and 18 along both axes.
    assert_eq!(out.get_pixel(10, 15), TILE);
    assert_eq!(out.get_pixel(18, 0), TILE);
    assert_eq!(out.get_pixel(15, 10), TILE);
    assert_eq!(out.get_pixel(11, 11), BG);
    assert_eq!(out.get_pixel(0, 0), BG);
}

#[test]
fn overlay_draws_margin_lines() {
    let img = RgbaBuffer::from_pixel(20, 20, BG);
    let out = draw_overlay(&img, &geometry(8, 6, 0));
    // Tile lines at 0, 8, 16; margin lines at 6, 14 (22 is outside).
    assert_eq!(out.get_pixel(6, 11), MARGIN);
    assert_eq!(out.get_pixel(14, 11), MARGIN);
    assert_eq!(out.get_pixel(11, 6), MARGIN);
    assert_eq!(out.get_pixel(8, 11), TILE);
    // Horizontal lines are drawn over vertical ones.
    assert_eq!(out.get_pixel(6, 8), TILE);
    assert_eq!(out.get_pixel(8, 6), MARGIN);
    assert_eq!(out.get_pixel(12, 12), BG);
}

#[test]
fn overlay_draws_origin_cross() {
    let img = RgbaBuffer::from_pixel(20, 20, BG);
    let out = draw_overlay(&img, &geometry(8, 8, 5));
    for d in 0..7u32 {
        assert_eq!(out.get_pixel(2 + d, 5), ORIGIN);
        assert_eq!(out.get_pixel(5, 2 + d), ORIGIN);
    }
    assert_eq!(out.get_pixel(9, 5), TILE);
    assert_eq!(out.get_pixel(1, 5), TILE);
}

#[test]
fn overlay_cross_clips_at_the_corner() {
    let img = RgbaBuffer::from_pixel(10, 10, BG);
    let out = draw_overlay(&img, &geometry(4, 4, 0));
    // The arm starts at the saturated position zero.
    assert_eq!(out.get_pixel(3, 0), ORIGIN);
    assert_eq!(out.get_pixel(0, 3), ORIGIN);
    assert_eq!(out.get_pixel(4, 0), TILE);
    assert_eq!(out.get_pixel(1, 1), BG);
}

#[test]
fn overlay_leaves_input_untouched() {
    let img = RgbaBuffer::from_pixel(12, 12, BG);
    let _ = draw_overlay(&img, &geometry(6, 6, 0));
    assert_eq!(img.get_pixel(0, 0), BG);
    assert_eq!(img.get_pixel(6, 6), BG);
}
