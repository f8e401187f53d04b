use detile::{
    build_atlas, decompose_layers, extract_tiles, GridGeometry, LayerBaseMode, RgbaBuffer,
};
use detile::atlas::try_build_atlas;
use detile::layers::{compute_base_tile, compute_mean_tile};

fn detection(stride: u32, cols: u32, rows: u32) -> GridGeometry {
    GridGeometry {
        tile_width: stride,
        tile_height: stride,
        stride_x: stride,
        stride_y: stride,
        offset_x: 0,
        offset_y: 0,
        margin_x: 0,
        margin_y: 0,
        columns: cols,
        rows,
    }
}

fn solid_grid(tile: u32, cols: u32, rows: u32, color_fn: impl Fn(u32, u32) -> [u8; 4]) -> RgbaBuffer {
    let mut img = RgbaBuffer::new(cols * tile, rows * tile);
    for r in 0..rows {
        for c in 0..cols {
            let color = color_fn(r, c);
            for ty in 0..tile {
                for tx in 0..tile {
                    img.put_pixel(c * tile + tx, r * tile + ty, color);
                }
            }
        }
    }
    img
}

/// The detail threshold of the layer decomposition, as a limit on the sum
/// of the four channel differences: a mean above `t` is a sum above `4 t`.
fn detail_limit(t: u32) -> i32 {
    (4 * t) as i32
}

#[test]
fn dedup_identical_tiles() {
    let t = 4u32;
    let cols = 2u32;
    let rows = 2u32;
    let img = solid_grid(t, cols, rows, |r, c| {
        if (r + c) % 2 == 0 {
            [255, 0, 0, 255]
        } else {
            [0, 0, 255, 255]
        }
    });
    let atlas = build_atlas(&img, &detection(t, cols, rows), Some(0), 0);
    assert_eq!(atlas.total_cells, 4);
    assert_eq!(atlas.unique_count, 2, "expected 2 unique tiles");
}

#[test]
fn extract_tiles_count() {
    let t = 4u32;
    let cols = 3u32;
    let rows = 2u32;
    let img = RgbaBuffer::new(cols * t, rows * t);
    let tiles = extract_tiles(&img, &detection(t, cols, rows));
    assert_eq!(tiles.len(), (cols * rows) as usize);
}

#[test]
fn decompose_layers_base_is_mode() {
    let t = 4u32;
    let red = [255u8, 0, 0, 255];
    let blue = [0u8, 0, 255, 255];
    let img = solid_grid(t, 2, 2, |r, c| if r == 1 && c == 1 { blue } else { red });
    let decomp = decompose_layers(&img, &detection(t, 2, 2), LayerBaseMode::Mode, detail_limit(15), 0, 1);
    for py in 0..t {
        for px in 0..t {
            assert_eq!(decomp.bases[0].get_pixel(px, py), red, "base should be red");
        }
    }
    const PAD: u32 = 1;
    let ox = PAD + 1 * (t + PAD);
    let oy = PAD + 1 * (t + PAD);
    assert_eq!(decomp.detail_atlas.get_pixel(ox, oy), blue);
}

#[test]
fn decompose_layers_identical_tiles_transparent_detail() {
    let t = 4u32;
    let color = [100u8, 150, 200, 255];
    let img = solid_grid(t, 2, 2, |_, _| color);
    let decomp = decompose_layers(&img, &detection(t, 2, 2), LayerBaseMode::Mode, detail_limit(0), 0, 1);
    const PAD: u32 = 1;
    for r in 0..2u32 {
        for c in 0..2u32 {
            let ox = PAD + c * (t + PAD);
            let oy = PAD + r * (t + PAD);
            for ty in 0..t {
                for tx in 0..t {
                    let p = decomp.detail_atlas.get_pixel(ox + tx, oy + ty);
                    assert_eq!(p[3], 0, "detail pixel should be transparent when matching base");
                }
            }
        }
    }
}

#[test]
fn decompose_layers_detail_pixel_preserves_color() {
    let t = 4u32;
    let red = [255u8, 0, 0, 255];
    let green = [0u8, 255, 0, 255];
    let mut img = solid_grid(t, 2, 1, |_, _| red);
    img.put_pixel(t + 2, 2, green);
    let decomp = decompose_layers(&img, &detection(t, 2, 1), LayerBaseMode::Mode, detail_limit(15), 0, 1);
    const PAD: u32 = 1;
    let ox = PAD + 1 * (t + PAD);
    let oy = PAD;
    assert_eq!(decomp.detail_atlas.get_pixel(ox + 2, oy + 2), green);
    assert_eq!(decomp.detail_atlas.get_pixel(ox, oy)[3], 0);
}

#[test]
fn decompose_layers_median_matches_majority() {
    let t = 2u32;
    let dark = [100u8, 100, 100, 255];
    let bright = [200u8, 200, 200, 255];
    let img = solid_grid(t, 2, 2, |r, c| if r == 1 && c == 1 { bright } else { dark });
    let decomp = decompose_layers(&img, &detection(t, 2, 2), LayerBaseMode::Median, detail_limit(15), 0, 1);
    assert_eq!(decomp.bases[0].get_pixel(0, 0), dark, "median base should be dark");
}

#[test]
fn decompose_layers_two_bases_separates_colors() {
    // Two red tiles on the top row and two blue tiles below: two bases
    // should come out as red and blue, not a blend of them.
    let t = 4u32;
    let red = [255u8, 0, 0, 255];
    let blue = [0u8, 0, 255, 255];
    let img = solid_grid(t, 2, 2, |r, _| if r == 0 { red } else { blue });
    let decomp = decompose_layers(&img, &detection(t, 2, 2), LayerBaseMode::Mode, detail_limit(15), 0, 2);
    assert_eq!(decomp.bases.len(), 2);
    let b0 = decomp.bases[0].get_pixel(0, 0);
    let b1 = decomp.bases[1].get_pixel(0, 0);
    let colors: std::collections::HashSet<[u8; 4]> = [b0, b1].into();
    assert!(colors.contains(&red), "one base should be red");
    assert!(colors.contains(&blue), "one base should be blue");
    const PAD: u32 = 1;
    for r in 0..2u32 {
        for c in 0..2u32 {
            let ox = PAD + c * (t + PAD);
            let oy = PAD + r * (t + PAD);
            for ty in 0..t {
                for tx in 0..t {
                    assert_eq!(
                        decomp.detail_atlas.get_pixel(ox + tx, oy + ty)[3],
                        0,
                        "detail should be transparent when tile = base"
                    );
                }
            }
        }
    }
}

#[test]
fn atlas_layout_and_background() {
    // Three distinct tiles: two columns (rounded-up square root), two rows.
    let t = 2u32;
    let colors = [[10u8, 0, 0, 255], [0u8, 20, 0, 255], [0u8, 0, 30, 255]];
    let img = solid_grid(t, 3, 1, |_, c| colors[c as usize]);
    let atlas = build_atlas(&img, &detection(t, 3, 1), Some(0), 0);
    assert_eq!(atlas.unique_count, 3);
    assert_eq!(atlas.total_cells, 3);
    assert_eq!(atlas.atlas_cols, 2);
    assert_eq!(atlas.atlas_rows, 2);
    assert_eq!(atlas.image.width, 2 * (t + 1) + 1);
    assert_eq!(atlas.image.height, 2 * (t + 1) + 1);
    // Gutter and the empty fourth slot are background.
    assert_eq!(atlas.image.get_pixel(0, 0), [28, 28, 32, 255]);
    assert_eq!(atlas.image.get_pixel(4, 4), [28, 28, 32, 255]);
    // Tiles in row-major slots.
    assert_eq!(atlas.image.get_pixel(1, 1), colors[0]);
    assert_eq!(atlas.image.get_pixel(4, 1), colors[1]);
    assert_eq!(atlas.image.get_pixel(1, 4), colors[2]);
}

#[test]
fn atlas_tolerance_merges_near_tiles() {
    let t = 2u32;
    // Tiles differ by one in one channel of each of their four pixels: a
    // total difference of four.
    let img = solid_grid(t, 2, 1, |_, c| if c == 0 { [100, 100, 100, 255] } else { [101, 100, 100, 255] });
    let g = detection(t, 2, 1);
    assert_eq!(build_atlas(&img, &g, Some(0), 0).unique_count, 2);
    assert_eq!(build_atlas(&img, &g, Some(3), 0).unique_count, 2);
    assert_eq!(build_atlas(&img, &g, Some(4), 0).unique_count, 1);
    // Without a limit nothing merges, not even identical tiles.
    let same = solid_grid(t, 2, 1, |_, _| [7, 7, 7, 255]);
    assert_eq!(build_atlas(&same, &g, None, 0).unique_count, 2);
    assert_eq!(build_atlas(&same, &g, Some(0), 0).unique_count, 1);
}

#[test]
fn atlas_skips_cells_outside_the_image() {
    let t = 4u32;
    let img = solid_grid(t, 2, 2, |_, _| [1, 2, 3, 255]);
    // Three columns are declared, but only two fit.
    let atlas = build_atlas(&img, &detection(t, 3, 2), Some(0), 0);
    assert_eq!(atlas.total_cells, 4);
    assert_eq!(atlas.unique_count, 1);
    assert_eq!(atlas.atlas_cols, 1);
    assert_eq!(atlas.atlas_rows, 1);
}

#[test]
fn atlas_with_no_cells_is_one_empty_slot() {
    let img = RgbaBuffer::new(3, 3);
    let atlas = build_atlas(&img, &detection(4, 2, 2), Some(0), 0);
    assert_eq!(atlas.total_cells, 0);
    assert_eq!(atlas.unique_count, 0);
    assert_eq!(atlas.atlas_cols, 1);
    assert_eq!(atlas.atlas_rows, 1);
    assert_eq!(atlas.image.get_pixel(1, 1), [28, 28, 32, 255]);
}

#[test]
fn try_build_atlas_matches_build_atlas() {
    let t = 4u32;
    let img = solid_grid(t, 2, 2, |r, c| if (r + c) % 2 == 0 { [9, 9, 9, 255] } else { [0, 0, 0, 255] });
    let g = detection(t, 2, 2);
    let a = try_build_atlas(&img, &g, Some(0), 0).expect("small atlas fits");
    let b = build_atlas(&img, &g, Some(0), 0);
    assert_eq!(a.unique_count, b.unique_count);
    assert_eq!(a.image.data, b.image.data);
}

#[test]
fn decompose_layers_geometry_and_assignments() {
    let t = 2u32;
    let img = solid_grid(t, 3, 2, |r, _| if r == 0 { [255, 0, 0, 255] } else { [0, 0, 255, 255] });
    let decomp = decompose_layers(&img, &detection(t, 3, 2), LayerBaseMode::Mode, detail_limit(15), 0, 2);
    assert_eq!(decomp.total_cells, 6);
    assert_eq!(decomp.columns, 3);
    assert_eq!(decomp.rows, 2);
    assert_eq!(decomp.tile_width, 2);
    assert_eq!(decomp.tile_height, 2);
    assert_eq!(decomp.detail_atlas.width, 3 * (t + 1) + 1);
    assert_eq!(decomp.detail_atlas.height, 2 * (t + 1) + 1);
    assert_eq!(decomp.base_assignments.len(), 6);
    // Cells of one row share a cluster; the two rows do not.
    let a = &decomp.base_assignments;
    assert_eq!(a[0], a[1]);
    assert_eq!(a[1], a[2]);
    assert_eq!(a[3], a[4]);
    assert_eq!(a[4], a[5]);
    assert_ne!(a[0], a[3]);
    // Gutters of the detail atlas are background.
    assert_eq!(decomp.detail_atlas.get_pixel(0, 0), [28, 28, 32, 255]);
}

#[test]
fn decompose_layers_detail_threshold_is_strict() {
    let t = 2u32;
    let base = [100u8, 100, 100, 255];
    let mut img = solid_grid(t, 3, 1, |_, _| base);
    // A pixel that differs by exactly 60 in total, and one by 61.
    img.put_pixel(t, 0, [130, 130, 100, 255]);
    img.put_pixel(2 * t, 0, [131, 130, 100, 255]);
    let decomp = decompose_layers(&img, &detection(t, 3, 1), LayerBaseMode::Mode, detail_limit(15), 0, 1);
    assert_eq!(decomp.detail_atlas.get_pixel(1 + (t + 1), 1)[3], 0);
    assert_eq!(decomp.detail_atlas.get_pixel(1 + 2 * (t + 1), 1), [131, 130, 100, 255]);
}

#[test]
fn identical_cells_give_their_tile_as_base() {
    let t = 3u32;
    let color = [12u8, 34, 56, 78];
    let img = solid_grid(t, 3, 2, |_, _| color);
    for mode in [LayerBaseMode::Mode, LayerBaseMode::Median] {
        let decomp = decompose_layers(&img, &detection(t, 3, 2), mode, detail_limit(0), 0, 1);
        assert_eq!(decomp.bases.len(), 1);
        for y in 0..t {
            for x in 0..t {
                assert_eq!(decomp.bases[0].get_pixel(x, y), color);
            }
        }
    }
}

#[test]
fn negative_detail_limit_keeps_every_pixel() {
    let t = 2u32;
    let color = [5u8, 6, 7, 8];
    let img = solid_grid(t, 2, 1, |_, _| color);
    let decomp = decompose_layers(&img, &detection(t, 2, 1), LayerBaseMode::Mode, -1, 0, 1);
    assert_eq!(decomp.detail_atlas.get_pixel(1, 1), color);
    assert_eq!(decomp.detail_atlas.get_pixel(1 + (t + 1), 1), color);
}

#[test]
fn base_tile_reads_top_left_of_larger_tiles() {
    let mut a = RgbaBuffer::from_pixel(3, 3, [9, 9, 9, 9]);
    a.put_pixel(0, 0, [1, 2, 3, 4]);
    let mut b = RgbaBuffer::from_pixel(4, 2, [7, 7, 7, 7]);
    b.put_pixel(0, 0, [1, 2, 3, 4]);
    let c = RgbaBuffer::from_pixel(2, 2, [5, 5, 5, 5]);
    let tiles = vec![a, b, c];
    let base = compute_base_tile(&tiles, &vec![0, 1, 2], 2, 2, &LayerBaseMode::Mode);
    assert_eq!((base.width, base.height), (2, 2));
    assert_eq!(base.get_pixel(0, 0), [1, 2, 3, 4]);
    // A three-way tie goes to the smallest little-endian value.
    assert_eq!(base.get_pixel(1, 1), [5, 5, 5, 5]);
    let median = compute_base_tile(&tiles, &vec![0, 1, 2], 2, 2, &LayerBaseMode::Median);
    assert_eq!(median.get_pixel(1, 0), [7, 7, 7, 7]);
    let mean = compute_mean_tile(&tiles, &vec![0, 1, 2], 2, 2);
    assert_eq!(mean.get_pixel(1, 1), [7, 7, 7, 7]);
    assert_eq!(mean.get_pixel(0, 0), [2, 3, 3, 4]);
    let none = compute_base_tile(&tiles, &vec![], 2, 2, &LayerBaseMode::Mode);
    assert_eq!(none.get_pixel(1, 1), [0, 0, 0, 0]);
}
