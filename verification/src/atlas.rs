//! Recovery of the tileset behind a tiled image: every grid cell is cut
//! out, near-identical cells are merged, and the distinct tiles are packed
//! into one atlas image.
use vstd::prelude::*;
use vstd::arithmetic::div_mod::lemma_fundamental_div_mod_converse;
use crate::raster::{RgbaBuffer, pixel_offset, lemma_pixel_offset_bounds};
use crate::tiles::{GridGeometry, at_least_one, grid_cells, cell_bytes, is_cell_tile, grid_arith_fits, extract_all_tiles};
use crate::quantize::{quantize_image, working_bytes};
use crate::stats::{abs_diff_total, sum_abs_diff_wide, lemma_abs_diff_self};
use crate::layout::{
    background, slot_start, slot_of, slot_pos, inside_slot, packed_extent, lemma_slot_decode,
    lemma_slot_range, lemma_slot_within,
};

verus! {

/// The packed tileset recovered from a tiled image.
pub struct TileAtlas {
    /// The distinct tiles, packed row by row with one-pixel gutters.
    pub image: RgbaBuffer,
    /// Number of distinct tiles.
    pub unique_count: usize,
    /// Number of grid cells that lay inside the image.
    pub total_cells: usize,
    pub atlas_cols: u32,
    pub atlas_rows: u32,
    pub tile_width: u32,
    pub tile_height: u32,
}

/// Two tiles count as the same when the sum of their absolute byte
/// differences is at most `limit`; with no limit no two tiles are the same.
pub open spec fn same_tile(a: Seq<u8>, b: Seq<u8>, limit: Option<u64>) -> bool {
    match limit {
        Some(l) => abs_diff_total(a, b) <= l,
        None => false,
    }
}

/// Some tile of `kept` is the same as `t`.
pub open spec fn known_tile(kept: Seq<Seq<u8>>, t: Seq<u8>, limit: Option<u64>) -> bool {
    exists|i: int| 0 <= i < kept.len() && same_tile(#[trigger] kept[i], t, limit)
}

/// The tiles of `tiles` that are not the same as an earlier kept tile, in
/// the order given: each tile is kept unless one already kept matches it.
pub open spec fn greedy_unique(tiles: Seq<Seq<u8>>, limit: Option<u64>) -> Seq<Seq<u8>>
    decreases tiles.len(),
{
    if tiles.len() == 0 {
        Seq::empty()
    } else {
        let prev = greedy_unique(tiles.drop_last(), limit);
        if known_tile(prev, tiles.last(), limit) {
            prev
        } else {
            prev.push(tiles.last())
        }
    }
}

/// The bytes of every in-bounds grid cell of a `width x height` image whose
/// bytes are `data`, in row-major order.
pub open spec fn cell_seqs(width: int, height: int, data: Seq<u8>, g: GridGeometry) -> Seq<Seq<u8>> {
    grid_cells(g, width, height).map_values(|rc: (u32, u32)| cell_bytes(width, data, g, rc))
}

/// The deduplicated tiles are no more than the tiles, no two of them are
/// the same, each is one of the tiles, and every tile is one of them or the
/// same as one of them.
pub proof fn lemma_greedy_unique(tiles: Seq<Seq<u8>>, limit: Option<u64>)
    ensures
        greedy_unique(tiles, limit).len() <= tiles.len(),
        forall|i: int, j: int| 0 <= i < j < greedy_unique(tiles, limit).len() ==>
            !same_tile(#[trigger] greedy_unique(tiles, limit)[i], #[trigger] greedy_unique(tiles, limit)[j], limit),
        forall|i: int| 0 <= i < greedy_unique(tiles, limit).len() ==>
            exists|k: int| 0 <= k < tiles.len() && #[trigger] greedy_unique(tiles, limit)[i] == tiles[k],
        forall|k: int| 0 <= k < tiles.len() ==> exists|i: int| 0 <= i < greedy_unique(tiles, limit).len()
            && (greedy_unique(tiles, limit)[i] == #[trigger] tiles[k] || same_tile(greedy_unique(tiles, limit)[i], tiles[k], limit)),
    decreases tiles.len(),
{
    if tiles.len() > 0 {
        let prefix = tiles.drop_last();
        lemma_greedy_unique(prefix, limit);
        let prev = greedy_unique(prefix, limit);
        let u = greedy_unique(tiles, limit);
        let t = tiles.last();
        assert forall|i: int| 0 <= i < u.len() implies exists|k: int| 0 <= k < tiles.len() && #[trigger] u[i] == tiles[k] by {
            if i < prev.len() {
                let k = choose|k: int| 0 <= k < prefix.len() && prev[i] == prefix[k];
                assert(u[i] == tiles[k]);
            } else {
                assert(u[i] == tiles[tiles.len() - 1]);
            }
        }
        assert forall|k: int| 0 <= k < tiles.len() implies exists|i: int| 0 <= i < u.len()
            && (u[i] == #[trigger] tiles[k] || same_tile(u[i], tiles[k], limit)) by {
            if k < prefix.len() {
                assert(tiles[k] == prefix[k]);
                let i = choose|i: int| 0 <= i < prev.len() && (prev[i] == prefix[k] || same_tile(prev[i], prefix[k], limit));
                assert(u[i] == prev[i]);
            } else if known_tile(prev, t, limit) {
                let i = choose|i: int| 0 <= i < prev.len() && same_tile(#[trigger] prev[i], t, limit);
                assert(u[i] == prev[i]);
            } else {
                assert(u[prev.len() as int] == tiles[k]);
            }
        }
        assert forall|i: int, j: int| 0 <= i < j < u.len() implies
            !same_tile(#[trigger] u[i], #[trigger] u[j], limit) by {
            if j >= prev.len() {
                assert(!known_tile(prev, t, limit));
                assert(u[i] == prev[i]);
                assert(u[j] == t);
                if same_tile(prev[i], t, limit) {
                    assert(known_tile(prev, t, limit));
                }
            } else {
                assert(u[i] == prev[i] && u[j] == prev[j]);
            }
        }
    }
}

/// With a limit of zero the matching is exact: the tiles kept are pairwise
/// different, and every tile is equal to one of them.
pub proof fn lemma_exact_dedup(tiles: Seq<Seq<u8>>)
    requires
        forall|k: int, l: int| 0 <= k < tiles.len() && 0 <= l < tiles.len() ==> #[trigger] tiles[k].len() == #[trigger] tiles[l].len(),
    ensures
        forall|i: int, j: int| 0 <= i < j < greedy_unique(tiles, Some(0u64)).len() ==>
            #[trigger] greedy_unique(tiles, Some(0u64))[i] != #[trigger] greedy_unique(tiles, Some(0u64))[j],
        forall|k: int| 0 <= k < tiles.len() ==> exists|i: int| 0 <= i < greedy_unique(tiles, Some(0u64)).len()
            && greedy_unique(tiles, Some(0u64))[i] == #[trigger] tiles[k],
{
    let u = greedy_unique(tiles, Some(0u64));
    lemma_greedy_unique(tiles, Some(0u64));
    assert forall|i: int, j: int| 0 <= i < j < u.len() implies #[trigger] u[i] != #[trigger] u[j] by {
        lemma_abs_diff_self(u[i], u[i].len() as int);
        assert(!same_tile(u[i], u[j], Some(0u64)));
    }
    assert forall|k: int| 0 <= k < tiles.len() implies exists|i: int| 0 <= i < u.len() && u[i] == #[trigger] tiles[k] by {
        let i = choose|i: int| 0 <= i < u.len() && (u[i] == tiles[k] || same_tile(u[i], tiles[k], Some(0u64)));
        let k2 = choose|k2: int| 0 <= k2 < tiles.len() && #[trigger] u[i] == tiles[k2];
        assert(u[i].len() == tiles[k].len());
        if same_tile(u[i], tiles[k], Some(0u64)) {
            crate::stats::lemma_abs_diff_upto_bounds(u[i], tiles[k], u[i].len() as int);
            crate::stats::lemma_abs_diff_zero_iff_equal(u[i], tiles[k]);
        }
        assert(u[i] == tiles[k]);
    }
}

/// `c` is the smallest positive number of atlas columns whose square holds
/// `n` tiles (the rounded-up square root of `n`, at least one).
pub open spec fn is_atlas_columns(n: int, c: int) -> bool {
    &&& c >= 1
    &&& c * c >= n
    &&& (c == 1 || (c - 1) * (c - 1) < n)
}

/// Rows needed for `n` tiles in `c` columns (`n / c` rounded up), at least one.
pub open spec fn atlas_row_count(n: int, c: int) -> int {
    if n <= 0 { 1 } else { (n - 1) / c + 1 }
}

/// An atlas of `n` tiles of `tw x th` pixels in `c` columns fits in `u32`
/// dimensions and in memory.
pub open spec fn layout_fits(n: int, c: int, tw: int, th: int) -> bool {
    let r = atlas_row_count(n, c);
    &&& packed_extent(c, tw) <= u32::MAX
    &&& packed_extent(r, th) <= u32::MAX
    &&& packed_extent(c, tw) * packed_extent(r, th) * 4 <= usize::MAX
}

/// The atlas for `n` tiles of `tw x th` pixels fits.
pub open spec fn atlas_fits(n: int, tw: int, th: int) -> bool {
    forall|c: int| #[trigger] is_atlas_columns(n, c) ==> layout_fits(n, c, tw, th)
}

/// Byte `ch` of atlas pixel `(x, y)` when the first `count` tiles of `kept`
/// are packed row by row into `cols` columns of slots.
pub open spec fn atlas_byte(kept: Seq<Seq<u8>>, count: int, cols: int, tw: int, th: int, x: int, y: int, ch: int) -> u8 {
    let i = slot_of(y, th) * cols + slot_of(x, tw);
    if inside_slot(x, tw) && inside_slot(y, th) && slot_of(x, tw) < cols && i < count {
        kept[i][pixel_offset(tw, slot_pos(x, tw), slot_pos(y, th)) + ch]
    } else {
        background()[ch]
    }
}

/// Rounded-up square root of `n`, at least one.
fn atlas_columns(n: usize) -> (c: u64)
    ensures
        is_atlas_columns(n as int, c as int),
        c <= n + 1,
{
    let mut c: u64 = 0;
    loop
        invariant
            c <= n,
            c == 0 || (c - 1) * (c - 1) < n,
        ensures
            c <= n,
            c == 0 || (c - 1) * (c - 1) < n,
            c * c >= n,
        decreases n - c,
    {
        assert((c as u128) * (c as u128) <= (u64::MAX as u128) * (u64::MAX as u128)) by (nonlinear_arith)
            requires c <= u64::MAX;
        if (c as u128) * (c as u128) >= n as u128 {
            break;
        }
        assert(c * c >= c) by (nonlinear_arith) requires c >= 0;
        c = c + 1;
    }
    if c == 0 {
        c = 1;
    }
    c
}

/// The distinct cells of the grid over `work`, in row-major order: a cell
/// is kept unless its sum of absolute byte differences to a tile kept
/// before is at most `tolerance_limit` (every cell is kept when it is
/// `None`). Also returns the number of in-bounds cells.
fn dedup_cells(work: &RgbaBuffer, g: &GridGeometry, tolerance_limit: Option<u64>) -> (r: (Vec<RgbaBuffer>, usize))
    requires
        work.wf(),
        grid_arith_fits(*g, work.width as int),
    ensures
        r.1 == grid_cells(*g, work.width as int, work.height as int).len(),
        r.0@.len() == greedy_unique(cell_seqs(work.width as int, work.height as int, work.data@, *g), tolerance_limit).len(),
        forall|i: int| 0 <= i < r.0@.len() ==> {
            &&& (#[trigger] r.0@[i]).wf()
            &&& r.0@[i].width == at_least_one(g.tile_width)
            &&& r.0@[i].height == at_least_one(g.tile_height)
            &&& r.0@[i].data@ == greedy_unique(cell_seqs(work.width as int, work.height as int, work.data@, *g), tolerance_limit)[i]
        },
{
    let tw: u32 = if g.tile_width == 0 { 1 } else { g.tile_width };
    let th: u32 = if g.tile_height == 0 { 1 } else { g.tile_height };
    let cells = extract_all_tiles(work, g);
    let ghost all = cell_seqs(work.width as int, work.height as int, work.data@, *g);
    let ghost limit = tolerance_limit;
    let n_cells = cells.len();
    assert(all.len() == n_cells);

    let mut tiles: Vec<RgbaBuffer> = Vec::new();
    let mut j: usize = 0;
    while j < n_cells
        invariant
            n_cells == cells@.len(),
            n_cells == all.len(),
            all == cell_seqs(work.width as int, work.height as int, work.data@, *g),
            limit == tolerance_limit,
            tw == at_least_one(g.tile_width),
            th == at_least_one(g.tile_height),
            j <= n_cells,
            forall|k: int| 0 <= k < cells@.len() ==> {
                let rc = #[trigger] grid_cells(*g, work.width as int, work.height as int)[k];
                is_cell_tile(*work, *g, rc, cells@[k].2)
            },
            tiles@.len() == greedy_unique(all.take(j as int), limit).len(),
            forall|i: int| 0 <= i < tiles@.len() ==> {
                &&& (#[trigger] tiles@[i]).wf()
                &&& tiles@[i].width == tw
                &&& tiles@[i].height == th
                &&& tiles@[i].data@ == greedy_unique(all.take(j as int), limit)[i]
            },
        decreases n_cells - j,
    {
        let ghost rc = grid_cells(*g, work.width as int, work.height as int)[j as int];
        assert(is_cell_tile(*work, *g, rc, cells@[j as int].2));
        let tile = &cells[j].2;
        assert(tile.data@ == all[j as int]);
        let ghost prev = greedy_unique(all.take(j as int), limit);
        let mut found = false;
        match tolerance_limit {
            None => {},
            Some(l) => {
                let mut i: usize = 0;
                while i < tiles.len() && !found
                    invariant
                        i <= tiles@.len(),
                        tiles@.len() == prev.len(),
                        limit == Some(l),
                        tile.wf(),
                        tile.width == tw,
                        tile.height == th,
                        forall|q: int| 0 <= q < tiles@.len() ==> {
                            &&& (#[trigger] tiles@[q]).wf()
                            &&& tiles@[q].width == tw
                            &&& tiles@[q].height == th
                            &&& tiles@[q].data@ == prev[q]
                        },
                        found ==> known_tile(prev, tile.data@, limit),
                        !found ==> forall|q: int| 0 <= q < i ==> !same_tile(#[trigger] prev[q], tile.data@, limit),
                    decreases tiles@.len() - i + (if found { 0int } else { 1int }),
                {
                    let d = sum_abs_diff_wide(tiles[i].data.as_slice(), tile.data.as_slice());
                    if d <= l as u128 {
                        found = true;
                        assert(same_tile(prev[i as int], tile.data@, limit));
                    } else {
                        i = i + 1;
                    }
                }
            },
        }
        assert(all.take(j + 1).drop_last() =~= all.take(j as int));
        assert(all.take(j + 1).last() == tile.data@);
        if !found {
            assert(!known_tile(prev, tile.data@, limit));
            let copy = tile.clone_buffer();
            tiles.push(copy);
        } else {
            assert(known_tile(prev, tile.data@, limit));
        }
        j = j + 1;
    }
    assert(all.take(n_cells as int) =~= all);
    (tiles, n_cells)
}

/// Only one number of columns is the rounded-up square root of `n`.
proof fn lemma_atlas_columns_unique(n: int, c1: int, c2: int)
    requires
        is_atlas_columns(n, c1),
        is_atlas_columns(n, c2),
    ensures
        c1 == c2,
{
    if c1 < c2 {
        assert(c1 * c1 <= (c2 - 1) * (c2 - 1)) by (nonlinear_arith) requires 1 <= c1 <= c2 - 1;
    }
    if c2 < c1 {
        assert(c2 * c2 <= (c1 - 1) * (c1 - 1)) by (nonlinear_arith) requires 1 <= c2 <= c1 - 1;
    }
}

/// Whether the atlas for `n` tiles of `tw x th` pixels fits.
fn check_atlas_fits(n: usize, tw: u32, th: u32) -> (ok: bool)
    ensures
        ok == atlas_fits(n as int, tw as int, th as int),
{
    let c = atlas_columns(n);
    let r: u64 = if n == 0 { 1 } else { (n as u64 - 1) / c + 1 };
    proof {
        assert(r <= n + 1) by {
            if n > 0 {
                vstd::arithmetic::div_mod::lemma_div_is_ordered_by_denominator((n - 1) as int, 1, c as int);
            }
        }
        assert((c as int) * (tw as int + 1) <= (u64::MAX as int) * (u32::MAX as int + 1)) by (nonlinear_arith)
            requires c <= u64::MAX, tw <= u32::MAX;
        assert((r as int) * (th as int + 1) <= (u64::MAX as int) * (u32::MAX as int + 1)) by (nonlinear_arith)
            requires r <= u64::MAX, th <= u32::MAX;
    }
    let aw: u128 = (c as u128) * (tw as u128 + 1) + 1;
    let ah: u128 = (r as u128) * (th as u128 + 1) + 1;
    let ok = if aw <= u32::MAX as u128 && ah <= u32::MAX as u128 {
        assert(aw * ah * 4 <= (u32::MAX as int) * (u32::MAX as int) * 4) by (nonlinear_arith)
            requires aw <= u32::MAX, ah <= u32::MAX;
        aw * ah * 4 <= usize::MAX as u128
    } else {
        false
    };
    proof {
        assert(layout_fits(n as int, c as int, tw as int, th as int) == ok);
        if ok {
            assert forall|c2: int| #[trigger] is_atlas_columns(n as int, c2) implies layout_fits(n as int, c2, tw as int, th as int) by {
                lemma_atlas_columns_unique(n as int, c as int, c2);
            }
        } else {
            assert(is_atlas_columns(n as int, c as int));
        }
    }
    ok
}

/// Every grid cell of `img` inside the image, with cells whose sum of
/// absolute byte differences to an earlier kept tile is at most
/// `tolerance_limit` merged into it (no merging at all when it is `None`),
/// packed into an atlas image, or `None` where that atlas would not fit in
/// `u32` dimensions and in memory. When `n_colors` is not zero the image is
/// first reduced to a palette of that many colours.
pub fn try_build_atlas(img: &RgbaBuffer, g: &GridGeometry, tolerance_limit: Option<u64>, n_colors: u32) -> (r: Option<TileAtlas>)
    requires
        img.wf(),
        grid_arith_fits(*g, img.width as int),
    ensures
        ({
            let kept = greedy_unique(cell_seqs(img.width as int, img.height as int, working_bytes(*img, n_colors), *g), tolerance_limit);
            &&& r is None <==> !atlas_fits(kept.len() as int, at_least_one(g.tile_width) as int, at_least_one(g.tile_height) as int)
            &&& r is Some ==> is_tile_atlas(r->0, *img, *g, tolerance_limit, n_colors)
        }),
{
    let tw: u32 = if g.tile_width == 0 { 1 } else { g.tile_width };
    let th: u32 = if g.tile_height == 0 { 1 } else { g.tile_height };
    let work = quantize_image(img, n_colors);
    let (tiles, _) = dedup_cells(&work, g, tolerance_limit);
    if !check_atlas_fits(tiles.len(), tw, th) {
        return None;
    }
    Some(build_atlas(img, g, tolerance_limit, n_colors))
}

/// `atlas` is the atlas of the distinct cells of the grid `g` over `img`
/// (see `build_atlas`).
pub open spec fn is_tile_atlas(atlas: TileAtlas, img: RgbaBuffer, g: GridGeometry, tolerance_limit: Option<u64>, n_colors: u32) -> bool {
    let kept = greedy_unique(cell_seqs(img.width as int, img.height as int, working_bytes(img, n_colors), g), tolerance_limit);
    &&& atlas.total_cells == grid_cells(g, img.width as int, img.height as int).len()
    &&& atlas.unique_count == kept.len()
    &&& atlas.tile_width == at_least_one(g.tile_width)
    &&& atlas.tile_height == at_least_one(g.tile_height)
    &&& is_atlas_columns(atlas.unique_count as int, atlas.atlas_cols as int)
    &&& atlas.atlas_rows == atlas_row_count(atlas.unique_count as int, atlas.atlas_cols as int)
    &&& atlas.image.wf()
    &&& atlas.image.width == packed_extent(atlas.atlas_cols as int, atlas.tile_width as int)
    &&& atlas.image.height == packed_extent(atlas.atlas_rows as int, atlas.tile_height as int)
    &&& forall|x: int, y: int, ch: int|
        0 <= x < atlas.image.width && 0 <= y < atlas.image.height && 0 <= ch < 4 ==>
        #[trigger] atlas.image.byte_at(x, y, ch) == atlas_byte(
            kept,
            atlas.unique_count as int,
            atlas.atlas_cols as int,
            atlas.tile_width as int,
            atlas.tile_height as int,
            x,
            y,
            ch,
        )
}

/// Every grid cell of `img` inside the image, with cells whose sum of
/// absolute byte differences to an earlier kept tile is at most
/// `tolerance_limit` merged into it (no merging at all when it is `None`),
/// packed into an atlas image. When `n_colors` is not zero the image is
/// first reduced to a palette of that many colours.
pub fn build_atlas(img: &RgbaBuffer, g: &GridGeometry, tolerance_limit: Option<u64>, n_colors: u32) -> (atlas: TileAtlas)
    requires
        img.wf(),
        grid_arith_fits(*g, img.width as int),
        atlas_fits(
            greedy_unique(cell_seqs(img.width as int, img.height as int, working_bytes(*img, n_colors), *g), tolerance_limit).len() as int,
            at_least_one(g.tile_width) as int,
            at_least_one(g.tile_height) as int,
        ),
    ensures
        is_tile_atlas(atlas, *img, *g, tolerance_limit, n_colors),
{
    let tw: u32 = if g.tile_width == 0 { 1 } else { g.tile_width };
    let th: u32 = if g.tile_height == 0 { 1 } else { g.tile_height };
    let work = quantize_image(img, n_colors);
    let (tiles, n_cells) = dedup_cells(&work, g, tolerance_limit);
    let ghost kept = greedy_unique(cell_seqs(img.width as int, img.height as int, working_bytes(*img, n_colors), *g), tolerance_limit);

    // Pack the distinct tiles.
    let n = tiles.len();
    let cols64 = atlas_columns(n);
    assert(is_atlas_columns(n as int, cols64 as int));
    assert(layout_fits(n as int, cols64 as int, tw as int, th as int));
    let rows64: u64 = if n == 0 { 1 } else { (n as u64 - 1) / cols64 + 1 };
    proof {
        assert(cols64 <= cols64 * (tw + 1)) by (nonlinear_arith) requires cols64 >= 1, tw >= 1;
        assert(rows64 <= rows64 * (th + 1)) by (nonlinear_arith) requires rows64 >= 1, th >= 1;
        assert(tw + 1 <= cols64 * (tw + 1)) by (nonlinear_arith) requires cols64 >= 1, tw >= 1;
        assert(th + 1 <= rows64 * (th + 1)) by (nonlinear_arith) requires rows64 >= 1, th >= 1;
    }
    let cols: u32 = cols64 as u32;
    let rows: u32 = rows64 as u32;
    let aw: u32 = cols * (tw + 1) + 1;
    let ah: u32 = rows * (th + 1) + 1;
    let mut image = RgbaBuffer::from_pixel(aw, ah, [28u8, 28u8, 32u8, 255u8]);
    assert(seq![28u8, 28u8, 32u8, 255u8] == background());
    proof {
        assert forall|x: int, y: int, ch: int| 0 <= x < aw && 0 <= y < ah && 0 <= ch < 4 implies
            #[trigger] image.byte_at(x, y, ch) == atlas_byte(kept, 0, cols as int, tw as int, th as int, x, y, ch) by {
            lemma_pixel_offset_bounds(aw as int, ah as int, x, y);
            assert(image.pixel(x, y) == background());
        }
    }
    let mut i: usize = 0;
    while i < n
        invariant
            n == tiles@.len(),
            n == kept.len(),
            is_atlas_columns(n as int, cols as int),
            rows as int == atlas_row_count(n as int, cols as int),
            aw as int == packed_extent(cols as int, tw as int),
            ah as int == packed_extent(rows as int, th as int),
            tw >= 1,
            th >= 1,
            i <= n,
            image.wf(),
            image.width == aw,
            image.height == ah,
            forall|q: int| 0 <= q < tiles@.len() ==> {
                &&& (#[trigger] tiles@[q]).wf()
                &&& tiles@[q].width == tw
                &&& tiles@[q].height == th
                &&& tiles@[q].data@ == kept[q]
            },
            forall|x: int, y: int, ch: int| 0 <= x < aw && 0 <= y < ah && 0 <= ch < 4 ==>
                #[trigger] image.byte_at(x, y, ch) == atlas_byte(kept, i as int, cols as int, tw as int, th as int, x, y, ch),
        decreases n - i,
    {
        proof {
            lemma_row_in_range(i as int, n as int, cols as int);
            vstd::arithmetic::div_mod::lemma_fundamental_div_mod(i as int, cols as int);
            vstd::arithmetic::div_mod::lemma_mod_pos_bound(i as int, cols as int);
        }
        let col: u32 = (i as u64 % cols as u64) as u32;
        let row: u32 = (i as u64 / cols as u64) as u32;
        assert(i as int == row as int * cols as int + col as int) by (nonlinear_arith)
            requires i as int == cols as int * (i as int / cols as int) + i as int % cols as int,
                row as int == i as int / cols as int, col as int == i as int % cols as int;
        proof {
            lemma_slot_within(col as int, cols as int, tw as int);
            lemma_slot_within(row as int, rows as int, th as int);
        }
        let x0: u32 = 1 + col * (tw + 1);
        let y0: u32 = 1 + row * (th + 1);
        let ghost before = image;
        image.blit(x0, y0, &tiles[i]);
        proof {
            assert forall|x: int, y: int, ch: int| 0 <= x < aw && 0 <= y < ah && 0 <= ch < 4 implies
                #[trigger] image.byte_at(x, y, ch) == atlas_byte(kept, i + 1, cols as int, tw as int, th as int, x, y, ch) by {
                lemma_slot_range(x, col as int, tw as int);
                lemma_slot_range(y, row as int, th as int);
                let in_rect = x0 <= x < x0 + tw && y0 <= y < y0 + th;
                if in_rect {
                    lemma_slot_decode(col as int, tw as int, x - x0);
                    lemma_slot_decode(row as int, th as int, y - y0);
                    assert(slot_of(y, th as int) * cols + slot_of(x, tw as int) == i);
                } else {
                    let idx = slot_of(y, th as int) * cols + slot_of(x, tw as int);
                    if inside_slot(x, tw as int) && inside_slot(y, th as int) && slot_of(x, tw as int) < cols && idx == i {
                        crate::layout::lemma_slot_encode(x, tw as int);
                        crate::layout::lemma_slot_encode(y, th as int);
                        lemma_fundamental_div_mod_converse(i as int, cols as int, slot_of(y, th as int), slot_of(x, tw as int));
                        assert(false);
                    }
                }
            }
        }
        i = i + 1;
    }
    TileAtlas {
        image,
        unique_count: n,
        total_cells: n_cells,
        atlas_cols: cols,
        atlas_rows: rows,
        tile_width: tw,
        tile_height: th,
    }
}

/// Tile `i` of `n` tiles packed into `cols` columns lies in one of the rows.
proof fn lemma_row_in_range(i: int, n: int, cols: int)
    requires
        0 <= i < n,
        cols >= 1,
    ensures
        0 <= i / cols < atlas_row_count(n, cols),
        atlas_row_count(n, cols) * cols >= n,
{
    vstd::arithmetic::div_mod::lemma_div_pos_is_pos(i, cols);
    vstd::arithmetic::div_mod::lemma_div_is_ordered(i, n - 1, cols);
    vstd::arithmetic::div_mod::lemma_fundamental_div_mod(n - 1, cols);
    vstd::arithmetic::div_mod::lemma_mod_pos_bound(n - 1, cols);
    let q = (n - 1) / cols;
    assert((q + 1) * cols >= n) by (nonlinear_arith)
        requires n - 1 == cols * q + (n - 1) % cols, (n - 1) % cols < cols;
}

} // verus!
