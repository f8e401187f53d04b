//! Grid geometry and the cutting of an image into the cells of a grid.
use vstd::prelude::*;
use vstd::arithmetic::div_mod::lemma_fundamental_div_mod_converse;
use crate::raster::{RgbaBuffer, pixel_offset, lemma_pixel_offset_bounds};

verus! {

/// The integer description of a detected tile grid: where the first tile
/// starts, how far apart tiles are, how large each tile is, and how many
/// columns and rows of cells the grid has.
#[derive(Debug, Clone, Copy, PartialEq, Eq, Structural)]
pub struct GridGeometry {
    pub tile_width: u32,
    pub tile_height: u32,
    pub stride_x: u32,
    pub stride_y: u32,
    pub offset_x: u32,
    pub offset_y: u32,
    pub margin_x: u32,
    pub margin_y: u32,
    pub columns: u32,
    pub rows: u32,
}

/// The size used for a cell: a zero tile dimension counts as one pixel.
pub open spec fn at_least_one(v: u32) -> u32 {
    if v == 0 { 1 } else { v }
}

/// Left edge of the cells in column `c`.
pub open spec fn cell_x(g: GridGeometry, c: int) -> int {
    g.offset_x + c * g.stride_x
}

/// Top edge of the cells in row `r`.
pub open spec fn cell_y(g: GridGeometry, r: int) -> int {
    g.offset_y + r * g.stride_y
}

/// Cell `(r, c)` lies wholly inside an image of the given size.
pub open spec fn cell_in_bounds(g: GridGeometry, img_w: int, img_h: int, r: int, c: int) -> bool {
    cell_x(g, c) + at_least_one(g.tile_width) <= img_w && cell_y(g, r) + at_least_one(g.tile_height) <= img_h
}

/// The in-bounds cells of row `r` among its first `n` columns, left to right.
pub open spec fn row_cells(g: GridGeometry, img_w: int, img_h: int, r: int, n: int) -> Seq<(u32, u32)>
    decreases n,
{
    if n <= 0 {
        Seq::empty()
    } else if cell_in_bounds(g, img_w, img_h, r, n - 1) {
        row_cells(g, img_w, img_h, r, n - 1).push((r as u32, (n - 1) as u32))
    } else {
        row_cells(g, img_w, img_h, r, n - 1)
    }
}

/// The in-bounds cells of the first `m` rows, in row-major order, as `(row, column)`.
pub open spec fn grid_cells_upto(g: GridGeometry, img_w: int, img_h: int, m: int) -> Seq<(u32, u32)>
    decreases m,
{
    if m <= 0 {
        Seq::empty()
    } else {
        grid_cells_upto(g, img_w, img_h, m - 1) + row_cells(g, img_w, img_h, m - 1, g.columns as int)
    }
}

/// Every in-bounds cell of the grid, in row-major order, as `(row, column)`.
pub open spec fn grid_cells(g: GridGeometry, img_w: int, img_h: int) -> Seq<(u32, u32)> {
    grid_cells_upto(g, img_w, img_h, g.rows as int)
}

/// The cells of a row belong to that row, lie inside the image, and are
/// listed left to right.
pub proof fn lemma_row_cells(g: GridGeometry, img_w: int, img_h: int, r: int, n: int)
    requires
        0 <= r <= u32::MAX,
        n <= u32::MAX + 1,
    ensures
        forall|k: int| 0 <= k < row_cells(g, img_w, img_h, r, n).len() ==> {
            let rc = #[trigger] row_cells(g, img_w, img_h, r, n)[k];
            &&& rc.0 == r
            &&& rc.1 < n
            &&& cell_in_bounds(g, img_w, img_h, rc.0 as int, rc.1 as int)
        },
        forall|a: int, b: int| 0 <= a < b < row_cells(g, img_w, img_h, r, n).len() ==>
            (#[trigger] row_cells(g, img_w, img_h, r, n)[a]).1 < (#[trigger] row_cells(g, img_w, img_h, r, n)[b]).1,
    decreases n,
{
    if n > 0 {
        lemma_row_cells(g, img_w, img_h, r, n - 1);
        let prev = row_cells(g, img_w, img_h, r, n - 1);
        let cur = row_cells(g, img_w, img_h, r, n);
        if cell_in_bounds(g, img_w, img_h, r, n - 1) {
            assert(cur == prev.push((r as u32, (n - 1) as u32)));
            assert forall|k: int| 0 <= k < cur.len() implies {
                let rc = #[trigger] cur[k];
                &&& rc.0 == r
                &&& rc.1 < n
                &&& cell_in_bounds(g, img_w, img_h, rc.0 as int, rc.1 as int)
            } by {
                if k < prev.len() {
                    assert(cur[k] == prev[k]);
                }
            }
            assert forall|a: int, b: int| 0 <= a < b < cur.len() implies (#[trigger] cur[a]).1 < (#[trigger] cur[b]).1 by {
                assert(cur[a] == prev[a]);
                if b < prev.len() {
                    assert(cur[b] == prev[b]);
                }
            }
        } else {
            assert(cur == prev);
        }
    }
}

/// The cells of the grid lie in its rows and columns and inside the image,
/// and are listed in strictly increasing row-major order (so no cell is
/// listed twice).
pub proof fn lemma_grid_cells(g: GridGeometry, img_w: int, img_h: int, m: int)
    requires
        0 <= m <= g.rows,
    ensures
        forall|k: int| 0 <= k < grid_cells_upto(g, img_w, img_h, m).len() ==> {
            let rc = #[trigger] grid_cells_upto(g, img_w, img_h, m)[k];
            &&& rc.0 < m
            &&& rc.1 < g.columns
            &&& cell_in_bounds(g, img_w, img_h, rc.0 as int, rc.1 as int)
        },
        forall|a: int, b: int| 0 <= a < b < grid_cells_upto(g, img_w, img_h, m).len() ==> {
            let ra = #[trigger] grid_cells_upto(g, img_w, img_h, m)[a];
            let rb = #[trigger] grid_cells_upto(g, img_w, img_h, m)[b];
            ra.0 < rb.0 || (ra.0 == rb.0 && ra.1 < rb.1)
        },
    decreases m,
{
    if m > 0 {
        lemma_grid_cells(g, img_w, img_h, m - 1);
        lemma_row_cells(g, img_w, img_h, m - 1, g.columns as int);
        let prev = grid_cells_upto(g, img_w, img_h, m - 1);
        let row = row_cells(g, img_w, img_h, m - 1, g.columns as int);
        let cur = grid_cells_upto(g, img_w, img_h, m);
        assert(cur == prev + row);
        assert forall|k: int| 0 <= k < cur.len() implies {
            let rc = #[trigger] cur[k];
            &&& rc.0 < m
            &&& rc.1 < g.columns
            &&& cell_in_bounds(g, img_w, img_h, rc.0 as int, rc.1 as int)
        } by {
            if k >= prev.len() {
                assert(cur[k] == row[k - prev.len()]);
            }
        }
        assert forall|a: int, b: int| 0 <= a < b < cur.len() implies {
            let ra = #[trigger] cur[a];
            let rb = #[trigger] cur[b];
            ra.0 < rb.0 || (ra.0 == rb.0 && ra.1 < rb.1)
        } by {
            if b >= prev.len() {
                assert(cur[b] == row[b - prev.len()]);
                if a >= prev.len() {
                    assert(cur[a] == row[a - prev.len()]);
                }
            }
        }
    }
}

/// Walking the grid computes every cell origin and, for cells that are not
/// already ruled out on the x axis, every cell end, without leaving `u32`.
pub open spec fn grid_arith_fits(g: GridGeometry, img_w: int) -> bool {
    g.rows == 0 || g.columns == 0 || {
        &&& cell_x(g, g.columns - 1) + at_least_one(g.tile_width) <= u32::MAX
        &&& cell_y(g, g.rows - 1) <= u32::MAX
        &&& (g.offset_x + at_least_one(g.tile_width) > img_w
            || cell_y(g, g.rows - 1) + at_least_one(g.tile_height) <= u32::MAX)
    }
}

/// The bytes of the `tw x th` rectangle of `img` whose top-left pixel is
/// `(x0, y0)`, as a row-major RGBA buffer of its own.
pub open spec fn crop_bytes(width: int, data: Seq<u8>, x0: int, y0: int, tw: int, th: int) -> Seq<u8> {
    Seq::new((tw * th * 4) as nat, |i: int| data[pixel_offset(width, x0 + (i / 4) % tw, y0 + (i / 4) / tw) + i % 4])
}

/// Byte `c` of pixel `(tx, ty)` of a cropped rectangle is byte `c` of pixel
/// `(x0 + tx, y0 + ty)` of the image it was cut from.
pub proof fn lemma_crop_pixel(img: RgbaBuffer, x0: int, y0: int, tw: int, th: int, tx: int, ty: int, c: int)
    requires
        0 <= tx < tw,
        0 <= ty < th,
        0 <= c < 4,
    ensures
        0 <= pixel_offset(tw, tx, ty) + c < tw * th * 4,
        crop_bytes(img.width as int, img.data@, x0, y0, tw, th)[pixel_offset(tw, tx, ty) + c] == img.byte_at(x0 + tx, y0 + ty, c),
{
    lemma_pixel_offset_bounds(tw, th, tx, ty);
    lemma_split_index(tw, tx, ty, c);
}

/// Decomposition of a byte index of a row-major RGBA buffer into pixel and channel.
pub proof fn lemma_split_index(tw: int, tx: int, ty: int, c: int)
    requires
        0 <= tx < tw,
        0 <= ty,
        0 <= c < 4,
    ensures
        (pixel_offset(tw, tx, ty) + c) / 4 == ty * tw + tx,
        (pixel_offset(tw, tx, ty) + c) % 4 == c,
        (ty * tw + tx) % tw == tx,
        (ty * tw + tx) / tw == ty,
{
    lemma_fundamental_div_mod_converse(pixel_offset(tw, tx, ty) + c, 4, ty * tw + tx, c);
    lemma_fundamental_div_mod_converse(ty * tw + tx, tw, ty, tx);
}

/// Copies the `tw x th` rectangle of `img` at `(x0, y0)` into a buffer of its own.
pub fn copy_tile(img: &RgbaBuffer, x0: u32, y0: u32, tw: u32, th: u32) -> (tile: RgbaBuffer)
    requires
        img.wf(),
        x0 + tw <= img.width,
        y0 + th <= img.height,
    ensures
        tile.wf(),
        tile.width == tw,
        tile.height == th,
        tile.data@ == crop_bytes(img.width as int, img.data@, x0 as int, y0 as int, tw as int, th as int),
{
    assert(tw as int * th as int * 4 <= img.width as int * img.height as int * 4) by (nonlinear_arith)
        requires tw <= img.width, th <= img.height;
    let _len: usize = img.data.len();
    let mut data: Vec<u8> = Vec::new();
    let mut ty: u32 = 0;
    while ty < th
        invariant
            img.wf(),
            x0 + tw <= img.width,
            y0 + th <= img.height,
            ty <= th,
            data@.len() == ty as int * tw as int * 4,
            forall|j: int| 0 <= j < data@.len() ==>
                #[trigger] data@[j] == crop_bytes(img.width as int, img.data@, x0 as int, y0 as int, tw as int, th as int)[j],
        decreases th - ty,
    {
        let mut tx: u32 = 0;
        while tx < tw
            invariant
                img.wf(),
                x0 + tw <= img.width,
                y0 + th <= img.height,
                ty < th,
                tx <= tw,
                data@.len() == pixel_offset(tw as int, tx as int, ty as int),
                forall|j: int| 0 <= j < data@.len() ==>
                    #[trigger] data@[j] == crop_bytes(img.width as int, img.data@, x0 as int, y0 as int, tw as int, th as int)[j],
            decreases tw - tx,
        {
            let px = img.get_pixel(x0 + tx, y0 + ty);
            proof {
                lemma_crop_pixel(*img, x0 as int, y0 as int, tw as int, th as int, tx as int, ty as int, 0);
                lemma_crop_pixel(*img, x0 as int, y0 as int, tw as int, th as int, tx as int, ty as int, 1);
                lemma_crop_pixel(*img, x0 as int, y0 as int, tw as int, th as int, tx as int, ty as int, 2);
                lemma_crop_pixel(*img, x0 as int, y0 as int, tw as int, th as int, tx as int, ty as int, 3);
            }
            let ghost before = data@;
            let ghost o = pixel_offset(tw as int, tx as int, ty as int);
            let ghost crop = crop_bytes(img.width as int, img.data@, x0 as int, y0 as int, tw as int, th as int);
            proof {
                lemma_pixel_offset_bounds(img.width as int, img.height as int, (x0 + tx) as int, (y0 + ty) as int);
            }
            assert(px@[0] == img.byte_at(x0 + tx, y0 + ty, 0));
            assert(px@[1] == img.byte_at(x0 + tx, y0 + ty, 1));
            assert(px@[2] == img.byte_at(x0 + tx, y0 + ty, 2));
            assert(px@[3] == img.byte_at(x0 + tx, y0 + ty, 3));
            data.push(px[0]);
            data.push(px[1]);
            data.push(px[2]);
            data.push(px[3]);
            assert(data@ =~= before + seq![crop[o], crop[o + 1], crop[o + 2], crop[o + 3]]);
            assert(pixel_offset(tw as int, (tx + 1) as int, ty as int) == o + 4) by (nonlinear_arith)
                requires o == pixel_offset(tw as int, tx as int, ty as int);
            tx = tx + 1;
        }
        assert(pixel_offset(tw as int, tw as int, ty as int) == (ty + 1) as int * tw as int * 4) by (nonlinear_arith);
        ty = ty + 1;
    }
    assert(th as int * tw as int * 4 == tw as int * th as int * 4) by (nonlinear_arith);
    assert(data@ =~= crop_bytes(img.width as int, img.data@, x0 as int, y0 as int, tw as int, th as int));
    RgbaBuffer { width: tw, height: th, data }
}

/// An affine expression in `u32` values never leaves `u64`.
pub proof fn lemma_u32_affine_fits(a: u32, b: u32, c: u32, d: u32)
    ensures
        0 <= b * c <= u32::MAX as int * u32::MAX as int,
        a + b * c + d <= u64::MAX,
{
    assert(0 <= b * c <= u32::MAX as int * u32::MAX as int) by (nonlinear_arith)
        requires b <= u32::MAX, c <= u32::MAX;
}

/// The bytes of grid cell `rc = (row, column)` of an image of the given
/// width whose bytes are `data`.
pub open spec fn cell_bytes(width: int, data: Seq<u8>, g: GridGeometry, rc: (u32, u32)) -> Seq<u8> {
    crop_bytes(
        width,
        data,
        cell_x(g, rc.1 as int),
        cell_y(g, rc.0 as int),
        at_least_one(g.tile_width) as int,
        at_least_one(g.tile_height) as int,
    )
}

/// `tile` is the buffer of grid cell `rc` of `img`.
pub open spec fn is_cell_tile(img: RgbaBuffer, g: GridGeometry, rc: (u32, u32), tile: RgbaBuffer) -> bool {
    &&& tile.wf()
    &&& tile.width == at_least_one(g.tile_width)
    &&& tile.height == at_least_one(g.tile_height)
    &&& tile.data@ == cell_bytes(img.width as int, img.data@, g, rc)
}

/// Byte `ch` of pixel `(tx, ty)` of the tile cut for cell `(row, column)`
/// is byte `ch` of image pixel `(offset_x + column * stride_x + tx,
/// offset_y + row * stride_y + ty)`.
pub proof fn lemma_cell_tile_pixel(img: RgbaBuffer, g: GridGeometry, rc: (u32, u32), tile: RgbaBuffer, tx: int, ty: int, ch: int)
    requires
        is_cell_tile(img, g, rc, tile),
        0 <= tx < tile.width,
        0 <= ty < tile.height,
        0 <= ch < 4,
    ensures
        tile.byte_at(tx, ty, ch) == img.data@[
            ((g.offset_y + rc.0 * g.stride_y + ty) * img.width + (g.offset_x + rc.1 * g.stride_x + tx)) * 4 + ch
        ],
{
    lemma_crop_pixel(
        img,
        cell_x(g, rc.1 as int),
        cell_y(g, rc.0 as int),
        at_least_one(g.tile_width) as int,
        at_least_one(g.tile_height) as int,
        tx,
        ty,
        ch,
    );
    assert(rc.1 * g.stride_x == g.stride_x * rc.1) by (nonlinear_arith);
    assert(rc.0 * g.stride_y == g.stride_y * rc.0) by (nonlinear_arith);
}

/// Every in-bounds cell of the grid as `(row, column, tile)`, in row-major
/// order; cells that stick out of the image are skipped.
pub fn extract_all_tiles(img: &RgbaBuffer, g: &GridGeometry) -> (cells: Vec<(u32, u32, RgbaBuffer)>)
    requires
        img.wf(),
        grid_arith_fits(*g, img.width as int),
    ensures
        cells@.len() == grid_cells(*g, img.width as int, img.height as int).len(),
        forall|k: int| 0 <= k < cells@.len() ==> {
            let rc = #[trigger] grid_cells(*g, img.width as int, img.height as int)[k];
            &&& cells@[k].0 == rc.0
            &&& cells@[k].1 == rc.1
            &&& is_cell_tile(*img, *g, rc, cells@[k].2)
        },
{
    let iw: u64 = img.width as u64;
    let ih: u64 = img.height as u64;
    let tw: u32 = if g.tile_width == 0 { 1 } else { g.tile_width };
    let th: u32 = if g.tile_height == 0 { 1 } else { g.tile_height };
    let ghost gw = img.width as int;
    let ghost gh = img.height as int;
    let mut cells: Vec<(u32, u32, RgbaBuffer)> = Vec::new();
    let mut r: u32 = 0;
    while r < g.rows
        invariant
            img.wf(),
            iw == img.width,
            ih == img.height,
            gw == img.width,
            gh == img.height,
            tw == at_least_one(g.tile_width),
            th == at_least_one(g.tile_height),
            r <= g.rows,
            cells@.len() == grid_cells_upto(*g, gw, gh, r as int).len(),
            forall|k: int| 0 <= k < cells@.len() ==> {
                let rc = #[trigger] grid_cells_upto(*g, gw, gh, r as int)[k];
                &&& cells@[k].0 == rc.0
                &&& cells@[k].1 == rc.1
                &&& is_cell_tile(*img, *g, rc, cells@[k].2)
            },
        decreases g.rows - r,
    {
        let ghost before = grid_cells_upto(*g, gw, gh, r as int);
        proof { lemma_u32_affine_fits(g.offset_y, r, g.stride_y, th); }
        let y0: u64 = g.offset_y as u64 + (r as u64) * (g.stride_y as u64);
        let mut c: u32 = 0;
        while c < g.columns
            invariant
                img.wf(),
                iw == img.width,
                ih == img.height,
                gw == img.width,
                gh == img.height,
                tw == at_least_one(g.tile_width),
                th == at_least_one(g.tile_height),
                r < g.rows,
                c <= g.columns,
                y0 == cell_y(*g, r as int),
                y0 + th <= u64::MAX,
                before == grid_cells_upto(*g, gw, gh, r as int),
                cells@.len() == (before + row_cells(*g, gw, gh, r as int, c as int)).len(),
                forall|k: int| 0 <= k < cells@.len() ==> {
                    let rc = #[trigger] (before + row_cells(*g, gw, gh, r as int, c as int))[k];
                    &&& cells@[k].0 == rc.0
                    &&& cells@[k].1 == rc.1
                    &&& is_cell_tile(*img, *g, rc, cells@[k].2)
                },
            decreases g.columns - c,
        {
            let ghost seq_before = before + row_cells(*g, gw, gh, r as int, c as int);
            proof { lemma_u32_affine_fits(g.offset_x, c, g.stride_x, tw); }
            let x0: u64 = g.offset_x as u64 + (c as u64) * (g.stride_x as u64);
            if x0 + (tw as u64) <= iw && y0 + (th as u64) <= ih {
                let tile = copy_tile(img, x0 as u32, y0 as u32, tw, th);
                cells.push((r, c, tile));
                assert(before + row_cells(*g, gw, gh, r as int, (c + 1) as int) =~= seq_before.push((r, c)));
            } else {
                assert(before + row_cells(*g, gw, gh, r as int, (c + 1) as int) =~= seq_before);
            }
            c = c + 1;
        }
        assert(grid_cells_upto(*g, gw, gh, (r + 1) as int)
            =~= before + row_cells(*g, gw, gh, r as int, g.columns as int));
        r = r + 1;
    }
    cells
}

/// Separates `(row, column, tile)` triples into positions and tiles, keeping the order.
pub fn split_cells(cells: Vec<(u32, u32, RgbaBuffer)>) -> (parts: (Vec<(u32, u32)>, Vec<RgbaBuffer>))
    ensures
        parts.0@.len() == cells@.len(),
        parts.1@.len() == cells@.len(),
        forall|k: int| 0 <= k < cells@.len() ==> #[trigger] parts.0@[k] == (cells@[k].0, cells@[k].1),
        forall|k: int| 0 <= k < cells@.len() ==> #[trigger] parts.1@[k] == cells@[k].2,
{
    let ghost orig = cells@;
    let n = cells.len();
    let mut rest = cells;
    let mut rev_pos: Vec<(u32, u32)> = Vec::new();
    let mut rev_tiles: Vec<RgbaBuffer> = Vec::new();
    while rest.len() > 0
        invariant
            rest@.len() + rev_tiles@.len() == n,
            rev_pos@.len() == rev_tiles@.len(),
            n == orig.len(),
            rest@ == orig.take(rest@.len() as int),
            forall|k: int| 0 <= k < rev_tiles@.len() ==> #[trigger] rev_tiles@[k] == orig[n - 1 - k].2,
            forall|k: int| 0 <= k < rev_pos@.len() ==> #[trigger] rev_pos@[k] == (orig[n - 1 - k].0, orig[n - 1 - k].1),
        decreases rest@.len(),
    {
        let (r, c, tile) = rest.pop().unwrap();
        rev_pos.push((r, c));
        rev_tiles.push(tile);
        assert(rest@ =~= orig.take(rest@.len() as int));
    }
    let mut pos: Vec<(u32, u32)> = Vec::new();
    let mut tiles: Vec<RgbaBuffer> = Vec::new();
    while rev_tiles.len() > 0
        invariant
            tiles@.len() + rev_tiles@.len() == n,
            pos@.len() == tiles@.len(),
            rev_pos@.len() == rev_tiles@.len(),
            n == orig.len(),
            forall|k: int| 0 <= k < rev_tiles@.len() ==> #[trigger] rev_tiles@[k] == orig[n - 1 - k].2,
            forall|k: int| 0 <= k < rev_pos@.len() ==> #[trigger] rev_pos@[k] == (orig[n - 1 - k].0, orig[n - 1 - k].1),
            forall|k: int| 0 <= k < tiles@.len() ==> #[trigger] tiles@[k] == orig[k].2,
            forall|k: int| 0 <= k < pos@.len() ==> #[trigger] pos@[k] == (orig[k].0, orig[k].1),
        decreases rev_tiles@.len(),
    {
        let tile = rev_tiles.pop().unwrap();
        let p = rev_pos.pop().unwrap();
        tiles.push(tile);
        pos.push(p);
    }
    (pos, tiles)
}

/// Every in-bounds cell of the grid as its own tile buffer, in row-major
/// order. Cells that stick out of the image are silently skipped.
pub fn extract_tiles(img: &RgbaBuffer, g: &GridGeometry) -> (tiles: Vec<RgbaBuffer>)
    requires
        img.wf(),
        grid_arith_fits(*g, img.width as int),
    ensures
        tiles@.len() == grid_cells(*g, img.width as int, img.height as int).len(),
        forall|k: int| 0 <= k < tiles@.len() ==>
            is_cell_tile(*img, *g, #[trigger] grid_cells(*g, img.width as int, img.height as int)[k], tiles@[k]),
{
    let cells = extract_all_tiles(img, g);
    let (_, tiles) = split_cells(cells);
    tiles
}

} // verus!
