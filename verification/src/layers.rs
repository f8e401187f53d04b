//! Decomposition of a tiled image into base layers (the typical content of
//! a cell, one per cluster of similar cells) and a detail layer (what each
//! cell adds on top of its base).
use vstd::prelude::*;
use crate::raster::{RgbaBuffer, pixel_offset, lemma_pixel_offset_bounds};
use crate::tiles::{
    crop_bytes, GridGeometry, at_least_one, grid_cells, grid_arith_fits, is_cell_tile, extract_all_tiles, split_cells,
    lemma_grid_cells,
};
use crate::quantize::{quantize_image, working_bytes};
use crate::atlas::cell_seqs;
use crate::layout::{
    background, slot_start, slot_of, slot_pos, inside_slot, packed_extent, lemma_slot_decode, lemma_slot_encode,
    lemma_slot_range, lemma_slot_within,
};
use crate::stats::abs_diff_upto;
use crate::stats::{
    abs_diff_total, sum_abs_diff_wide, lemma_abs_diff_upto_bounds, sorted_copy, mode_of_sorted, median_of_sorted, is_smallest_mode, is_middle_value, is_sorted_permutation,
    lemma_mode_of_constant, lemma_middle_of_constant,
};

verus! {

broadcast use vstd::seq_lib::group_to_multiset_ensures;

/// How the base tile of a set of cells is chosen pixel by pixel.
#[derive(Debug, Clone, Copy, PartialEq, Eq, Structural)]
pub enum LayerBaseMode {
    /// Most frequent exact RGBA value per pixel (best for palette/pixel art)
    Mode,
    /// Channel-wise median per pixel (best for lossy/noisy sources)
    Median,
}

/// The four bytes at `o` read as a little-endian `u32`.
pub open spec fn pack4(s: Seq<u8>, o: int) -> u32 {
    (s[o] + 256 * s[o + 1] + 65536 * s[o + 2] + 16777216 * s[o + 3]) as u32
}

/// All tiles are well formed `tw x th` buffers.
pub open spec fn uniform_tiles(tiles: Seq<RgbaBuffer>, tw: int, th: int) -> bool {
    forall|i: int| 0 <= i < tiles.len() ==> {
        &&& (#[trigger] tiles[i]).wf()
        &&& tiles[i].width == tw
        &&& tiles[i].height == th
    }
}

/// The bytes of each tile.
pub open spec fn tile_bytes(tiles: Seq<RgbaBuffer>) -> Seq<Seq<u8>> {
    tiles.map_values(|t: RgbaBuffer| t.data@)
}

/// Every member is an index into `n` tiles.
pub open spec fn valid_members(members: Seq<usize>, n: int) -> bool {
    forall|k: int| 0 <= k < members.len() ==> #[trigger] members[k] < n
}

/// Byte `j` of every member tile, in member order.
pub open spec fn byte_column(tiles: Seq<Seq<u8>>, members: Seq<usize>, j: int) -> Seq<u32> {
    Seq::new(members.len(), |k: int| tiles[members[k] as int][j] as u32)
}

/// Pixel `q` of every member tile as a little-endian `u32`, in member order.
pub open spec fn pixel_column(tiles: Seq<Seq<u8>>, members: Seq<usize>, q: int) -> Seq<u32> {
    Seq::new(members.len(), |k: int| pack4(tiles[members[k] as int], q * 4))
}

/// `base` (of `len` bytes) is the base tile of the member tiles: all zero
/// when there are no members; otherwise, pixel by pixel, the most frequent
/// RGBA value (the smallest as a little-endian number among equally frequent
/// ones) for `Mode`, or channel by channel the middle value for `Median`.
pub open spec fn is_base_tile(tiles: Seq<Seq<u8>>, members: Seq<usize>, len: int, mode: LayerBaseMode, base: Seq<u8>) -> bool {
    &&& base.len() == len
    &&& if members.len() == 0 {
        forall|j: int| 0 <= j < len ==> #[trigger] base[j] == 0
    } else {
        match mode {
            LayerBaseMode::Mode => forall|q: int| 0 <= q < len / 4 ==>
                is_smallest_mode(#[trigger] pixel_column(tiles, members, q), pack4(base, q * 4)),
            LayerBaseMode::Median => forall|j: int| 0 <= j < len ==>
                is_middle_value(#[trigger] byte_column(tiles, members, j), base[j] as u32),
        }
    }
}

/// Splits a little-endian `u32` back into its four bytes.
fn unpack4(v: u32) -> (b: [u8; 4])
    ensures
        pack4(b@, 0) == v,
{
    let w0: u32 = v % 256;
    let w1: u32 = (v / 256) % 256;
    let w2: u32 = (v / 65536) % 256;
    let w3: u32 = v / 16777216;
    assert(w0 + 256 * w1 + 65536 * w2 + 16777216 * w3 == v && w3 < 256) by (bit_vector)
        requires
            w0 == v % 256,
            w1 == (v / 256) % 256,
            w2 == (v / 65536) % 256,
            w3 == v / 16777216;
    let b0 = w0 as u8;
    let b1 = w1 as u8;
    let b2 = w2 as u8;
    let b3 = w3 as u8;
    [b0, b1, b2, b3]
}

/// The little-endian `u32` of four bytes.
fn pack_bytes(b0: u8, b1: u8, b2: u8, b3: u8) -> (v: u32)
    ensures
        v == b0 + 256 * b1 + 65536 * b2 + 16777216 * b3,
{
    b0 as u32 + 256 * (b1 as u32) + 65536 * (b2 as u32) + 16777216 * (b3 as u32)
}

/// Per-pixel mode (or channel-wise median) of member tiles that are all
/// `tw x th`; an all-zero tile when there are no members.
fn base_of_cells(
    tiles: &Vec<RgbaBuffer>,
    members: &Vec<usize>,
    tw: u32,
    th: u32,
    mode: &LayerBaseMode,
) -> (base: RgbaBuffer)
    requires
        uniform_tiles(tiles@, tw as int, th as int),
        valid_members(members@, tiles@.len() as int),
        tw as int * th as int * 4 <= usize::MAX,
    ensures
        base.wf(),
        base.width == tw,
        base.height == th,
        is_base_tile(tile_bytes(tiles@), members@, tw as int * th as int * 4, *mode, base.data@),
{
    let ghost ts = tile_bytes(tiles@);
    let len: usize = (tw as usize) * (th as usize) * 4;
    if members.len() == 0 {
        return RgbaBuffer::new(tw, th);
    }
    let m = members.len();
    let mut data: Vec<u8> = Vec::with_capacity(len);
    match mode {
        LayerBaseMode::Mode => {
            let n_px = len / 4;
            let mut q: usize = 0;
            while q < n_px
                invariant
                    len == tw as int * th as int * 4,
                    n_px * 4 == len,
                    m == members@.len(),
                    m > 0,
                    ts == tile_bytes(tiles@),
                    uniform_tiles(tiles@, tw as int, th as int),
                    valid_members(members@, tiles@.len() as int),
                    q <= n_px,
                    data@.len() == q * 4,
                    forall|p: int| 0 <= p < q ==>
                        is_smallest_mode(#[trigger] pixel_column(ts, members@, p), pack4(data@, p * 4)),
                decreases n_px - q,
            {
                let o = q * 4;
                let mut values: Vec<u32> = Vec::with_capacity(m);
                let mut k: usize = 0;
                while k < m
                    invariant
                        m == members@.len(),
                        ts == tile_bytes(tiles@),
                        uniform_tiles(tiles@, tw as int, th as int),
                        valid_members(members@, tiles@.len() as int),
                        len == tw as int * th as int * 4,
                        o + 4 <= len,
                        o == q * 4,
                        k <= m,
                        values@ == pixel_column(ts, members@, q as int).take(k as int),
                    decreases m - k,
                {
                    let t = &tiles[members[k]];
                    let v = pack_bytes(t.data[o], t.data[o + 1], t.data[o + 2], t.data[o + 3]);
                    values.push(v);
                    k = k + 1;
                    assert(values@ =~= pixel_column(ts, members@, q as int).take(k as int));
                }
                assert(values@ =~= pixel_column(ts, members@, q as int));
                let sorted = sorted_copy(&values);
                let best = mode_of_sorted(sorted.as_slice());
                proof {
                    lemma_mode_permutation(values@, sorted@, best);
                }
                let b = unpack4(best);
                let ghost before = data@;
                data.push(b[0]);
                data.push(b[1]);
                data.push(b[2]);
                data.push(b[3]);
                proof {
                    assert(pack4(data@, q * 4) == pack4(b@, 0));
                    assert forall|p: int| 0 <= p < q + 1 implies
                        is_smallest_mode(#[trigger] pixel_column(ts, members@, p), pack4(data@, p * 4)) by {
                        if p < q {
                            assert(pack4(data@, p * 4) == pack4(before, p * 4));
                        }
                    }
                }
                q = q + 1;
            }
        },
        LayerBaseMode::Median => {
            let mut j: usize = 0;
            while j < len
                invariant
                    len == tw as int * th as int * 4,
                    m == members@.len(),
                    m > 0,
                    ts == tile_bytes(tiles@),
                    uniform_tiles(tiles@, tw as int, th as int),
                    valid_members(members@, tiles@.len() as int),
                    j <= len,
                    data@.len() == j,
                    forall|p: int| 0 <= p < j ==>
                        is_middle_value(#[trigger] byte_column(ts, members@, p), data@[p] as u32),
                decreases len - j,
            {
                let mut values: Vec<u32> = Vec::with_capacity(m);
                let mut k: usize = 0;
                while k < m
                    invariant
                        m == members@.len(),
                        ts == tile_bytes(tiles@),
                        uniform_tiles(tiles@, tw as int, th as int),
                        valid_members(members@, tiles@.len() as int),
                        len == tw as int * th as int * 4,
                        j < len,
                        k <= m,
                        values@ == byte_column(ts, members@, j as int).take(k as int),
                    decreases m - k,
                {
                    let t = &tiles[members[k]];
                    values.push(t.data[j] as u32);
                    k = k + 1;
                    assert(values@ =~= byte_column(ts, members@, j as int).take(k as int));
                }
                assert(values@ =~= byte_column(ts, members@, j as int));
                let sorted = sorted_copy(&values);
                let mid = median_of_sorted(sorted.as_slice());
                proof {
                    let p = sorted@;
                    assert(is_sorted_permutation(p, values@));
                    assert(p.contains(mid));
                    assert(p.to_multiset().count(mid) > 0);
                    assert(values@.contains(mid));
                    let w = choose|w: int| 0 <= w < values@.len() && values@[w] == mid;
                    assert(mid <= 255);
                    assert(is_middle_value(values@, mid));
                }
                data.push(mid as u8);
                j = j + 1;
            }
        },
    }
    RgbaBuffer { width: tw, height: th, data }
}

/// The mode of a collection is the mode computed from any sorted permutation of it.
proof fn lemma_mode_permutation(values: Seq<u32>, sorted: Seq<u32>, m: u32)
    requires
        values.len() > 0,
        is_sorted_permutation(sorted, values),
        sorted.len() == values.len(),
        is_smallest_mode(sorted, m),
    ensures
        is_smallest_mode(values, m),
{
    assert(sorted.to_multiset() == values.to_multiset());
    assert forall|v: u32| #[trigger] crate::stats::occurrences(values, v) == crate::stats::occurrences(sorted, v) by {
    }
}

/// The top-left `tw x th` part of each tile.
pub open spec fn cropped_bytes(tiles: Seq<RgbaBuffer>, tw: int, th: int) -> Seq<Seq<u8>> {
    tiles.map_values(|t: RgbaBuffer| crop_bytes(t.width as int, t.data@, 0, 0, tw, th))
}

/// Every tile is well formed and at least `tw x th`.
pub open spec fn tiles_cover(tiles: Seq<RgbaBuffer>, tw: int, th: int) -> bool {
    forall|i: int| 0 <= i < tiles.len() ==> {
        &&& (#[trigger] tiles[i]).wf()
        &&& tiles[i].width >= tw
        &&& tiles[i].height >= th
    }
}

/// The top-left `tw x th` part of each tile, as a tile of its own.
fn crop_all(tiles: &Vec<RgbaBuffer>, tw: u32, th: u32) -> (crops: Vec<RgbaBuffer>)
    requires
        tiles_cover(tiles@, tw as int, th as int),
    ensures
        crops@.len() == tiles@.len(),
        uniform_tiles(crops@, tw as int, th as int),
        tile_bytes(crops@) == cropped_bytes(tiles@, tw as int, th as int),
{
    let mut crops: Vec<RgbaBuffer> = Vec::with_capacity(tiles.len());
    let mut i: usize = 0;
    while i < tiles.len()
        invariant
            i <= tiles@.len(),
            tiles_cover(tiles@, tw as int, th as int),
            crops@.len() == i,
            uniform_tiles(crops@, tw as int, th as int),
            forall|k: int| 0 <= k < i ==> #[trigger] crops@[k].data@ == crop_bytes(tiles@[k].width as int, tiles@[k].data@, 0, 0, tw as int, th as int),
        decreases tiles@.len() - i,
    {
        let t = &tiles[i];
        assert(t.wf() && t.width >= tw && t.height >= th);
        let c = crate::tiles::copy_tile(t, 0, 0, tw, th);
        crops.push(c);
        i = i + 1;
    }
    assert(tile_bytes(crops@) =~= cropped_bytes(tiles@, tw as int, th as int));
    crops
}

/// Per-pixel mode (or channel-wise median) of the top-left `tw x th` parts
/// of the member tiles; an all-zero `tw x th` tile when there are no members.
pub fn compute_base_tile(
    tiles: &Vec<RgbaBuffer>,
    members: &Vec<usize>,
    tw: u32,
    th: u32,
    mode: &LayerBaseMode,
) -> (base: RgbaBuffer)
    requires
        tiles_cover(tiles@, tw as int, th as int),
        valid_members(members@, tiles@.len() as int),
        tw as int * th as int * 4 <= usize::MAX,
    ensures
        base.wf(),
        base.width == tw,
        base.height == th,
        is_base_tile(cropped_bytes(tiles@, tw as int, th as int), members@, tw as int * th as int * 4, *mode, base.data@),
{
    let crops = crop_all(tiles, tw, th);
    base_of_cells(&crops, members, tw, th, mode)
}

/// Byte by byte, the mean (rounded down) of the top-left `tw x th` parts of
/// the member tiles; an all-zero `tw x th` tile when there are no members.
pub fn compute_mean_tile(tiles: &Vec<RgbaBuffer>, members: &Vec<usize>, tw: u32, th: u32) -> (mean: RgbaBuffer)
    requires
        tiles_cover(tiles@, tw as int, th as int),
        valid_members(members@, tiles@.len() as int),
        tw as int * th as int * 4 <= usize::MAX,
    ensures
        mean.wf(),
        mean.width == tw,
        mean.height == th,
        members@.len() == 0 ==> forall|j: int| 0 <= j < mean.data@.len() ==> #[trigger] mean.data@[j] == 0,
        members@.len() > 0 ==> mean.data@ == mean_tile_bytes(cropped_bytes(tiles@, tw as int, th as int), members@, tw as int * th as int * 4),
{
    let crops = crop_all(tiles, tw, th);
    mean_of_cells(&crops, members, tw, th)
}

/// Four bytes are determined by their little-endian `u32`.
proof fn lemma_pack4_injective(a: Seq<u8>, b: Seq<u8>, o: int)
    requires
        0 <= o,
        o + 4 <= a.len(),
        o + 4 <= b.len(),
        pack4(a, o) == pack4(b, o),
    ensures
        a.subrange(o, o + 4) == b.subrange(o, o + 4),
{
    let (a0, a1, a2, a3) = (a[o], a[o + 1], a[o + 2], a[o + 3]);
    let (b0, b1, b2, b3) = (b[o], b[o + 1], b[o + 2], b[o + 3]);
    let va: u32 = pack4(a, o);
    let vb: u32 = pack4(b, o);
    assert(va == a0 + 256 * a1 + 65536 * a2 + 16777216 * a3);
    assert(vb == b0 + 256 * b1 + 65536 * b2 + 16777216 * b3);
    assert(a0 == b0 && a1 == b1 && a2 == b2 && a3 == b3) by (bit_vector)
        requires
            va == a0 + 256 * a1 + 65536 * a2 + 16777216 * a3,
            vb == b0 + 256 * b1 + 65536 * b2 + 16777216 * b3,
            va == vb;
    assert(a.subrange(o, o + 4) =~= b.subrange(o, o + 4));
}

/// When every member cell is the same tile `t`, the base of the members is
/// `t`, for either way of choosing the base.
pub proof fn lemma_base_of_identical_cells(tiles: Seq<Seq<u8>>, members: Seq<usize>, len: int, mode: LayerBaseMode, base: Seq<u8>, t: Seq<u8>)
    requires
        members.len() > 0,
        valid_members(members, tiles.len() as int),
        len % 4 == 0,
        t.len() == len,
        forall|k: int| 0 <= k < members.len() ==> tiles[#[trigger] members[k] as int] == t,
        is_base_tile(tiles, members, len, mode, base),
    ensures
        base == t,
{
    match mode {
        LayerBaseMode::Mode => {
            assert forall|j: int| 0 <= j < len implies base[j] == t[j] by {
                let q = j / 4;
                assert(0 <= q < len / 4);
                let col = pixel_column(tiles, members, q);
                assert forall|k: int| 0 <= k < col.len() implies col[k] == pack4(t, q * 4) by {
                    assert(tiles[members[k] as int] == t);
                }
                lemma_mode_of_constant(col, pack4(t, q * 4), pack4(base, q * 4));
                lemma_pack4_injective(base, t, q * 4);
                assert(base.subrange(q * 4, q * 4 + 4)[j - q * 4] == base[j]);
                assert(t.subrange(q * 4, q * 4 + 4)[j - q * 4] == t[j]);
            }
        },
        LayerBaseMode::Median => {
            assert forall|j: int| 0 <= j < len implies base[j] == t[j] by {
                let col = byte_column(tiles, members, j);
                assert forall|k: int| 0 <= k < col.len() implies col[k] == t[j] as u32 by {
                    assert(tiles[members[k] as int] == t);
                }
                lemma_middle_of_constant(col, t[j] as u32, base[j] as u32);
            }
        },
    }
    assert(base =~= t);
}

/// Sum of byte `j` over the first `m` member tiles.
pub open spec fn column_sum(tiles: Seq<Seq<u8>>, members: Seq<usize>, j: int, m: int) -> int
    decreases m,
{
    if m <= 0 { 0 } else { column_sum(tiles, members, j, m - 1) + tiles[members[m - 1] as int][j] }
}

/// Byte by byte, the mean of the member tiles rounded down.
pub open spec fn mean_tile_bytes(tiles: Seq<Seq<u8>>, members: Seq<usize>, len: int) -> Seq<u8> {
    Seq::new(len as nat, |j: int| (column_sum(tiles, members, j, members.len() as int) / members.len() as int) as u8)
}

proof fn lemma_column_sum_bounds(tiles: Seq<Seq<u8>>, members: Seq<usize>, j: int, m: int)
    requires
        0 <= m,
    ensures
        0 <= column_sum(tiles, members, j, m) <= 255 * m,
    decreases m,
{
    if m > 0 {
        lemma_column_sum_bounds(tiles, members, j, m - 1);
    }
}

/// Byte-wise mean (rounded down) of the member tiles, an all-zero
/// `tw x th` tile when there are none: the centroid of a cluster.
fn mean_of_cells(tiles: &Vec<RgbaBuffer>, members: &Vec<usize>, tw: u32, th: u32) -> (mean: RgbaBuffer)
    requires
        uniform_tiles(tiles@, tw as int, th as int),
        valid_members(members@, tiles@.len() as int),
        tw as int * th as int * 4 <= usize::MAX,
    ensures
        mean.wf(),
        mean.width == tw,
        mean.height == th,
        members@.len() == 0 ==> forall|j: int| 0 <= j < mean.data@.len() ==> #[trigger] mean.data@[j] == 0,
        members@.len() > 0 ==> mean.data@ == mean_tile_bytes(tile_bytes(tiles@), members@, tw as int * th as int * 4),
{
    let ghost ts = tile_bytes(tiles@);
    let len: usize = (tw as usize) * (th as usize) * 4;
    let m = members.len();
    if m == 0 {
        return RgbaBuffer::new(tw, th);
    }
    let mut data: Vec<u8> = Vec::with_capacity(len);
    let mut j: usize = 0;
    while j < len
        invariant
            len == tw as int * th as int * 4,
            m == members@.len(),
            m > 0,
            ts == tile_bytes(tiles@),
            uniform_tiles(tiles@, tw as int, th as int),
            valid_members(members@, tiles@.len() as int),
            j <= len,
            data@ == mean_tile_bytes(ts, members@, len as int).take(j as int),
        decreases len - j,
    {
        let mut sum: u128 = 0;
        let mut k: usize = 0;
        while k < m
            invariant
                m == members@.len(),
                ts == tile_bytes(tiles@),
                uniform_tiles(tiles@, tw as int, th as int),
                valid_members(members@, tiles@.len() as int),
                len == tw as int * th as int * 4,
                j < len,
                k <= m,
                sum == column_sum(ts, members@, j as int, k as int),
            decreases m - k,
        {
            proof {
                lemma_column_sum_bounds(ts, members@, j as int, k as int);
            }
            let t = &tiles[members[k]];
            sum = sum + t.data[j] as u128;
            k = k + 1;
        }
        proof {
            lemma_column_sum_bounds(ts, members@, j as int, m as int);
            vstd::arithmetic::div_mod::lemma_div_is_ordered(sum as int, 255 * m, m as int);
            vstd::arithmetic::div_mod::lemma_div_by_multiple(255, m as int);
        }
        let avg: u8 = (sum / (m as u128)) as u8;
        data.push(avg);
        j = j + 1;
        assert(data@ =~= mean_tile_bytes(ts, members@, len as int).take(j as int));
    }
    assert(data@ =~= mean_tile_bytes(ts, members@, len as int));
    RgbaBuffer { width: tw, height: th, data }
}

/// `j` is the first of the centroids closest to `tile` in summed absolute
/// byte difference.
pub open spec fn is_first_nearest(tile: Seq<u8>, cents: Seq<Seq<u8>>, j: int) -> bool {
    &&& 0 <= j < cents.len()
    &&& forall|i: int| 0 <= i < cents.len() ==> abs_diff_total(tile, cents[j]) <= abs_diff_total(tile, #[trigger] cents[i])
    &&& forall|i: int| 0 <= i < j ==> abs_diff_total(tile, cents[j]) < abs_diff_total(tile, #[trigger] cents[i])
}

/// There is only one first closest centroid.
pub proof fn lemma_first_nearest_unique(tile: Seq<u8>, cents: Seq<Seq<u8>>, j1: int, j2: int)
    requires
        is_first_nearest(tile, cents, j1),
        is_first_nearest(tile, cents, j2),
    ensures
        j1 == j2,
{
    if j1 < j2 {
        assert(abs_diff_total(tile, cents[j2]) < abs_diff_total(tile, cents[j1]));
    } else if j2 < j1 {
        assert(abs_diff_total(tile, cents[j1]) < abs_diff_total(tile, cents[j2]));
    }
}

/// The first centroid closest to `tile`.
pub open spec fn nearest(tile: Seq<u8>, cents: Seq<Seq<u8>>) -> int {
    choose|j: int| is_first_nearest(tile, cents, j)
}

/// The index of the first centroid closest to `tile`.
fn nearest_centroid(tile: &RgbaBuffer, cents: &Vec<RgbaBuffer>, len: usize) -> (j: usize)
    requires
        cents@.len() > 0,
        tile.data@.len() == len,
        forall|i: int| 0 <= i < cents@.len() ==> (#[trigger] cents@[i]).data@.len() == len,
    ensures
        j == nearest(tile.data@, tile_bytes(cents@)),
        is_first_nearest(tile.data@, tile_bytes(cents@), j as int),
{
    let ghost cs = tile_bytes(cents@);
    let mut best: usize = 0;
    let mut best_d: u128 = sum_abs_diff_wide(tile.data.as_slice(), cents[0].data.as_slice());
    let mut i: usize = 1;
    while i < cents.len()
        invariant
            cs == tile_bytes(cents@),
            tile.data@.len() == len,
            forall|q: int| 0 <= q < cents@.len() ==> (#[trigger] cents@[q]).data@.len() == len,
            1 <= i <= cents@.len(),
            best < i,
            best_d == abs_diff_total(tile.data@, cs[best as int]),
            forall|q: int| 0 <= q < i ==> best_d <= abs_diff_total(tile.data@, #[trigger] cs[q]),
            forall|q: int| 0 <= q < best ==> best_d < abs_diff_total(tile.data@, #[trigger] cs[q]),
        decreases cents@.len() - i,
    {
        let d = sum_abs_diff_wide(tile.data.as_slice(), cents[i].data.as_slice());
        assert(cs[i as int] == cents@[i as int].data@);
        if d < best_d {
            best = i;
            best_d = d;
        }
        i = i + 1;
    }
    proof {
        assert(is_first_nearest(tile.data@, cs, best as int));
        lemma_first_nearest_unique(tile.data@, cs, best as int, nearest(tile.data@, cs));
    }
    best
}

/// Distance from tile `i` to the closest of the chosen tiles (at least one).
pub open spec fn min_dist_to(ts: Seq<Seq<u8>>, chosen: Seq<usize>, i: int) -> int
    decreases chosen.len(),
{
    if chosen.len() <= 1 {
        abs_diff_total(ts[i], ts[chosen[0] as int])
    } else {
        let a = min_dist_to(ts, chosen.drop_last(), i);
        let b = abs_diff_total(ts[i], ts[chosen.last() as int]);
        if b < a { b } else { a }
    }
}

/// `j` is the last of the tiles farthest from the chosen ones.
pub open spec fn is_last_farthest(ts: Seq<Seq<u8>>, chosen: Seq<usize>, j: int) -> bool {
    &&& 0 <= j < ts.len()
    &&& forall|i: int| 0 <= i < ts.len() ==> #[trigger] min_dist_to(ts, chosen, i) <= min_dist_to(ts, chosen, j)
    &&& forall|i: int| j < i < ts.len() ==> #[trigger] min_dist_to(ts, chosen, i) < min_dist_to(ts, chosen, j)
}

/// `chosen` holds `k` tile indices picked greedily farthest-first: tile 0,
/// then each time the last of the tiles farthest from those already picked.
pub open spec fn is_farthest_first(ts: Seq<Seq<u8>>, chosen: Seq<usize>, k: int) -> bool {
    &&& chosen.len() == k
    &&& k > 0 ==> chosen[0] == 0
    &&& forall|t: int| #![trigger chosen[t]] 1 <= t < k ==> is_last_farthest(ts, chosen.take(t), chosen[t] as int)
}

/// Greedy farthest-first choice of `min(k, tiles)` initial centroids.
pub fn init_centroids(tiles: &Vec<RgbaBuffer>, k: usize, len: usize) -> (chosen: Vec<usize>)
    requires
        forall|i: int| 0 <= i < tiles@.len() ==> (#[trigger] tiles@[i]).data@.len() == len,
    ensures
        is_farthest_first(tile_bytes(tiles@), chosen@, if k < tiles@.len() { k as int } else { tiles@.len() as int }),
        forall|t: int| 0 <= t < chosen@.len() ==> #[trigger] chosen@[t] < tiles@.len(),
{
    let ghost ts = tile_bytes(tiles@);
    let n = tiles.len();
    let kk = if k < n { k } else { n };
    let mut chosen: Vec<usize> = Vec::new();
    if kk == 0 {
        return chosen;
    }
    let mut min_dist: Vec<u128> = Vec::with_capacity(n);
    let mut i: usize = 0;
    while i < n
        invariant
            n == tiles@.len(),
            n > 0,
            ts == tile_bytes(tiles@),
            forall|q: int| 0 <= q < tiles@.len() ==> (#[trigger] tiles@[q]).data@.len() == len,
            i <= n,
            min_dist@.len() == i,
            forall|q: int| 0 <= q < i ==> #[trigger] min_dist@[q] == min_dist_to(ts, seq![0usize], q),
        decreases n - i,
    {
        let d = sum_abs_diff_wide(tiles[i].data.as_slice(), tiles[0].data.as_slice());
        min_dist.push(d);
        i = i + 1;
    }
    chosen.push(0);
    assert(chosen@ =~= seq![0usize]);
    while chosen.len() < kk
        invariant
            n == tiles@.len(),
            n > 0,
            1 <= kk <= n,
            ts == tile_bytes(tiles@),
            forall|q: int| 0 <= q < tiles@.len() ==> (#[trigger] tiles@[q]).data@.len() == len,
            1 <= chosen@.len() <= kk,
            chosen@[0] == 0,
            forall|t: int| 0 <= t < chosen@.len() ==> #[trigger] chosen@[t] < n,
            forall|t: int| #![trigger chosen@[t]] 1 <= t < chosen@.len() ==>
                is_last_farthest(ts, chosen@.take(t), chosen@[t] as int),
            min_dist@.len() == n,
            forall|q: int| 0 <= q < n ==> #[trigger] min_dist@[q] == min_dist_to(ts, chosen@, q),
        decreases kk - chosen@.len(),
    {
        // Last index of the largest distance.
        let mut next: usize = 0;
        let mut i: usize = 1;
        while i < n
            invariant
                n == min_dist@.len(),
                1 <= i <= n,
                next < i,
                forall|q: int| 0 <= q < i ==> min_dist@[q] <= #[trigger] min_dist@[next as int],
                forall|q: int| next < q < i ==> #[trigger] min_dist@[q] < min_dist@[next as int],
            decreases n - i,
        {
            if min_dist[i] >= min_dist[next] {
                next = i;
            }
            i = i + 1;
        }
        assert(is_last_farthest(ts, chosen@, next as int)) by {
            assert forall|q: int| 0 <= q < ts.len() implies
                #[trigger] min_dist_to(ts, chosen@, q) <= min_dist_to(ts, chosen@, next as int) by {
                assert(min_dist@[q] <= min_dist@[next as int]);
            }
            assert forall|q: int| next < q < ts.len() implies
                #[trigger] min_dist_to(ts, chosen@, q) < min_dist_to(ts, chosen@, next as int) by {
                assert(min_dist@[q] < min_dist@[next as int]);
            }
        }
        let ghost old_chosen = chosen@;
        let mut i: usize = 0;
        while i < n
            invariant
                n == tiles@.len(),
                n == min_dist@.len(),
                next < n,
                ts == tile_bytes(tiles@),
                forall|q: int| 0 <= q < tiles@.len() ==> (#[trigger] tiles@[q]).data@.len() == len,
                old_chosen.len() >= 1,
                i <= n,
                forall|q: int| 0 <= q < i ==> #[trigger] min_dist@[q] == min_dist_to(ts, old_chosen.push(next), q),
                forall|q: int| i <= q < n ==> #[trigger] min_dist@[q] == min_dist_to(ts, old_chosen, q),
            decreases n - i,
        {
            let d = sum_abs_diff_wide(tiles[i].data.as_slice(), tiles[next].data.as_slice());
            assert(old_chosen.push(next).drop_last() =~= old_chosen);
            if d < min_dist[i] {
                min_dist.set(i, d);
            }
            i = i + 1;
        }
        chosen.push(next);
        proof {
            assert forall|t: int| #![trigger chosen@[t]] 1 <= t < chosen@.len() implies
                is_last_farthest(ts, chosen@.take(t), chosen@[t] as int) by {
                if t < old_chosen.len() {
                    assert(chosen@.take(t) =~= old_chosen.take(t));
                } else {
                    assert(chosen@.take(t) =~= old_chosen);
                }
            }
        }
    }
    chosen
}

/// Indices below `m` assigned to cluster `c`, in increasing order.
pub open spec fn cluster_members(assign: Seq<usize>, c: int, m: int) -> Seq<usize>
    decreases m,
{
    if m <= 0 {
        Seq::empty()
    } else if assign[m - 1] == c {
        cluster_members(assign, c, m - 1).push((m - 1) as usize)
    } else {
        cluster_members(assign, c, m - 1)
    }
}

/// Indices of all cells assigned to cluster `c`, in increasing order.
pub open spec fn cluster(assign: Seq<usize>, c: int) -> Seq<usize> {
    cluster_members(assign, c, assign.len() as int)
}

/// Every member of a cluster is the index of a cell assigned to it.
pub proof fn lemma_cluster_members(assign: Seq<usize>, c: int, m: int)
    requires
        0 <= m <= assign.len(),
        assign.len() <= usize::MAX,
    ensures
        forall|k: int| 0 <= k < cluster_members(assign, c, m).len() ==>
            #[trigger] cluster_members(assign, c, m)[k] < m && assign[cluster_members(assign, c, m)[k] as int] == c,
    decreases m,
{
    if m > 0 {
        lemma_cluster_members(assign, c, m - 1);
        let prev = cluster_members(assign, c, m - 1);
        let cur = cluster_members(assign, c, m);
        if assign[m - 1] == c {
            assert(cur == prev.push((m - 1) as usize));
            assert forall|k: int| 0 <= k < cur.len() implies #[trigger] cur[k] < m && assign[cur[k] as int] == c by {
                if k < prev.len() {
                    assert(cur[k] == prev[k]);
                }
            }
        } else {
            assert(cur == prev);
        }
    }
}

/// Each cell assigned to its first closest centroid.
pub open spec fn assign_all(ts: Seq<Seq<u8>>, cents: Seq<Seq<u8>>) -> Seq<usize> {
    Seq::new(ts.len(), |i: int| nearest(ts[i], cents) as usize)
}

/// Each centroid moved to the byte-wise mean of its cluster; a centroid
/// whose cluster is empty stays where it was.
pub open spec fn update_centroids(ts: Seq<Seq<u8>>, assign: Seq<usize>, cents: Seq<Seq<u8>>, len: int) -> Seq<Seq<u8>> {
    Seq::new(cents.len(), |c: int|
        if cluster(assign, c).len() == 0 { cents[c] } else { mean_tile_bytes(ts, cluster(assign, c), len) })
}

/// Lloyd's k-means for at most `rounds` rounds: reassign every cell to its
/// nearest centroid, stop when no assignment changes, otherwise move the
/// centroids to their cluster means.
pub open spec fn lloyd(ts: Seq<Seq<u8>>, cents: Seq<Seq<u8>>, assign: Seq<usize>, len: int, rounds: nat) -> (Seq<Seq<u8>>, Seq<usize>)
    decreases rounds,
{
    if rounds == 0 {
        (cents, assign)
    } else {
        let next = assign_all(ts, cents);
        if next == assign {
            (cents, assign)
        } else {
            lloyd(ts, update_centroids(ts, next, cents, len), next, len, (rounds - 1) as nat)
        }
    }
}

/// Number of k-means rounds.
pub const KMEANS_ROUNDS: usize = 20;

/// The result of clustering the tiles from the initial centroids `init`:
/// the assignment Lloyd's iterations end with, and for each cluster its base
/// tile, or its last centroid when the cluster is empty.
pub open spec fn kmeans_outcome(
    ts: Seq<Seq<u8>>,
    init: Seq<usize>,
    len: int,
    mode: LayerBaseMode,
    bases: Seq<Seq<u8>>,
    assign: Seq<usize>,
) -> bool {
    let (cents, fin) = lloyd(
        ts,
        init.map_values(|c: usize| ts[c as int]),
        Seq::new(ts.len(), |i: int| 0usize),
        len,
        KMEANS_ROUNDS as nat,
    );
    &&& assign == fin
    &&& bases.len() == init.len()
    &&& forall|c: int| 0 <= c < bases.len() ==> {
        if cluster(fin, c).len() == 0 {
            #[trigger] bases[c] == cents[c]
        } else {
            is_base_tile(ts, cluster(fin, c), len, mode, bases[c])
        }
    }
}

/// `bases` and `assign` are what k-means clustering of the tiles `ts` into
/// `bases.len()` clusters yields: from the farthest-first initial centroids,
/// the outcome of Lloyd's iterations with a base tile per cluster.
pub open spec fn is_kmeans_result(ts: Seq<Seq<u8>>, len: int, mode: LayerBaseMode, bases: Seq<Seq<u8>>, assign: Seq<usize>) -> bool {
    exists|init: Seq<usize>| is_farthest_first(ts, init, bases.len() as int) && kmeans_outcome(ts, init, len, mode, bases, assign)
}

/// The indices of the cells assigned to cluster `c`.
fn cluster_indices(assign: &Vec<usize>, c: usize) -> (members: Vec<usize>)
    ensures
        members@ == cluster(assign@, c as int),
        valid_members(members@, assign@.len() as int),
{
    let n = assign.len();
    let mut members: Vec<usize> = Vec::new();
    let mut i: usize = 0;
    while i < n
        invariant
            n == assign@.len(),
            i <= n,
            members@ == cluster_members(assign@, c as int, i as int),
        decreases n - i,
    {
        if assign[i] == c {
            members.push(i);
        }
        i = i + 1;
    }
    proof {
        lemma_cluster_members(assign@, c as int, n as int);
    }
    members
}

/// K-means clustering of tiles into `min(k, tiles)` (at least one) clusters:
/// farthest-first initial centroids, at most 20 rounds of Lloyd's iteration
/// on byte-wise mean centroids, then a mode/median base tile per cluster.
/// Returns the base of each cluster and the cluster of each tile.
pub fn kmeans_tiles(
    tiles: &Vec<RgbaBuffer>,
    k: usize,
    tw: u32,
    th: u32,
    mode: &LayerBaseMode,
) -> (result: (Vec<RgbaBuffer>, Vec<usize>))
    requires
        tiles@.len() > 0,
        uniform_tiles(tiles@, tw as int, th as int),
        tw as int * th as int * 4 <= usize::MAX,
    ensures
        result.0@.len() == (if k < 1 { 1 } else if k < tiles@.len() { k as int } else { tiles@.len() as int }),
        uniform_tiles(result.0@, tw as int, th as int),
        result.1@.len() == tiles@.len(),
        forall|i: int| 0 <= i < result.1@.len() ==> #[trigger] result.1@[i] < result.0@.len(),
        is_kmeans_result(tile_bytes(tiles@), tw as int * th as int * 4, *mode, tile_bytes(result.0@), result.1@),
{
    let ghost ts = tile_bytes(tiles@);
    let n = tiles.len();
    let len: usize = (tw as usize) * (th as usize) * 4;
    let kk0 = if k < n { k } else { n };
    let kk = if kk0 < 1 { 1 } else { kk0 };
    assert(forall|i: int| 0 <= i < tiles@.len() ==> (#[trigger] tiles@[i]).data@.len() == len);
    let init = init_centroids(tiles, kk, len);
    let mut centroids: Vec<RgbaBuffer> = Vec::with_capacity(kk);
    let mut c: usize = 0;
    while c < kk
        invariant
            kk == init@.len(),
            ts == tile_bytes(tiles@),
            uniform_tiles(tiles@, tw as int, th as int),
            forall|t: int| 0 <= t < init@.len() ==> #[trigger] init@[t] < tiles@.len(),
            c <= kk,
            centroids@.len() == c,
            uniform_tiles(centroids@, tw as int, th as int),
            tile_bytes(centroids@) == init@.take(c as int).map_values(|i: usize| ts[i as int]),
        decreases kk - c,
    {
        let copy = tiles[init[c]].clone_buffer();
        assert(ts[init@[c as int] as int] == tiles@[init@[c as int] as int].data@);
        let ghost before = centroids@;
        centroids.push(copy);
        assert(tile_bytes(centroids@) =~= tile_bytes(before).push(copy.data@));
        assert(init@.take(c + 1).map_values(|i: usize| ts[i as int])
            =~= init@.take(c as int).map_values(|i: usize| ts[i as int]).push(ts[init@[c as int] as int]));
        c = c + 1;
    }
    let ghost init_cents = init@.map_values(|c: usize| ts[c as int]);
    assert(init@.take(kk as int) =~= init@);
    assert(tile_bytes(centroids@) =~= init_cents);
    let mut assignments: Vec<usize> = Vec::with_capacity(n);
    let mut i: usize = 0;
    while i < n
        invariant
            i <= n,
            assignments@ == Seq::new(i as nat, |q: int| 0usize),
        decreases n - i,
    {
        assignments.push(0);
        i = i + 1;
        assert(assignments@ =~= Seq::new(i as nat, |q: int| 0usize));
    }
    let ghost zeros = Seq::new(n as nat, |q: int| 0usize);
    let ghost goal = lloyd(ts, init_cents, zeros, len as int, KMEANS_ROUNDS as nat);
    let mut round: usize = 0;
    while round < KMEANS_ROUNDS
        invariant
            n == tiles@.len(),
            n > 0,
            len == tw as int * th as int * 4,
            kk == centroids@.len(),
            kk >= 1,
            ts == tile_bytes(tiles@),
            uniform_tiles(tiles@, tw as int, th as int),
            uniform_tiles(centroids@, tw as int, th as int),
            assignments@.len() == n,
            forall|q: int| 0 <= q < n ==> #[trigger] assignments@[q] < kk,
            round <= KMEANS_ROUNDS,
            goal == lloyd(ts, tile_bytes(centroids@), assignments@, len as int, (KMEANS_ROUNDS - round) as nat),
        ensures
            kk == centroids@.len(),
            uniform_tiles(centroids@, tw as int, th as int),
            assignments@.len() == n,
            forall|q: int| 0 <= q < n ==> #[trigger] assignments@[q] < kk,
            goal == (tile_bytes(centroids@), assignments@),
        decreases KMEANS_ROUNDS - round,
    {
        let ghost cents = tile_bytes(centroids@);
        let mut next: Vec<usize> = Vec::with_capacity(n);
        let mut changed = false;
        let mut i: usize = 0;
        while i < n
            invariant
                n == tiles@.len(),
                len == tw as int * th as int * 4,
                kk == centroids@.len(),
                kk >= 1,
                cents == tile_bytes(centroids@),
                ts == tile_bytes(tiles@),
                uniform_tiles(tiles@, tw as int, th as int),
                uniform_tiles(centroids@, tw as int, th as int),
                assignments@.len() == n,
                i <= n,
                next@ == assign_all(ts, cents).take(i as int),
                forall|q: int| 0 <= q < i ==> #[trigger] next@[q] < kk,
                changed <==> exists|q: int| 0 <= q < i && next@[q] != assignments@[q],
            decreases n - i,
        {
            assert(forall|q: int| 0 <= q < centroids@.len() ==> (#[trigger] centroids@[q]).data@.len() == len);
            let a = nearest_centroid(&tiles[i], &centroids, len);
            if a != assignments[i] {
                changed = true;
            }
            next.push(a);
            i = i + 1;
            assert(next@ =~= assign_all(ts, cents).take(i as int));
        }
        assert(next@ =~= assign_all(ts, cents));
        if !changed {
            assert(next@ =~= assignments@);
            break;
        }
        assert(next@ != assignments@);
        assignments = next;
        let mut new_cents: Vec<RgbaBuffer> = Vec::with_capacity(kk);
        let mut c: usize = 0;
        while c < kk
            invariant
                n == tiles@.len(),
                len == tw as int * th as int * 4,
                kk == centroids@.len(),
                cents == tile_bytes(centroids@),
                ts == tile_bytes(tiles@),
                uniform_tiles(tiles@, tw as int, th as int),
                uniform_tiles(centroids@, tw as int, th as int),
                assignments@.len() == n,
                c <= kk,
                new_cents@.len() == c,
                uniform_tiles(new_cents@, tw as int, th as int),
                tile_bytes(new_cents@) == update_centroids(ts, assignments@, cents, len as int).take(c as int),
            decreases kk - c,
        {
            let members = cluster_indices(&assignments, c);
            let ghost upd = update_centroids(ts, assignments@, cents, len as int);
            let ghost before = new_cents@;
            if members.len() == 0 {
                let copy = centroids[c].clone_buffer();
                assert(cents[c as int] == centroids@[c as int].data@);
                new_cents.push(copy);
            } else {
                let mean = mean_of_cells(tiles, &members, tw, th);
                new_cents.push(mean);
            }
            assert(new_cents@[c as int].data@ == upd[c as int]);
            assert(tile_bytes(new_cents@) =~= tile_bytes(before).push(upd[c as int]));
            assert(upd.take(c + 1) =~= upd.take(c as int).push(upd[c as int]));
            c = c + 1;
        }
        assert(update_centroids(ts, assignments@, cents, len as int).take(kk as int)
            =~= update_centroids(ts, assignments@, cents, len as int));
        centroids = new_cents;
        round = round + 1;
    }
    let ghost fin_cents = tile_bytes(centroids@);
    let mut bases: Vec<RgbaBuffer> = Vec::with_capacity(kk);
    let mut c: usize = 0;
    while c < kk
        invariant
            n == tiles@.len(),
            len == tw as int * th as int * 4,
            kk == centroids@.len(),
            fin_cents == tile_bytes(centroids@),
            ts == tile_bytes(tiles@),
            uniform_tiles(tiles@, tw as int, th as int),
            uniform_tiles(centroids@, tw as int, th as int),
            assignments@.len() == n,
            forall|q: int| 0 <= q < n ==> #[trigger] assignments@[q] < kk,
            c <= kk,
            bases@.len() == c,
            uniform_tiles(bases@, tw as int, th as int),
            forall|q: int| 0 <= q < c ==> {
                if cluster(assignments@, q).len() == 0 {
                    #[trigger] tile_bytes(bases@)[q] == fin_cents[q]
                } else {
                    is_base_tile(ts, cluster(assignments@, q), len as int, *mode, tile_bytes(bases@)[q])
                }
            },
        decreases kk - c,
    {
        let members = cluster_indices(&assignments, c);
        let ghost before = bases@;
        if members.len() == 0 {
            let copy = centroids[c].clone_buffer();
            assert(fin_cents[c as int] == centroids@[c as int].data@);
            bases.push(copy);
            assert(bases@[c as int].data@ == fin_cents[c as int]);
        } else {
            let base = base_of_cells(tiles, &members, tw, th, mode);
            bases.push(base);
            assert(is_base_tile(ts, cluster(assignments@, c as int), len as int, *mode, bases@[c as int].data@));
        }
        assert(tile_bytes(bases@) =~= tile_bytes(before).push(bases@[c as int].data@));
        c = c + 1;
    }
    proof {
        assert(init_cents == init@.map_values(|c: usize| ts[c as int]));
        assert(zeros == Seq::new(ts.len(), |i: int| 0usize));
        assert(goal == (fin_cents, assignments@));
        let bs = tile_bytes(bases@);
        assert(kmeans_outcome(ts, init@, len as int, *mode, bs, assignments@));
        assert(is_farthest_first(ts, init@, bases@.len() as int));
        assert(is_kmeans_result(ts, len as int, *mode, bs, assignments@));
    }
    (bases, assignments)
}

/// The base layers and detail layer of a tiled image.
pub struct LayerDecomposition {
    /// One base tile per cluster; a single element when one base was asked for
    pub bases: Vec<RgbaBuffer>,
    /// Cluster of each in-bounds cell, in row-major order
    pub base_assignments: Vec<u32>,
    /// One slot per grid cell (rows x columns, with one-pixel gutters): the
    /// pixels of each in-bounds cell that differ enough from its base, the
    /// others transparent
    pub detail_atlas: RgbaBuffer,
    pub tile_width: u32,
    pub tile_height: u32,
    pub columns: u32,
    pub rows: u32,
    pub total_cells: u32,
}

/// Sum of absolute channel differences of the pixels at byte offset `o`.
pub open spec fn pixel_diff_at(a: Seq<u8>, b: Seq<u8>, o: int) -> int {
    abs_diff_total(a.subrange(o, o + 4), b.subrange(o, o + 4))
}

/// The detail of a cell over its base: each pixel whose channels differ
/// from the base pixel by more than `limit` in total keeps its colour, every
/// other pixel becomes transparent black.
pub open spec fn detail_bytes(tile: Seq<u8>, base: Seq<u8>, limit: i32) -> Seq<u8> {
    Seq::new(tile.len(), |j: int| if pixel_diff_at(tile, base, (j / 4) * 4) > limit { tile[j] } else { 0u8 })
}

/// The detail of a cell over its base keeps a pixel exactly where the
/// pixel's channels differ from the base by more than the limit in total,
/// and a pixel equal to the base pixel is transparent for any limit that is
/// not negative.
pub proof fn lemma_detail_pixel(tile: Seq<u8>, base: Seq<u8>, limit: i32, q: int)
    requires
        tile.len() == base.len(),
        0 <= q,
        q * 4 + 4 <= tile.len(),
    ensures
        pixel_diff_at(tile, base, q * 4) > limit ==>
            detail_bytes(tile, base, limit).subrange(q * 4, q * 4 + 4) == tile.subrange(q * 4, q * 4 + 4),
        pixel_diff_at(tile, base, q * 4) <= limit ==>
            detail_bytes(tile, base, limit).subrange(q * 4, q * 4 + 4) == seq![0u8, 0u8, 0u8, 0u8],
        tile.subrange(q * 4, q * 4 + 4) == base.subrange(q * 4, q * 4 + 4) && limit >= 0 ==>
            detail_bytes(tile, base, limit).subrange(q * 4, q * 4 + 4) == seq![0u8, 0u8, 0u8, 0u8],
{
    let d = detail_bytes(tile, base, limit);
    vstd::arithmetic::div_mod::lemma_fundamental_div_mod_converse(q * 4, 4, q, 0);
    vstd::arithmetic::div_mod::lemma_fundamental_div_mod_converse(q * 4 + 1, 4, q, 1);
    vstd::arithmetic::div_mod::lemma_fundamental_div_mod_converse(q * 4 + 2, 4, q, 2);
    vstd::arithmetic::div_mod::lemma_fundamental_div_mod_converse(q * 4 + 3, 4, q, 3);
    if tile.subrange(q * 4, q * 4 + 4) == base.subrange(q * 4, q * 4 + 4) {
        crate::stats::lemma_abs_diff_zero_iff_equal(tile.subrange(q * 4, q * 4 + 4), base.subrange(q * 4, q * 4 + 4));
    }
    if pixel_diff_at(tile, base, q * 4) > limit {
        assert(d.subrange(q * 4, q * 4 + 4) =~= tile.subrange(q * 4, q * 4 + 4));
    } else {
        assert(d.subrange(q * 4, q * 4 + 4) =~= seq![0u8, 0u8, 0u8, 0u8]);
    }
}

/// Sum of absolute channel differences of the pixels at byte offset `o`.
fn pixel_diff(a: &Vec<u8>, b: &Vec<u8>, o: usize) -> (d: u32)
    requires
        o + 4 <= a@.len(),
        o + 4 <= b@.len(),
    ensures
        d == pixel_diff_at(a@, b@, o as int),
{
    let la = a.len();
    let mut d: u32 = 0;
    let mut c: usize = 0;
    while c < 4
        invariant
            la == a@.len(),
            o + 4 <= a@.len(),
            o + 4 <= b@.len(),
            c <= 4,
            d == abs_diff_upto(a@.subrange(o as int, o + 4), b@.subrange(o as int, o + 4), c as int),
            d <= 255 * c,
        decreases 4 - c,
    {
        let x = a[o + c];
        let y = b[o + c];
        let e: u8 = if x >= y { x - y } else { y - x };
        d = d + e as u32;
        c = c + 1;
    }
    d
}

/// The detail of `tile` over `base` (see `detail_bytes`).
fn detail_tile(tile: &RgbaBuffer, base: &RgbaBuffer, limit: i32) -> (out: RgbaBuffer)
    requires
        tile.wf(),
        base.data@.len() == tile.data@.len(),
    ensures
        out.wf(),
        out.width == tile.width,
        out.height == tile.height,
        out.data@ == detail_bytes(tile.data@, base.data@, limit),
{
    let n = tile.data.len();
    let ghost target = detail_bytes(tile.data@, base.data@, limit);
    let mut data: Vec<u8> = Vec::with_capacity(n);
    let mut q: usize = 0;
    assert(n % 4 == 0) by {
        vstd::arithmetic::div_mod::lemma_fundamental_div_mod_converse(n as int, 4, tile.width as int * tile.height as int, 0);
    }
    while q < n / 4
        invariant
            n == tile.data@.len(),
            n == base.data@.len(),
            n % 4 == 0,
            target == detail_bytes(tile.data@, base.data@, limit),
            q <= n / 4,
            data@ == target.take(q as int * 4),
        decreases n / 4 - q,
    {
        let o = q * 4;
        let d = pixel_diff(&tile.data, &base.data, o);
        let keep = (d as i64) > (limit as i64);
        let ghost before = data@;
        if keep {
            data.push(tile.data[o]);
            data.push(tile.data[o + 1]);
            data.push(tile.data[o + 2]);
            data.push(tile.data[o + 3]);
        } else {
            data.push(0);
            data.push(0);
            data.push(0);
            data.push(0);
        }
        proof {
            vstd::arithmetic::div_mod::lemma_fundamental_div_mod_converse(o as int, 4, q as int, 0);
            vstd::arithmetic::div_mod::lemma_fundamental_div_mod_converse(o + 1, 4, q as int, 1);
            vstd::arithmetic::div_mod::lemma_fundamental_div_mod_converse(o + 2, 4, q as int, 2);
            vstd::arithmetic::div_mod::lemma_fundamental_div_mod_converse(o + 3, 4, q as int, 3);
            assert(data@ =~= target.take(o + 4));
        }
        q = q + 1;
    }
    assert(target.take(n as int) =~= target);
    RgbaBuffer { width: tile.width, height: tile.height, data }
}

/// Index in `pos` of the cell at grid `(r, c)`.
pub open spec fn cell_slot_index(pos: Seq<(u32, u32)>, r: int, c: int) -> int {
    choose|j: int| 0 <= j < pos.len() && pos[j].0 == r && pos[j].1 == c
}

/// One of the first `done` cells of `pos` is the cell at grid `(r, c)`.
pub open spec fn cell_listed(pos: Seq<(u32, u32)>, done: int, r: int, c: int) -> bool {
    exists|j: int| 0 <= j < done && (#[trigger] pos[j]).0 == r && pos[j].1 == c
}

/// Byte `ch` of pixel `(x, y)` of the detail atlas once the details of the
/// first `done` cells (at grid positions `pos`) are drawn into their slots.
pub open spec fn detail_atlas_byte(
    pos: Seq<(u32, u32)>,
    details: Seq<Seq<u8>>,
    done: int,
    tw: int,
    th: int,
    x: int,
    y: int,
    ch: int,
) -> u8 {
    if inside_slot(x, tw) && inside_slot(y, th) && cell_listed(pos, done, slot_of(y, th), slot_of(x, tw)) {
        details[cell_slot_index(pos, slot_of(y, th), slot_of(x, tw))][pixel_offset(tw, slot_pos(x, tw), slot_pos(y, th)) + ch]
    } else {
        background()[ch]
    }
}

/// The detail bytes of every cell over the base of its cluster.
pub open spec fn cell_details(ts: Seq<Seq<u8>>, bases: Seq<Seq<u8>>, assign: Seq<u32>, limit: i32) -> Seq<Seq<u8>> {
    Seq::new(ts.len(), |j: int| detail_bytes(ts[j], bases[assign[j] as int], limit))
}

/// In the detail layer, a pixel of cell `j` keeps its colour exactly when
/// the absolute differences of its four channels (red, green, blue and
/// alpha) to the base pixel of the cell's cluster add up to more than the
/// limit; otherwise it is transparent black.
pub proof fn lemma_cell_detail_channels(ts: Seq<Seq<u8>>, bases: Seq<Seq<u8>>, assign: Seq<u32>, limit: i32, j: int, q: int)
    requires
        0 <= j < ts.len(),
        ts[j].len() == bases[assign[j] as int].len(),
        0 <= q,
        q * 4 + 4 <= ts[j].len(),
    ensures
        ({
            let t = ts[j];
            let b = bases[assign[j] as int];
            let o = q * 4;
            let d = (if t[o] >= b[o] { t[o] - b[o] } else { b[o] - t[o] })
                + (if t[o + 1] >= b[o + 1] { t[o + 1] - b[o + 1] } else { b[o + 1] - t[o + 1] })
                + (if t[o + 2] >= b[o + 2] { t[o + 2] - b[o + 2] } else { b[o + 2] - t[o + 2] })
                + (if t[o + 3] >= b[o + 3] { t[o + 3] - b[o + 3] } else { b[o + 3] - t[o + 3] });
            cell_details(ts, bases, assign, limit)[j].subrange(o, o + 4)
                == if d > limit { t.subrange(o, o + 4) } else { seq![0u8, 0u8, 0u8, 0u8] }
        }),
{
    let t = ts[j];
    let b = bases[assign[j] as int];
    let o = q * 4;
    let ta = t.subrange(o, o + 4);
    let ba = b.subrange(o, o + 4);
    reveal_with_fuel(abs_diff_upto, 5);
    assert(ta[0] == t[o] && ta[1] == t[o + 1] && ta[2] == t[o + 2] && ta[3] == t[o + 3]);
    assert(ba[0] == b[o] && ba[1] == b[o + 1] && ba[2] == b[o + 2] && ba[3] == b[o + 3]);
    lemma_detail_pixel(t, b, limit, q);
    assert(cell_details(ts, bases, assign, limit)[j] == detail_bytes(t, b, limit));
}

/// Splits the detected grid into base layers and a per-cell detail layer.
///
/// The image is first reduced to `n_colors` colours when that is not zero.
/// With one base (`n_bases <= 1`, or no in-bounds cell) the base is the
/// per-pixel mode or median of all cells; otherwise k-means clustering
/// groups the cells into `min(n_bases, cells)` clusters with a base each.
/// In the detail atlas each cell keeps the pixels whose summed channel
/// difference to its base exceeds `detail_limit`.
pub fn decompose_layers(
    img: &RgbaBuffer,
    g: &GridGeometry,
    mode: LayerBaseMode,
    detail_limit: i32,
    n_colors: u32,
    n_bases: u32,
) -> (d: LayerDecomposition)
    requires
        img.wf(),
        grid_arith_fits(*g, img.width as int),
        at_least_one(g.tile_width) as int * at_least_one(g.tile_height) as int * 4 <= usize::MAX,
        at_least_one(g.tile_width) < u32::MAX,
        at_least_one(g.tile_height) < u32::MAX,
        packed_extent(g.columns as int, at_least_one(g.tile_width) as int) <= u32::MAX,
        packed_extent(g.rows as int, at_least_one(g.tile_height) as int) <= u32::MAX,
        packed_extent(g.columns as int, at_least_one(g.tile_width) as int)
            * packed_extent(g.rows as int, at_least_one(g.tile_height) as int) * 4 <= usize::MAX,
    ensures
        ({
            let ts = cell_seqs(img.width as int, img.height as int, working_bytes(*img, n_colors), *g);
            let tw = at_least_one(g.tile_width) as int;
            let th = at_least_one(g.tile_height) as int;
            let len = tw * th * 4;
            let assign = d.base_assignments@;
            &&& d.tile_width == tw
            &&& d.tile_height == th
            &&& d.columns == g.columns
            &&& d.rows == g.rows
            &&& d.total_cells == ts.len() as u32
            &&& uniform_tiles(d.bases@, tw, th)
            &&& assign.len() == ts.len()
            &&& forall|j: int| 0 <= j < assign.len() ==> #[trigger] assign[j] < d.bases@.len()
            &&& if n_bases <= 1 || ts.len() == 0 {
                &&& d.bases@.len() == 1
                &&& forall|j: int| 0 <= j < assign.len() ==> #[trigger] assign[j] == 0
                &&& is_base_tile(ts, Seq::new(ts.len(), |i: int| i as usize), len, mode, d.bases@[0].data@)
            } else {
                &&& d.bases@.len() == (if n_bases < ts.len() { n_bases as int } else { ts.len() as int })
                &&& is_kmeans_result(ts, len, mode, tile_bytes(d.bases@), assign.map_values(|a: u32| a as usize))
            }
            &&& d.detail_atlas.wf()
            &&& d.detail_atlas.width == packed_extent(g.columns as int, tw)
            &&& d.detail_atlas.height == packed_extent(g.rows as int, th)
            &&& forall|x: int, y: int, ch: int|
                0 <= x < d.detail_atlas.width && 0 <= y < d.detail_atlas.height && 0 <= ch < 4 ==>
                #[trigger] d.detail_atlas.byte_at(x, y, ch) == detail_atlas_byte(
                    grid_cells(*g, img.width as int, img.height as int),
                    cell_details(ts, tile_bytes(d.bases@), assign, detail_limit),
                    ts.len() as int,
                    tw,
                    th,
                    x,
                    y,
                    ch,
                )
        }),
{
    let work = quantize_image(img, n_colors);
    let tw: u32 = if g.tile_width == 0 { 1 } else { g.tile_width };
    let th: u32 = if g.tile_height == 0 { 1 } else { g.tile_height };
    let cols = g.columns;
    let rows = g.rows;
    let ghost cells_spec = grid_cells(*g, img.width as int, img.height as int);
    let ghost ts = cell_seqs(img.width as int, img.height as int, working_bytes(*img, n_colors), *g);
    let len: usize = (tw as usize) * (th as usize) * 4;
    let cells = extract_all_tiles(&work, g);
    let (pos, tiles) = split_cells(cells);
    let n = tiles.len();
    proof {
        lemma_grid_cells(*g, img.width as int, img.height as int, g.rows as int);
        assert(tile_bytes(tiles@) =~= ts) by {
            assert forall|k: int| 0 <= k < ts.len() implies tile_bytes(tiles@)[k] == ts[k] by {
                assert(is_cell_tile(work, *g, cells_spec[k], tiles@[k]));
            }
        }
        assert forall|k: int| 0 <= k < n implies #[trigger] pos@[k] == cells_spec[k] by {}
        assert(pos@ =~= cells_spec);
        assert(uniform_tiles(tiles@, tw as int, th as int)) by {
            assert forall|k: int| 0 <= k < n implies {
                &&& (#[trigger] tiles@[k]).wf()
                &&& tiles@[k].width == tw
                &&& tiles@[k].height == th
            } by {
                assert(is_cell_tile(work, *g, cells_spec[k], tiles@[k]));
            }
        }
    }
    let k: usize = if n_bases < 1 { 1 } else { n_bases as usize };
    let bases: Vec<RgbaBuffer>;
    let assignments: Vec<usize>;
    if k == 1 || n == 0 {
        let mut all: Vec<usize> = Vec::with_capacity(n);
        let mut zeros: Vec<usize> = Vec::with_capacity(n);
        let mut i: usize = 0;
        while i < n
            invariant
                i <= n,
                all@ == Seq::new(i as nat, |q: int| q as usize),
                zeros@ == Seq::new(i as nat, |q: int| 0usize),
            decreases n - i,
        {
            all.push(i);
            zeros.push(0);
            i = i + 1;
            assert(all@ =~= Seq::new(i as nat, |q: int| q as usize));
            assert(zeros@ =~= Seq::new(i as nat, |q: int| 0usize));
        }
        let base = base_of_cells(&tiles, &all, tw, th, &mode);
        let mut bs: Vec<RgbaBuffer> = Vec::new();
        bs.push(base);
        bases = bs;
        assignments = zeros;
    } else {
        let (bs, asg) = kmeans_tiles(&tiles, k, tw, th, &mode);
        bases = bs;
        assignments = asg;
    }
    let ghost base_bytes = tile_bytes(bases@);

    // Cluster indices as u32.
    let mut base_assignments: Vec<u32> = Vec::with_capacity(n);
    let mut i: usize = 0;
    while i < n
        invariant
            n == assignments@.len(),
            forall|q: int| 0 <= q < n ==> #[trigger] assignments@[q] < bases@.len(),
            bases@.len() <= u32::MAX,
            i <= n,
            base_assignments@.len() == i,
            forall|q: int| 0 <= q < i ==> #[trigger] base_assignments@[q] as usize == assignments@[q],
        decreases n - i,
    {
        base_assignments.push(assignments[i] as u32);
        i = i + 1;
    }
    assert(base_assignments@.map_values(|a: u32| a as usize) =~= assignments@);

    // Draw the detail of every cell into its slot.
    let ghost details = cell_details(ts, base_bytes, base_assignments@, detail_limit);
    assert(cols * (tw + 1) <= u32::MAX && rows * (th + 1) <= u32::MAX);
    let aw: u32 = cols * (tw + 1) + 1;
    let ah: u32 = rows * (th + 1) + 1;
    let mut atlas = RgbaBuffer::from_pixel(aw, ah, [28u8, 28u8, 32u8, 255u8]);
    assert(seq![28u8, 28u8, 32u8, 255u8] == background());
    proof {
        assert forall|x: int, y: int, ch: int| 0 <= x < aw && 0 <= y < ah && 0 <= ch < 4 implies
            #[trigger] atlas.byte_at(x, y, ch) == detail_atlas_byte(pos@, details, 0, tw as int, th as int, x, y, ch) by {
            lemma_pixel_offset_bounds(aw as int, ah as int, x, y);
            assert(atlas.pixel(x, y) == background());
        }
    }
    let mut j: usize = 0;
    while j < n
        invariant
            n == tiles@.len(),
            n == pos@.len(),
            n == base_assignments@.len(),
            pos@ == cells_spec,
            ts == tile_bytes(tiles@),
            base_bytes == tile_bytes(bases@),
            details == cell_details(ts, base_bytes, base_assignments@, detail_limit),
            uniform_tiles(tiles@, tw as int, th as int),
            uniform_tiles(bases@, tw as int, th as int),
            forall|q: int| 0 <= q < n ==> #[trigger] base_assignments@[q] < bases@.len(),
            forall|q: int| 0 <= q < cells_spec.len() ==> (#[trigger] cells_spec[q]).0 < rows && cells_spec[q].1 < cols,
            forall|a: int, b: int| 0 <= a < b < cells_spec.len() ==> {
                let ra = #[trigger] cells_spec[a];
                let rb = #[trigger] cells_spec[b];
                ra.0 < rb.0 || (ra.0 == rb.0 && ra.1 < rb.1)
            },
            cols == g.columns,
            rows == g.rows,
            tw >= 1,
            th >= 1,
            aw as int == packed_extent(cols as int, tw as int),
            ah as int == packed_extent(rows as int, th as int),
            j <= n,
            atlas.wf(),
            atlas.width == aw,
            atlas.height == ah,
            forall|x: int, y: int, ch: int| 0 <= x < aw && 0 <= y < ah && 0 <= ch < 4 ==>
                #[trigger] atlas.byte_at(x, y, ch) == detail_atlas_byte(pos@, details, j as int, tw as int, th as int, x, y, ch),
        decreases n - j,
    {
        let (r, c) = pos[j];
        let a = base_assignments[j] as usize;
        let detail = detail_tile(&tiles[j], &bases[a], detail_limit);
        assert(detail.data@ == details[j as int]);
        proof {
            lemma_slot_within(c as int, cols as int, tw as int);
            lemma_slot_within(r as int, rows as int, th as int);
        }
        let x0: u32 = 1 + c * (tw + 1);
        let y0: u32 = 1 + r * (th + 1);
        atlas.blit(x0, y0, &detail);
        proof {
            assert forall|x: int, y: int, ch: int| 0 <= x < aw && 0 <= y < ah && 0 <= ch < 4 implies
                #[trigger] atlas.byte_at(x, y, ch) == detail_atlas_byte(pos@, details, j + 1, tw as int, th as int, x, y, ch) by {
                lemma_slot_range(x, c as int, tw as int);
                lemma_slot_range(y, r as int, th as int);
                let in_rect = x0 <= x < x0 + tw && y0 <= y < y0 + th;
                if in_rect {
                    lemma_slot_decode(c as int, tw as int, x - x0);
                    lemma_slot_decode(r as int, th as int, y - y0);
                    assert(cell_listed(pos@, j + 1, r as int, c as int)) by {
                        assert(pos@[j as int].0 == r && pos@[j as int].1 == c);
                    }
                    let w = cell_slot_index(pos@, r as int, c as int);
                    if w != j {
                        if w < j {
                            assert(pos@[w] == cells_spec[w]);
                        } else {
                            assert(pos@[w] == cells_spec[w]);
                        }
                    }
                } else {
                    if inside_slot(x, tw as int) && inside_slot(y, th as int)
                        && cell_listed(pos@, j + 1, slot_of(y, th as int), slot_of(x, tw as int)) {
                        let w = choose|w: int| 0 <= w < j + 1 && (#[trigger] pos@[w]).0 == slot_of(y, th as int)
                            && pos@[w].1 == slot_of(x, tw as int);
                        if w == j {
                            lemma_slot_encode(x, tw as int);
                            lemma_slot_encode(y, th as int);
                            assert(false);
                        }
                        assert(cell_listed(pos@, j as int, slot_of(y, th as int), slot_of(x, tw as int)));
                    }
                }
            }
        }
        j = j + 1;
    }
    LayerDecomposition {
        bases,
        base_assignments,
        detail_atlas: atlas,
        tile_width: tw,
        tile_height: th,
        columns: cols,
        rows,
        total_cells: #[verifier::truncate] (n as u32),
    }
}

} // verus!
