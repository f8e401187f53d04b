//! The integer decisions of grid detection: which inputs can be searched,
//! how many cells an axis holds, how two axis fits combine into a grid, and
//! where the margin of a tile lies.
use vstd::prelude::*;
use crate::tiles::GridGeometry;

verus! {

/// Why a detection request cannot be searched.
#[derive(Debug, Clone, Copy, PartialEq, Eq, Structural)]
pub enum DetectInputError {
    /// The largest stride to try is below the smallest.
    StrideBoundsInverted { min_stride: u32, max_stride: u32 },
    /// The image holds fewer than two of the smallest strides along an axis.
    ImageTooSmall { width: u32, height: u32, min_stride: u32 },
}

/// The answer owed to a detection request for an image of the given size.
pub open spec fn detect_input_verdict(min_stride: u32, max_stride: Option<u32>, width: u32, height: u32) -> Result<(), DetectInputError> {
    if max_stride is Some && max_stride->0 < min_stride {
        Err(DetectInputError::StrideBoundsInverted { min_stride, max_stride: max_stride->0 })
    } else if width < 2 * min_stride || height < 2 * min_stride {
        Err(DetectInputError::ImageTooSmall { width, height, min_stride })
    } else {
        Ok(())
    }
}

/// Checks that a detection request can be searched: the stride bounds are
/// in order, and the image holds two of the smallest strides on each axis.
pub fn check_detect_input(min_stride: u32, max_stride: Option<u32>, width: u32, height: u32) -> (r: Result<(), DetectInputError>)
    requires
        !(max_stride is Some && max_stride->0 < min_stride) ==> 2 * min_stride <= u32::MAX,
    ensures
        r == detect_input_verdict(min_stride, max_stride, width, height),
{
    if let Some(max) = max_stride {
        if max < min_stride {
            return Err(DetectInputError::StrideBoundsInverted { min_stride, max_stride: max });
        }
    }
    let need = min_stride * 2;
    if width < need || height < need {
        return Err(DetectInputError::ImageTooSmall { width, height, min_stride });
    }
    Ok(())
}

/// The number of whole strides between the offset and the end of an axis.
pub open spec fn axis_count(len: int, offset: int, stride: int) -> int {
    if len > offset { (len - offset) / stride } else { 0 }
}

/// The period found along one axis: stride, phase, and the split of each
/// stride into tile and margin.
#[derive(Debug, Clone, Copy, PartialEq, Eq, Structural)]
pub struct AxisFit {
    pub stride: u32,
    pub offset: u32,
    pub tile_size: u32,
    pub margin: u32,
}

/// The grid made of two axis fits over an image of the given size, when
/// each axis holds at least two cells.
pub open spec fn grid_of(xc: AxisFit, yc: AxisFit, w: u32, h: u32) -> Option<GridGeometry> {
    let columns = axis_count(w as int, xc.offset as int, xc.stride as int);
    let rows = axis_count(h as int, yc.offset as int, yc.stride as int);
    if columns < 2 || rows < 2 {
        None
    } else {
        Some(GridGeometry {
            tile_width: xc.tile_size,
            tile_height: yc.tile_size,
            stride_x: xc.stride,
            stride_y: yc.stride,
            offset_x: xc.offset,
            offset_y: yc.offset,
            margin_x: xc.margin,
            margin_y: yc.margin,
            columns: columns as u32,
            rows: rows as u32,
        })
    }
}

/// Combines the fits of the two axes into a grid, or `None` where either
/// axis holds fewer than two cells.
pub fn build_grid(xc: &AxisFit, yc: &AxisFit, w: u32, h: u32) -> (out: Option<GridGeometry>)
    requires
        xc.stride > 0,
        yc.stride > 0,
    ensures
        out == grid_of(*xc, *yc, w, h),
{
    let columns = w.saturating_sub(xc.offset) / xc.stride;
    let rows = h.saturating_sub(yc.offset) / yc.stride;
    if columns < 2 || rows < 2 {
        return None;
    }
    Some(GridGeometry {
        tile_width: xc.tile_size,
        tile_height: yc.tile_size,
        stride_x: xc.stride,
        stride_y: yc.stride,
        offset_x: xc.offset,
        offset_y: yc.offset,
        margin_x: xc.margin,
        margin_y: yc.margin,
        columns,
        rows,
    })
}

/// The number of whole strides from `offset` to the end of an axis of
/// length `axis_len`, as a `u32`; zero for a zero stride or an offset past
/// the end.
pub fn coverage_count(axis_len: usize, stride: usize, offset: usize) -> (count: u32)
    ensures
        count == if stride == 0 || offset >= axis_len {
            0
        } else {
            ((axis_len - offset) / (stride as int)) % 0x1_0000_0000
        },
{
    if stride == 0 || offset >= axis_len {
        return 0;
    }
    let q = ((axis_len - offset) / stride) as u64;
    (q % 0x1_0000_0000u64) as u32
}

/// The number of `true` values at the end of `s`.
pub open spec fn trailing_run(s: Seq<bool>) -> nat
    decreases s.len(),
{
    if s.len() == 0 {
        0
    } else if s.last() {
        trailing_run(s.drop_last()) + 1
    } else {
        0
    }
}

/// The number of `true` values at the start of `s`.
pub open spec fn leading_run(s: Seq<bool>) -> nat
    decreases s.len(),
{
    if s.len() == 0 {
        0
    } else if s[0] {
        leading_run(s.drop_first()) + 1
    } else {
        0
    }
}

/// The number of positions `i` in `start .. start + len` inside `s` where `s[i]` holds.
pub open spec fn hits_in(s: Seq<bool>, start: int, len: int) -> nat
    decreases len,
{
    if len <= 0 {
        0
    } else {
        let i = start + len - 1;
        hits_in(s, start, len - 1) + if 0 <= i < s.len() && s[i] { 1nat } else { 0nat }
    }
}

/// The smaller of two integers.
pub open spec fn min_int(a: int, b: int) -> int {
    if a <= b { a } else { b }
}

/// The split of a stride whose positions are marked margin-like by
/// `is_margin`, with margins of at most `limit` positions: the longer of
/// the margin-like run at the end and the one at the start (the end on a
/// tie), as `(tile size, margin, marked positions inside the margin)`; a
/// margin of zero leaves the whole stride to the tile.
pub open spec fn margin_split(is_margin: Seq<bool>, limit: int) -> (int, int, int) {
    let n = is_margin.len() as int;
    let t = min_int(trailing_run(is_margin) as int, limit);
    let l = min_int(leading_run(is_margin) as int, limit);
    let best = if t >= l { t } else { l };
    let start = if t >= l { n - t } else { 0 };
    if best == 0 || n - best == 0 {
        (n, 0, 0)
    } else {
        (n - best, best, hits_in(is_margin, start, best) as int)
    }
}

/// The last `k` positions of `s` are all marked.
proof fn lemma_trailing_run(s: Seq<bool>, k: int)
    requires
        0 <= k <= trailing_run(s),
    ensures
        k <= s.len(),
        forall|i: int| s.len() - k <= i < s.len() ==> s[i],
    decreases s.len(),
{
    if k > 0 {
        lemma_trailing_run(s.drop_last(), k - 1);
        assert forall|i: int| s.len() - k <= i < s.len() implies s[i] by {
            if i < s.len() - 1 {
                assert(s.drop_last()[i] == s[i]);
            }
        }
    }
}

/// The first `k` positions of `s` are all marked.
proof fn lemma_leading_run(s: Seq<bool>, k: int)
    requires
        0 <= k <= leading_run(s),
    ensures
        k <= s.len(),
        forall|i: int| 0 <= i < k ==> s[i],
    decreases s.len(),
{
    if k > 0 {
        lemma_leading_run(s.drop_first(), k - 1);
        assert forall|i: int| 0 <= i < k implies s[i] by {
            if i > 0 {
                assert(s.drop_first()[i - 1] == s[i]);
            }
        }
    }
}

/// Inside a run of marked positions, every position is a hit.
proof fn lemma_hits_all(s: Seq<bool>, start: int, len: int)
    requires
        0 <= start,
        0 <= len,
        start + len <= s.len(),
        forall|i: int| start <= i < start + len ==> s[i],
    ensures
        hits_in(s, start, len) == len,
    decreases len,
{
    if len > 0 {
        lemma_hits_all(s, start, len - 1);
    }
}

/// The margin chosen lies inside a run of margin-like positions, so every
/// position of it is marked.
pub proof fn lemma_margin_fully_marked(is_margin: Seq<bool>, limit: int)
    requires
        limit >= 0,
    ensures
        margin_split(is_margin, limit).1 > 0 ==> margin_split(is_margin, limit).2 == margin_split(is_margin, limit).1,
        0 <= margin_split(is_margin, limit).1 <= limit,
        margin_split(is_margin, limit).0 + margin_split(is_margin, limit).1 == is_margin.len(),
{
    let n = is_margin.len() as int;
    let t = min_int(trailing_run(is_margin) as int, limit);
    let l = min_int(leading_run(is_margin) as int, limit);
    lemma_trailing_run(is_margin, t);
    lemma_leading_run(is_margin, l);
    if t >= l {
        lemma_hits_all(is_margin, n - t, t);
    } else {
        lemma_hits_all(is_margin, 0, l);
    }
}

/// Chooses where the margin of a stride lies, from the positions that look
/// like margin: the longer margin-like run at the end or at the start of
/// the stride (the end on a tie), cut to `limit`. Returns the tile size,
/// the margin, and how many positions of the margin are marked.
pub fn choose_margin(is_margin: &[bool], limit: usize) -> (r: (usize, usize, usize))
    ensures
        r.0 == margin_split(is_margin@, limit as int).0,
        r.1 == margin_split(is_margin@, limit as int).1,
        r.2 == margin_split(is_margin@, limit as int).2,
{
    let n = is_margin.len();
    let ghost s = is_margin@;

    // Trailing run.
    let mut t: usize = 0;
    assert(s.subrange(0, n as int) =~= s);
    while t < n && is_margin[n - 1 - t]
        invariant
            s == is_margin@,
            n == s.len(),
            t <= n,
            trailing_run(s) >= t,
            forall|i: int| n - t <= i < n ==> s[i],
            trailing_run(s.subrange(0, n - t)) + t == trailing_run(s),
        decreases n - t,
    {
        proof {
            let p = s.subrange(0, n - t);
            assert(p.drop_last() =~= s.subrange(0, n - t - 1));
            assert(p.last() == s[n - 1 - t]);
        }
        t = t + 1;
    }
    proof {
        if t < n {
            let p = s.subrange(0, n - t);
            assert(p.last() == s[n - 1 - t]);
        } else {
            assert(s.subrange(0, 0).len() == 0);
        }
        assert(trailing_run(s.subrange(0, n - t)) == 0);
        assert(s.subrange(0, n as int) =~= s);
    }

    // Leading run.
    let mut l: usize = 0;
    assert(s.subrange(0, n as int) =~= s);
    while l < n && is_margin[l]
        invariant
            s == is_margin@,
            n == s.len(),
            l <= n,
            forall|i: int| 0 <= i < l ==> s[i],
            leading_run(s.subrange(l as int, n as int)) + l == leading_run(s),
        decreases n - l,
    {
        proof {
            let p = s.subrange(l as int, n as int);
            assert(p.drop_first() =~= s.subrange(l + 1, n as int));
            assert(p[0] == s[l as int]);
        }
        l = l + 1;
    }
    proof {
        if l < n {
            let p = s.subrange(l as int, n as int);
            assert(p[0] == s[l as int]);
        } else {
            assert(s.subrange(n as int, n as int).len() == 0);
        }
        assert(leading_run(s.subrange(l as int, n as int)) == 0);
        assert(s.subrange(0, n as int) =~= s);
    }

    let trailing = if t < limit { t } else { limit };
    let leading = if l < limit { l } else { limit };
    let (best, start) = if trailing >= leading { (trailing, n - trailing) } else { (leading, 0) };
    if best == 0 {
        return (n, 0, 0);
    }
    let tile = n - best;
    if tile == 0 {
        return (n, 0, 0);
    }
    let mut hits: usize = 0;
    let mut i: usize = start;
    while i < start + best
        invariant
            s == is_margin@,
            n == s.len(),
            best <= n,
            start + best <= n,
            start <= i <= start + best,
            hits == hits_in(s, start as int, i - start),
            hits <= i - start,
        decreases start + best - i,
    {
        if i < n && is_margin[i] {
            hits = hits + 1;
        }
        i = i + 1;
    }
    (tile, best, hits)
}

} // verus!
