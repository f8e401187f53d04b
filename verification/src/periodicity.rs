//! Expansion of stride candidates by their harmonics: for each period found
//! by the autocorrelation, its halves, thirds and quarters, its doubles,
//! triples and quadruples, and the periods next to it are tried too.
use vstd::prelude::*;
use std::collections::BTreeSet;
use crate::stride_set::{insert_if, sorted_elements, strictly_increasing};
use vstd::arithmetic::div_mod::lemma_small_mod;

verus! {

/// `x` lies within two places of one of the indices in `picked`.
pub open spec fn near_picked(picked: Seq<usize>, x: int) -> bool {
    exists|j: int| 0 <= j < picked.len() && -2 <= x - #[trigger] picked[j] <= 2
}

/// The picking is over: at least one index is picked, and no fewer than `top_n`.
pub open spec fn picking_done(picked: Seq<usize>, top_n: int) -> bool {
    picked.len() >= 1 && picked.len() >= top_n
}

/// The indices picked from the first `k` entries of `order`: an entry is
/// picked unless it lies within two places of one picked before, and the
/// picking stops once `top_n` (and at least one) are picked.
pub open spec fn peaks_upto(order: Seq<usize>, top_n: int, k: int) -> Seq<usize>
    decreases k,
{
    if k <= 0 {
        Seq::empty()
    } else {
        let p = peaks_upto(order, top_n, k - 1);
        if picking_done(p, top_n) || near_picked(p, order[k - 1] as int) {
            p
        } else {
            p.push(order[k - 1])
        }
    }
}

/// Once the picking is over, later entries change nothing.
proof fn lemma_peaks_done(order: Seq<usize>, top_n: int, k: int, k2: int)
    requires
        0 <= k <= k2,
        picking_done(peaks_upto(order, top_n, k), top_n),
    ensures
        peaks_upto(order, top_n, k2) == peaks_upto(order, top_n, k),
    decreases k2 - k,
{
    if k2 > k {
        lemma_peaks_done(order, top_n, k, k2 - 1);
    }
}

/// Picks peaks from indices listed best first: each index is taken unless
/// it lies within two places of one already taken, until `top_n` are taken
/// (at least one is taken when the list is not empty). Every index is
/// below `range`.
pub fn pick_peaks(order: &[usize], range: usize, top_n: usize) -> (picked: Vec<usize>)
    requires
        forall|i: int| 0 <= i < order@.len() ==> #[trigger] order@[i] < range,
    ensures
        picked@ == peaks_upto(order@, top_n as int, order@.len() as int),
{
    let mut suppressed: Vec<bool> = Vec::new();
    let mut f: usize = 0;
    while f < range
        invariant
            f <= range,
            suppressed@.len() == f,
            forall|x: int| 0 <= x < f ==> !suppressed@[x],
        decreases range - f,
    {
        suppressed.push(false);
        f = f + 1;
    }
    let mut picked: Vec<usize> = Vec::new();
    let mut i: usize = 0;
    while i < order.len()
        invariant_except_break
            !picking_done(picked@, top_n as int),
        invariant
            i <= order@.len(),
            suppressed@.len() == range,
            forall|j: int| 0 <= j < order@.len() ==> #[trigger] order@[j] < range,
            picked@ == peaks_upto(order@, top_n as int, i as int),
            forall|x: int| 0 <= x < range ==> (suppressed@[x] <==> near_picked(picked@, x)),
        ensures
            picked@ == peaks_upto(order@, top_n as int, order@.len() as int),
        decreases order@.len() - i,
    {
        let idx = order[i];
        if suppressed[idx] {
            i = i + 1;
            continue;
        }
        let ghost before = picked@;
        picked.push(idx);
        let lo = if idx >= 2 { idx - 2 } else { 0 };
        let hi = if range - idx > 3 { idx + 3 } else { range };
        let mut x: usize = lo;
        while x < hi
            invariant
                lo <= x <= hi,
                hi <= range,
                suppressed@.len() == range,
                lo == if idx >= 2 { idx - 2 } else { 0 },
                forall|y: int| 0 <= y < range ==> (#[trigger] suppressed@[y] <==> (near_picked(before, y) || (lo <= y && y < x))),
            decreases hi - x,
        {
            let ghost prev = suppressed@;
            suppressed.set(x, true);
            proof {
                assert forall|y: int| 0 <= y < range implies (#[trigger] suppressed@[y] <==> (near_picked(before, y) || (lo <= y && y < x + 1))) by {
                    if y != x {
                        assert(suppressed@[y] == prev[y]);
                    }
                }
            }
            x = x + 1;
        }
        proof {
            assert forall|y: int| 0 <= y < range implies (suppressed@[y] <==> near_picked(picked@, y)) by {
                if near_picked(before, y) {
                    let j = choose|j: int| 0 <= j < before.len() && -2 <= y - #[trigger] before[j] <= 2;
                    assert(picked@[j] == before[j]);
                }
                if near_picked(picked@, y) {
                    let j = choose|j: int| 0 <= j < picked@.len() && -2 <= y - #[trigger] picked@[j] <= 2;
                    if j < before.len() {
                        assert(picked@[j] == before[j]);
                    }
                }
                if lo <= y < hi {
                    assert(picked@[before.len() as int] == idx);
                }
            }
        }
        i = i + 1;
        if picked.len() >= top_n {
            proof {
                lemma_peaks_done(order@, top_n as int, i as int, order@.len() as int);
            }
            break;
        }
    }
    picked
}

/// Peaks picked are more than two places apart.
pub proof fn lemma_peaks_separated(order: Seq<usize>, top_n: int, k: int)
    ensures
        forall|a: int, b: int| 0 <= a < b < peaks_upto(order, top_n, k).len() ==>
            !(-2 <= #[trigger] peaks_upto(order, top_n, k)[a] - #[trigger] peaks_upto(order, top_n, k)[b] <= 2),
    decreases k,
{
    if k > 0 {
        lemma_peaks_separated(order, top_n, k - 1);
        let p = peaks_upto(order, top_n, k - 1);
        let q = peaks_upto(order, top_n, k);
        assert forall|a: int, b: int| 0 <= a < b < q.len() implies !(-2 <= #[trigger] q[a] - #[trigger] q[b] <= 2) by {
            if b == p.len() && q.len() == p.len() + 1 {
                assert(q[a] == p[a]);
                if -2 <= q[a] - q[b] <= 2 {
                    assert(-2 <= order[k - 1] - p[a] <= 2);
                    assert(near_picked(p, order[k - 1] as int));
                }
            } else {
                assert(q[a] == p[a]);
                assert(q[b] == p[b]);
            }
        }
    }
}

/// No more peaks are picked than `top_n`, or one where `top_n` is zero.
pub proof fn lemma_peaks_count(order: Seq<usize>, top_n: int, k: int)
    ensures
        peaks_upto(order, top_n, k).len() <= if top_n >= 1 { top_n } else { 1 },
    decreases k,
{
    if k > 0 {
        lemma_peaks_count(order, top_n, k - 1);
    }
}

/// `v` reduced to 32 bits, as a cast to `u32` leaves it.
pub open spec fn wrap_u32(v: int) -> int {
    v % 0x1_0000_0000
}

/// `v` reduced to 32 bits and read as a signed number, as a cast to `i32` leaves it.
pub open spec fn wrap_i32(v: int) -> int {
    let r = v % 0x1_0000_0000;
    if r >= 0x8000_0000 { r - 0x1_0000_0000 } else { r }
}

/// `v` is the `d`-th part of the stride `s`, and not below `lo`.
pub open spec fn divisor_harmonic(s: int, lo: int, d: int, v: int) -> bool {
    s % d == 0 && s / d >= lo && v == s / d
}

/// `v` is `m` times the stride `s`, which is not above `hi`.
pub open spec fn multiple_harmonic(s: int, hi: int, m: int, v: int) -> bool {
    s * m <= hi && v == wrap_u32(s * m)
}

/// `v` is the stride `s` moved by `delta`, with the bounds compared as `i32`.
pub open spec fn neighbour_stride(s: int, lo: int, hi: int, delta: int, v: int) -> bool {
    let nb = wrap_i32(s) + delta;
    wrap_i32(lo) <= nb && nb <= wrap_i32(hi) && v == wrap_u32(nb)
}

/// `v` is one of the strides tried for the candidate stride `s`.
pub open spec fn is_harmonic(s: int, lo: int, hi: int, v: int) -> bool {
    ||| divisor_harmonic(s, lo, 4, v)
    ||| divisor_harmonic(s, lo, 3, v)
    ||| divisor_harmonic(s, lo, 2, v)
    ||| v == s
    ||| multiple_harmonic(s, hi, 2, v)
    ||| multiple_harmonic(s, hi, 3, v)
    ||| multiple_harmonic(s, hi, 4, v)
    ||| neighbour_stride(s, lo, hi, -2, v)
    ||| neighbour_stride(s, lo, hi, -1, v)
    ||| neighbour_stride(s, lo, hi, 0, v)
    ||| neighbour_stride(s, lo, hi, 1, v)
    ||| neighbour_stride(s, lo, hi, 2, v)
}

/// The strides tried for the candidate stride `s`.
pub open spec fn harmonics(s: int, lo: int, hi: int) -> Set<u32> {
    Set::new(|v: u32| is_harmonic(s, lo, hi, v as int))
}

/// The strides tried for the first `n` candidates.
pub open spec fn harmonics_of_prefix(strides: Seq<u32>, lo: int, hi: int, n: int) -> Set<u32> {
    Set::new(|v: u32| exists|j: int| 0 <= j < n && #[trigger] is_harmonic(strides[j] as int, lo, hi, v as int))
}

/// The strides tried for all candidates.
pub open spec fn all_harmonics(strides: Seq<u32>, lo: int, hi: int) -> Set<u32> {
    harmonics_of_prefix(strides, lo, hi, strides.len() as int)
}

/// Moving the stride `s` by up to two, as `i32`, does not overflow.
pub open spec fn neighbours_fit(s: int) -> bool {
    i32::MIN + 2 <= wrap_i32(s) && wrap_i32(s) <= i32::MAX - 2
}

/// `v` as an `i32`, by the truncating cast.
fn to_i32_wrapping(v: u64) -> (r: i32)
    ensures
        r == wrap_i32(v as int),
{
    let low = v % 0x1_0000_0000u64;
    if low >= 0x8000_0000u64 {
        let neg: i64 = low as i64 - 0x1_0000_0000i64;
        neg as i32
    } else {
        low as i32
    }
}

/// `v` as a `u32`, by the truncating cast.
fn to_u32_wrapping(v: i64) -> (r: u32)
    ensures
        r == wrap_u32(v as int),
{
    let low = v % 0x1_0000_0000i64;
    let low = if low < 0 { low + 0x1_0000_0000i64 } else { low };
    proof {
        assert(0 <= low < 0x1_0000_0000);
    }
    low as u32
}

/// Adds the strides tried for the candidate stride `s`.
fn add_harmonics(v: &mut BTreeSet<u32>, s: u32, min_stride: usize, max_stride: usize)
    requires
        neighbours_fit(s as int),
    ensures
        final(v)@ == old(v)@.union(harmonics(s as int, min_stride as int, max_stride as int)),
{
    let ghost start = v@;
    let ghost lo = min_stride as int;
    let ghost hi = max_stride as int;
    let su = s as u64;
    let lo64 = min_stride as u64;
    let hi64 = max_stride as u64;

    // Parts of the stride.
    insert_if(v, su % 4 == 0 && su / 4 >= lo64, (su / 4) as u32);
    insert_if(v, su % 3 == 0 && su / 3 >= lo64, (su / 3) as u32);
    insert_if(v, su % 2 == 0 && su / 2 >= lo64, (su / 2) as u32);
    // The stride itself.
    insert_if(v, true, s);
    // Multiples of the stride.
    let m2 = su * 2;
    let m3 = su * 3;
    let m4 = su * 4;
    insert_if(v, m2 <= hi64, (m2 % 0x1_0000_0000u64) as u32);
    insert_if(v, m3 <= hi64, (m3 % 0x1_0000_0000u64) as u32);
    insert_if(v, m4 <= hi64, (m4 % 0x1_0000_0000u64) as u32);
    // Neighbouring strides, compared as `i32` as the bounds are.
    let si = to_i32_wrapping(su);
    let lo32 = to_i32_wrapping(lo64);
    let hi32 = to_i32_wrapping(hi64);
    let n0 = si - 2;
    let n1 = si - 1;
    let n2 = si;
    let n3 = si + 1;
    let n4 = si + 2;
    insert_if(v, n0 >= lo32 && n0 <= hi32, to_u32_wrapping(n0 as i64));
    insert_if(v, n1 >= lo32 && n1 <= hi32, to_u32_wrapping(n1 as i64));
    insert_if(v, n2 >= lo32 && n2 <= hi32, to_u32_wrapping(n2 as i64));
    insert_if(v, n3 >= lo32 && n3 <= hi32, to_u32_wrapping(n3 as i64));
    insert_if(v, n4 >= lo32 && n4 <= hi32, to_u32_wrapping(n4 as i64));

    assert(v@ =~= start.union(harmonics(s as int, lo, hi)));
}

/// The strides to try for a list of candidate strides, in increasing
/// order and each once: for each candidate `s`, the parts `s / 4`, `s / 3`,
/// `s / 2` that divide it exactly and are at least `min_stride`; `s`
/// itself; the multiples `2s`, `3s`, `4s` up to `max_stride`; and the
/// strides `s - 2 ..= s + 2` inside the bounds. The stride and the bounds
/// are compared for the neighbours as `i32`, as they are read that way.
pub fn expand_harmonics(strides: &[u32], min_stride: usize, max_stride: usize) -> (out: Vec<u32>)
    requires
        forall|j: int| 0 <= j < strides@.len() ==> neighbours_fit(#[trigger] strides@[j] as int),
    ensures
        strictly_increasing(out@),
        out@.to_set() == all_harmonics(strides@, min_stride as int, max_stride as int),
{
    let ghost lo = min_stride as int;
    let ghost hi = max_stride as int;
    let mut set: BTreeSet<u32> = BTreeSet::new();
    let mut i: usize = 0;
    assert(set@ =~= harmonics_of_prefix(strides@, lo, hi, 0));
    while i < strides.len()
        invariant
            i <= strides@.len(),
            lo == min_stride,
            hi == max_stride,
            forall|j: int| 0 <= j < strides@.len() ==> neighbours_fit(#[trigger] strides@[j] as int),
            set@ == harmonics_of_prefix(strides@, lo, hi, i as int),
        decreases strides@.len() - i,
    {
        let ghost before = set@;
        add_harmonics(&mut set, strides[i], min_stride, max_stride);
        proof {
            let s = strides@[i as int] as int;
            assert(set@ =~= harmonics_of_prefix(strides@, lo, hi, i + 1)) by {
                assert forall|v: u32| #[trigger] harmonics_of_prefix(strides@, lo, hi, i + 1).contains(v)
                    implies set@.contains(v) by {
                    let j = choose|j: int| 0 <= j < i + 1 && #[trigger] is_harmonic(strides@[j] as int, lo, hi, v as int);
                    if j < i {
                        assert(before.contains(v));
                    } else {
                        assert(harmonics(s, lo, hi).contains(v));
                    }
                }
                assert forall|v: u32| set@.contains(v)
                    implies #[trigger] harmonics_of_prefix(strides@, lo, hi, i + 1).contains(v) by {
                    if before.contains(v) {
                        let j = choose|j: int| 0 <= j < i && #[trigger] is_harmonic(strides@[j] as int, lo, hi, v as int);
                    } else {
                        assert(is_harmonic(strides@[i as int] as int, lo, hi, v as int));
                    }
                }
            }
        }
        i = i + 1;
    }
    sorted_elements(&set)
}

/// Every candidate stride is among the strides tried.
pub proof fn lemma_harmonics_keep_candidates(strides: Seq<u32>, lo: int, hi: int, j: int)
    requires
        0 <= j < strides.len(),
    ensures
        all_harmonics(strides, lo, hi).contains(strides[j]),
{
    assert(is_harmonic(strides[j] as int, lo, hi, strides[j] as int));
}

/// What the strides tried for a candidate `s` include: its quarter, third
/// and half where they are whole and not below `min_stride`; `s` itself;
/// twice, three and four times `s` where they are not above `max_stride`
/// (and fit in `u32`); and, when the stride and the bounds fit in `i32`,
/// each of `s - 2 ..= s + 2` that lies between the bounds.
pub proof fn lemma_harmonics_complete(strides: Seq<u32>, lo: int, hi: int, j: int)
    requires
        0 <= j < strides.len(),
    ensures
        ({
            let s = strides[j] as int;
            let out = all_harmonics(strides, lo, hi);
            &&& out.contains(s as u32)
            &&& (s % 4 == 0 && s / 4 >= lo ==> out.contains((s / 4) as u32))
            &&& (s % 3 == 0 && s / 3 >= lo ==> out.contains((s / 3) as u32))
            &&& (s % 2 == 0 && s / 2 >= lo ==> out.contains((s / 2) as u32))
            &&& (2 * s <= hi && 2 * s <= u32::MAX ==> out.contains((2 * s) as u32))
            &&& (3 * s <= hi && 3 * s <= u32::MAX ==> out.contains((3 * s) as u32))
            &&& (4 * s <= hi && 4 * s <= u32::MAX ==> out.contains((4 * s) as u32))
            &&& (0 <= lo && hi <= i32::MAX && s + 2 <= i32::MAX ==> {
                &&& (lo <= s - 2 <= hi ==> out.contains((s - 2) as u32))
                &&& (lo <= s - 1 <= hi ==> out.contains((s - 1) as u32))
                &&& (lo <= s <= hi ==> out.contains(s as u32))
                &&& (lo <= s + 1 <= hi ==> out.contains((s + 1) as u32))
                &&& (lo <= s + 2 <= hi ==> out.contains((s + 2) as u32))
            })
        }),
{
    let s = strides[j] as int;
    let m: nat = 0x1_0000_0000;
    lemma_small_mod(s as nat, m);
    assert(is_harmonic(s, lo, hi, (s as u32) as int));
    if s % 4 == 0 && s / 4 >= lo {
        assert(is_harmonic(s, lo, hi, ((s / 4) as u32) as int));
    }
    if s % 3 == 0 && s / 3 >= lo {
        assert(is_harmonic(s, lo, hi, ((s / 3) as u32) as int));
    }
    if s % 2 == 0 && s / 2 >= lo {
        assert(is_harmonic(s, lo, hi, ((s / 2) as u32) as int));
    }
    if 2 * s <= hi && 2 * s <= u32::MAX {
        lemma_small_mod((s * 2) as nat, m);
        assert(is_harmonic(s, lo, hi, ((2 * s) as u32) as int));
    }
    if 3 * s <= hi && 3 * s <= u32::MAX {
        lemma_small_mod((s * 3) as nat, m);
        assert(is_harmonic(s, lo, hi, ((3 * s) as u32) as int));
    }
    if 4 * s <= hi && 4 * s <= u32::MAX {
        lemma_small_mod((s * 4) as nat, m);
        assert(is_harmonic(s, lo, hi, ((4 * s) as u32) as int));
    }
    if 0 <= lo && lo <= hi && hi <= i32::MAX && s + 2 <= i32::MAX {
        lemma_small_mod(lo as nat, m);
        lemma_small_mod(hi as nat, m);
        if lo <= s - 2 <= hi {
            lemma_small_mod((s - 2) as nat, m);
            assert(is_harmonic(s, lo, hi, ((s - 2) as u32) as int));
        }
        if lo <= s - 1 <= hi {
            lemma_small_mod((s - 1) as nat, m);
            assert(is_harmonic(s, lo, hi, ((s - 1) as u32) as int));
        }
        if lo <= s + 1 <= hi {
            lemma_small_mod((s + 1) as nat, m);
            assert(is_harmonic(s, lo, hi, ((s + 1) as u32) as int));
        }
        if lo <= s + 2 <= hi {
            lemma_small_mod((s + 2) as nat, m);
            assert(is_harmonic(s, lo, hi, ((s + 2) as u32) as int));
        }
    }
}

/// When the candidates lie between the bounds, and the bounds fit in `i32`,
/// so do all the strides tried.
pub proof fn lemma_harmonics_within_bounds(strides: Seq<u32>, lo: int, hi: int, v: u32)
    requires
        0 <= lo <= hi <= i32::MAX,
        forall|j: int| 0 <= j < strides.len() ==> lo <= #[trigger] strides[j] <= hi,
        all_harmonics(strides, lo, hi).contains(v),
    ensures
        lo <= v <= hi,
{
    let j = choose|j: int| 0 <= j < strides.len() && #[trigger] is_harmonic(strides[j] as int, lo, hi, v as int);
    let s = strides[j] as int;
    let vi = v as int;
    let m: nat = 0x1_0000_0000;
    assert(lo <= s <= hi);
    lemma_small_mod(lo as nat, m);
    lemma_small_mod(hi as nat, m);
    lemma_small_mod(s as nat, m);
    if multiple_harmonic(s, hi, 2, vi) {
        lemma_small_mod((s * 2) as nat, m);
    } else if multiple_harmonic(s, hi, 3, vi) {
        lemma_small_mod((s * 3) as nat, m);
    } else if multiple_harmonic(s, hi, 4, vi) {
        lemma_small_mod((s * 4) as nat, m);
    } else if neighbour_stride(s, lo, hi, -2, vi) {
        lemma_small_mod((s - 2) as nat, m);
    } else if neighbour_stride(s, lo, hi, -1, vi) {
        lemma_small_mod((s - 1) as nat, m);
    } else if neighbour_stride(s, lo, hi, 0, vi) {
    } else if neighbour_stride(s, lo, hi, 1, vi) {
        lemma_small_mod((s + 1) as nat, m);
    } else if neighbour_stride(s, lo, hi, 2, vi) {
        lemma_small_mod((s + 2) as nat, m);
    }
}

} // verus!
