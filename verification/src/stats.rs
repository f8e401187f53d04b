//! Integer statistics over pixel data: absolute differences, sorting,
//! the most frequent value and the middle value of a collection.
use vstd::prelude::*;

verus! {

broadcast use vstd::seq_lib::group_to_multiset_ensures;

/// `|a - b|` for two bytes.
pub open spec fn byte_diff(a: u8, b: u8) -> int {
    if a >= b { a - b } else { b - a }
}

/// Sum of `|a[i] - b[i]|` over the first `n` positions.
pub open spec fn abs_diff_upto(a: Seq<u8>, b: Seq<u8>, n: int) -> int
    decreases n,
{
    if n <= 0 { 0 } else { abs_diff_upto(a, b, n - 1) + byte_diff(a[n - 1], b[n - 1]) }
}

/// Sum of the absolute differences of two equally long byte sequences.
pub open spec fn abs_diff_total(a: Seq<u8>, b: Seq<u8>) -> int {
    abs_diff_upto(a, b, a.len() as int)
}

/// The partial sums are non-negative and grow by at most 255 per position.
pub proof fn lemma_abs_diff_upto_bounds(a: Seq<u8>, b: Seq<u8>, n: int)
    requires
        0 <= n,
    ensures
        0 <= abs_diff_upto(a, b, n) <= 255 * n,
    decreases n,
{
    if n > 0 {
        lemma_abs_diff_upto_bounds(a, b, n - 1);
    }
}

/// A sequence differs from itself by nothing.
pub proof fn lemma_abs_diff_self(a: Seq<u8>, n: int)
    requires
        0 <= n,
    ensures
        abs_diff_upto(a, a, n) == 0,
    decreases n,
{
    if n > 0 {
        lemma_abs_diff_self(a, n - 1);
    }
}

/// The total is zero exactly when the two sequences are equal.
pub proof fn lemma_abs_diff_zero_iff_equal(a: Seq<u8>, b: Seq<u8>)
    requires
        a.len() == b.len(),
    ensures
        abs_diff_total(a, b) == 0 <==> a == b,
{
    if a == b {
        lemma_abs_diff_self(a, a.len() as int);
    }
    if abs_diff_total(a, b) == 0 {
        assert forall|i: int| 0 <= i < a.len() implies a[i] == b[i] by {
            lemma_abs_diff_zero_prefix(a, b, a.len() as int, i);
        }
        assert(a =~= b);
    }
}

proof fn lemma_abs_diff_zero_prefix(a: Seq<u8>, b: Seq<u8>, n: int, i: int)
    requires
        0 <= i < n,
        abs_diff_upto(a, b, n) == 0,
    ensures
        a[i] == b[i],
    decreases n,
{
    lemma_abs_diff_upto_bounds(a, b, n - 1);
    if i < n - 1 {
        lemma_abs_diff_zero_prefix(a, b, n - 1, i);
    }
}

/// The order of the two arguments does not matter.
pub proof fn lemma_abs_diff_symmetric(a: Seq<u8>, b: Seq<u8>, n: int)
    requires
        0 <= n,
    ensures
        abs_diff_upto(a, b, n) == abs_diff_upto(b, a, n),
    decreases n,
{
    if n > 0 {
        lemma_abs_diff_symmetric(a, b, n - 1);
    }
}

/// Sum of absolute differences of two equally long byte slices, without
/// any bound on the result.
pub fn sum_abs_diff_wide(a: &[u8], b: &[u8]) -> (r: u128)
    requires
        a@.len() == b@.len(),
    ensures
        r == abs_diff_total(a@, b@),
{
    let n = a.len();
    let mut sum: u128 = 0;
    let mut i: usize = 0;
    while i < n
        invariant
            n == a@.len(),
            n == b@.len(),
            i <= n,
            sum == abs_diff_upto(a@, b@, i as int),
        decreases n - i,
    {
        proof {
            lemma_abs_diff_upto_bounds(a@, b@, (i + 1) as int);
        }
        let x = a[i];
        let y = b[i];
        let d: u8 = if x >= y { x - y } else { y - x };
        sum = sum + d as u128;
        i = i + 1;
    }
    sum
}

/// Sum of absolute differences of two equally long byte slices, as a `u32`;
/// the sum must fit.
pub fn sum_abs_diff(a: &[u8], b: &[u8]) -> (r: u32)
    requires
        a@.len() == b@.len(),
        abs_diff_total(a@, b@) <= u32::MAX,
    ensures
        r == abs_diff_total(a@, b@),
{
    let wide = sum_abs_diff_wide(a, b);
    wide as u32
}

/// Values in non-decreasing order.
pub open spec fn is_sorted(s: Seq<u32>) -> bool {
    forall|i: int, j: int| 0 <= i <= j < s.len() ==> s[i] <= s[j]
}

/// `p` holds the values of `s` in non-decreasing order.
pub open spec fn is_sorted_permutation(p: Seq<u32>, s: Seq<u32>) -> bool {
    is_sorted(p) && p.to_multiset() == s.to_multiset()
}

/// `slice::sort_unstable` on a vector of `u32`: std documents it as sorting
/// the slice in ascending order, which is claimed here as the values coming
/// back in non-decreasing order and as the same values, each as many times
/// as before.
#[verifier::external_body]
fn sort_unstable_u32(v: &mut Vec<u32>)
    ensures
        is_sorted(final(v)@),
        final(v)@.to_multiset() == old(v)@.to_multiset(),
{
    v.sort_unstable();
}

/// The values of `values` in non-decreasing order.
pub fn sorted_copy(values: &Vec<u32>) -> (out: Vec<u32>)
    ensures
        is_sorted_permutation(out@, values@),
        out@.len() == values@.len(),
{
    let n = values.len();
    let mut out: Vec<u32> = Vec::with_capacity(n);
    let mut i: usize = 0;
    while i < n
        invariant
            n == values@.len(),
            i <= n,
            out@ == values@.take(i as int),
        decreases n - i,
    {
        out.push(values[i]);
        assert(values@.take(i + 1) =~= values@.take(i as int).push(values@[i as int]));
        i = i + 1;
    }
    assert(values@.take(n as int) =~= values@);
    sort_unstable_u32(&mut out);
    proof {
        out@.to_multiset_ensures();
        values@.to_multiset_ensures();
    }
    out
}

/// How many times `v` occurs in `s`.
pub open spec fn occurrences(s: Seq<u32>, v: u32) -> nat {
    s.to_multiset().count(v)
}

/// `m` is a most frequent value of the non-empty `s`, and the smallest one
/// among those that are equally frequent.
pub open spec fn is_smallest_mode(s: Seq<u32>, m: u32) -> bool {
    &&& occurrences(s, m) > 0
    &&& forall|v: u32| #[trigger] occurrences(s, v) <= occurrences(s, m)
    &&& forall|v: u32| #[trigger] occurrences(s, v) == occurrences(s, m) ==> m <= v
}

/// The most frequent value in a sorted slice; the smallest one where several
/// are equally frequent, and 0 for an empty slice.
pub fn mode_of_sorted(sorted: &[u32]) -> (m: u32)
    requires
        is_sorted(sorted@),
    ensures
        sorted@.len() == 0 ==> m == 0,
        sorted@.len() > 0 ==> is_smallest_mode(sorted@, m),
{
    let n = sorted.len();
    if n == 0 {
        return 0;
    }
    let ghost s = sorted@;
    let mut best_val: u32 = sorted[0];
    let mut best_run: usize = 1;
    let mut cur_val: u32 = sorted[0];
    let mut cur_run: usize = 1;
    assert(s.take(1) =~= Seq::<u32>::empty().push(s[0]));
    let mut i: usize = 1;
    while i < n
        invariant
            n == s.len(),
            s == sorted@,
            is_sorted(s),
            1 <= i <= n,
            cur_val == s[i - 1],
            1 <= cur_run <= i,
            1 <= best_run <= i,
            cur_run == occurrences(s.take(i as int), cur_val),
            best_run == occurrences(s.take(i as int), best_val),
            best_val <= cur_val,
            forall|v: u32| #[trigger] occurrences(s.take(i as int), v) <= best_run,
            forall|v: u32| #[trigger] occurrences(s.take(i as int), v) == best_run ==> best_val <= v,
            forall|v: u32| v > cur_val ==> #[trigger] occurrences(s.take(i as int), v) == 0,
        decreases n - i,
    {
        let v = sorted[i];
        assert(s.take(i + 1) =~= s.take(i as int).push(v));
        assert(s[i - 1] <= s[i as int]);
        assert(s.take(i + 1).to_multiset() =~= s.take(i as int).to_multiset().insert(v));
        assert forall|w: u32| #[trigger] occurrences(s.take(i + 1), w)
            == occurrences(s.take(i as int), w) + (if w == v { 1int } else { 0int }) by {
        }
        if v == cur_val {
            cur_run = cur_run + 1;
            if cur_run > best_run {
                best_run = cur_run;
                best_val = cur_val;
            }
        } else {
            cur_val = v;
            cur_run = 1;
        }
        i = i + 1;
    }
    assert(s.take(n as int) =~= s);
    best_val
}

/// The middle element (upper middle for an even count) of a sorted,
/// non-empty slice.
pub fn median_of_sorted(sorted: &[u32]) -> (m: u32)
    requires
        sorted@.len() > 0,
    ensures
        m == sorted@[(sorted@.len() / 2) as int],
{
    sorted[sorted.len() / 2]
}

/// The value at the middle position (`len / 2`) of `s` once sorted.
pub open spec fn is_middle_value(s: Seq<u32>, m: u32) -> bool {
    exists|p: Seq<u32>| is_sorted_permutation(p, s) && p[(s.len() / 2) as int] == m
}

/// A collection all of whose values are `c` has `c` as its most frequent value.
pub proof fn lemma_mode_of_constant(s: Seq<u32>, c: u32, m: u32)
    requires
        s.len() > 0,
        forall|i: int| 0 <= i < s.len() ==> s[i] == c,
        is_smallest_mode(s, m),
    ensures
        m == c,
{
    assert(s.to_multiset().count(m) > 0);
    assert(s.contains(m));
    let i = choose|i: int| 0 <= i < s.len() && s[i] == m;
}

/// A collection all of whose values are `c` has `c` as its middle value.
pub proof fn lemma_middle_of_constant(s: Seq<u32>, c: u32, m: u32)
    requires
        s.len() > 0,
        forall|i: int| 0 <= i < s.len() ==> s[i] == c,
        is_middle_value(s, m),
    ensures
        m == c,
{
    let p = choose|p: Seq<u32>| is_sorted_permutation(p, s) && p[(s.len() / 2) as int] == m;
    assert(p.to_multiset().len() == s.to_multiset().len());
    assert(p.len() == s.len());
    assert(p.contains(m));
    assert(p.to_multiset().count(m) > 0);
    assert(s.contains(m));
}

} // verus!
