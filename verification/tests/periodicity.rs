use detile::{expand_harmonics, pick_peaks};

#[test]
fn expand_harmonics_includes_multiples() {
    let candidates = vec![18u32];
    let expanded = expand_harmonics(&candidates, 4, 200);
    assert!(expanded.contains(&9), "should include 18/2=9");
    assert!(expanded.contains(&18), "should include self");
    assert!(expanded.contains(&36), "should include 18*2=36");
    assert!(expanded.contains(&54), "should include 18*3=54");
}

#[test]
fn expand_harmonics_respects_bounds() {
    let candidates = vec![18u32];
    let expanded = expand_harmonics(&candidates, 10, 30);
    for &s in &expanded {
        assert!((10..=30).contains(&s), "stride {} out of bounds", s);
    }
}

#[test]
fn expand_harmonics_exact_set_sorted() {
    // 18: parts 9 and 6 (18 / 4 is not whole), itself, 36 54 72, and 16..=20.
    let expanded = expand_harmonics(&[18], 4, 200);
    assert_eq!(expanded, vec![6, 9, 16, 17, 18, 19, 20, 36, 54, 72]);
}

#[test]
fn expand_harmonics_merges_candidates() {
    let expanded = expand_harmonics(&[12, 10], 4, 30);
    // 12: 4 (=12/3), 6, 12, 24, 10..=14; 10: 5, 10, 20, 30, 8..=12.
    assert_eq!(expanded, vec![4, 5, 6, 8, 9, 10, 11, 12, 13, 14, 20, 24, 30]);
    let mut sorted = expanded.clone();
    sorted.sort();
    sorted.dedup();
    assert_eq!(sorted, expanded);
}

#[test]
fn expand_harmonics_keeps_candidate_outside_bounds() {
    // The candidate itself is always kept; its neighbours obey the bounds.
    let expanded = expand_harmonics(&[3], 4, 10);
    assert_eq!(expanded, vec![3, 4, 5, 6, 9]);
}

#[test]
fn expand_harmonics_empty() {
    assert!(expand_harmonics(&[], 4, 100).is_empty());
}

#[test]
fn pick_peaks_suppresses_neighbours() {
    // Best first: 10, then 11 and 8 (within two of 10) are skipped, 13 kept.
    let order = vec![10usize, 11, 8, 13, 0, 7];
    assert_eq!(pick_peaks(&order, 20, 10), vec![10, 13, 0, 7]);
}

#[test]
fn pick_peaks_stops_at_top_n() {
    let order = vec![0usize, 5, 10, 15];
    assert_eq!(pick_peaks(&order, 20, 2), vec![0, 5]);
    // At least one is taken even when none is asked for.
    assert_eq!(pick_peaks(&order, 20, 0), vec![0]);
    assert!(pick_peaks(&[], 20, 3).is_empty());
}

#[test]
fn pick_peaks_separation_is_more_than_two() {
    let order = vec![4usize, 7, 1, 2, 6, 9];
    // 4; 7 (three away) kept; 1 (three from 4) kept; 2, 6, 9 within two of a pick.
    assert_eq!(pick_peaks(&order, 10, 10), vec![4, 7, 1]);
}
