use detile::stats::{median_of_sorted, sorted_copy, sum_abs_diff_wide};
use detile::{mode_of_sorted, sum_abs_diff};

#[test]
fn sum_abs_diff_adds_channel_differences() {
    assert_eq!(sum_abs_diff(&[10, 200, 0, 255], &[20, 100, 0, 0]), 10 + 100 + 0 + 255);
    assert_eq!(sum_abs_diff(&[], &[]), 0);
    assert_eq!(sum_abs_diff(&[7, 7], &[7, 7]), 0);
    assert_eq!(sum_abs_diff_wide(&[0, 255], &[255, 0]), 510);
}

#[test]
fn mode_of_sorted_picks_longest_run() {
    assert_eq!(mode_of_sorted(&[1, 2, 2, 3, 3, 3, 4]), 3);
    assert_eq!(mode_of_sorted(&[5]), 5);
    assert_eq!(mode_of_sorted(&[]), 0);
}

#[test]
fn mode_of_sorted_prefers_smallest_on_ties() {
    assert_eq!(mode_of_sorted(&[1, 1, 2, 2]), 1);
    assert_eq!(mode_of_sorted(&[1, 2, 3]), 1);
    assert_eq!(mode_of_sorted(&[0, 4, 4, 9, 9]), 4);
}

#[test]
fn median_of_sorted_takes_upper_middle() {
    assert_eq!(median_of_sorted(&[1, 2, 3]), 2);
    assert_eq!(median_of_sorted(&[1, 2, 3, 4]), 3);
    assert_eq!(median_of_sorted(&[9]), 9);
}

#[test]
fn sorted_copy_sorts() {
    assert_eq!(sorted_copy(&vec![5, 1, 4, 1, 3]), vec![1, 1, 3, 4, 5]);
    assert_eq!(sorted_copy(&vec![]), Vec::<u32>::new());
}
