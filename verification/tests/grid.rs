use detile::{
    build_grid, check_detect_input, choose_margin, coverage_count, AxisFit, DetectInputError, GridGeometry,
};

#[test]
fn detect_input_accepts_fitting_image() {
    assert_eq!(check_detect_input(4, None, 8, 8), Ok(()));
    assert_eq!(check_detect_input(4, Some(4), 100, 50), Ok(()));
}

#[test]
fn detect_input_rejects_inverted_bounds() {
    assert_eq!(
        check_detect_input(8, Some(7), 100, 100),
        Err(DetectInputError::StrideBoundsInverted { min_stride: 8, max_stride: 7 })
    );
    // The bounds are checked before the size.
    assert_eq!(
        check_detect_input(8, Some(7), 1, 1),
        Err(DetectInputError::StrideBoundsInverted { min_stride: 8, max_stride: 7 })
    );
}

#[test]
fn detect_input_inverted_bounds_with_huge_minimum() {
    assert_eq!(
        check_detect_input(u32::MAX, Some(5), 10, 10),
        Err(DetectInputError::StrideBoundsInverted { min_stride: u32::MAX, max_stride: 5 })
    );
}

#[test]
fn detect_input_rejects_small_image() {
    assert_eq!(
        check_detect_input(4, None, 7, 100),
        Err(DetectInputError::ImageTooSmall { width: 7, height: 100, min_stride: 4 })
    );
    assert_eq!(
        check_detect_input(4, Some(10), 100, 7),
        Err(DetectInputError::ImageTooSmall { width: 100, height: 7, min_stride: 4 })
    );
}

fn fit(stride: u32, offset: u32, tile_size: u32, margin: u32) -> AxisFit {
    AxisFit { stride, offset, tile_size, margin }
}

#[test]
fn build_grid_counts_cells() {
    let g = build_grid(&fit(18, 3, 17, 1), &fit(20, 0, 20, 0), 100, 61).expect("grid");
    assert_eq!(
        g,
        GridGeometry {
            tile_width: 17,
            tile_height: 20,
            stride_x: 18,
            stride_y: 20,
            offset_x: 3,
            offset_y: 0,
            margin_x: 1,
            margin_y: 0,
            columns: 5,
            rows: 3,
        }
    );
}

#[test]
fn build_grid_needs_two_cells_per_axis() {
    assert_eq!(build_grid(&fit(10, 0, 10, 0), &fit(10, 0, 10, 0), 19, 100), None);
    assert_eq!(build_grid(&fit(10, 0, 10, 0), &fit(10, 0, 10, 0), 100, 19), None);
    assert!(build_grid(&fit(10, 0, 10, 0), &fit(10, 0, 10, 0), 20, 20).is_some());
    // An offset past the end leaves no cell.
    assert_eq!(build_grid(&fit(10, 200, 10, 0), &fit(10, 0, 10, 0), 100, 100), None);
}

#[test]
fn coverage_counts() {
    assert_eq!(coverage_count(100, 10, 0), 10);
    assert_eq!(coverage_count(100, 10, 5), 9);
    assert_eq!(coverage_count(15, 10, 0), 1);
    assert_eq!(coverage_count(100, 0, 0), 0);
    assert_eq!(coverage_count(100, 10, 100), 0);
}

#[test]
fn margin_at_the_end() {
    // A stride of 20 whose last two positions look like margin.
    let mut marks = vec![false; 20];
    marks[18] = true;
    marks[19] = true;
    assert_eq!(choose_margin(&marks, 10), (18, 2, 2));
}

#[test]
fn margin_at_the_start_and_ties() {
    let mut marks = vec![false; 12];
    marks[0] = true;
    marks[1] = true;
    marks[2] = true;
    marks[11] = true;
    assert_eq!(choose_margin(&marks, 6), (9, 3, 3));
    // On a tie the end wins.
    marks[10] = true;
    marks[9] = true;
    assert_eq!(choose_margin(&marks, 6), (9, 3, 3));
    marks[2] = false;
    assert_eq!(choose_margin(&marks, 6), (9, 3, 3));
}

#[test]
fn margin_is_cut_to_the_limit() {
    let mut marks = vec![false; 16];
    for i in 10..16 {
        marks[i] = true;
    }
    assert_eq!(choose_margin(&marks, 4), (12, 4, 4));
}

#[test]
fn no_margin_without_marks() {
    let marks = vec![false; 18];
    assert_eq!(choose_margin(&marks, 9), (18, 0, 0));
    let all = vec![true; 4];
    // A limit of zero leaves no margin either.
    assert_eq!(choose_margin(&all, 0), (4, 0, 0));
}
