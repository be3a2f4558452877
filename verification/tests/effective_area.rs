use line_simplify::{visvalingam, visvalingam_indices, Point};

#[test]
fn collinear_middle_point_is_removed_for_any_positive_tolerance() {
    let xs: [Point; 3] = [(0, 0), (1, 0), (2, 0)];
    for tol in [1u128, 2, 25, 100000, u128::MAX] {
        assert_eq!(visvalingam(&xs, tol), vec![(0, 0), (2, 0)]);
    }
}

#[test]
fn collinear_middle_point_stays_at_zero_tolerance() {
    let xs: [Point; 3] = [(0, 0), (1, 0), (2, 0)];
    assert_eq!(visvalingam(&xs, 0), vec![(0, 0), (1, 0), (2, 0)]);
}

#[test]
fn area_below_tolerance_is_removed() {
    let xs: [Point; 3] = [(0, 0), (1, 10), (2, 0)];
    assert_eq!(visvalingam(&xs, 25), vec![(0, 0), (2, 0)]);
}

#[test]
fn area_above_tolerance_is_kept() {
    let xs: [Point; 3] = [(0, 0), (1, 10), (2, 0)];
    assert_eq!(visvalingam(&xs, 10), vec![(0, 0), (1, 10), (2, 0)]);
}

#[test]
fn area_equal_to_tolerance_is_kept() {
    let xs: [Point; 3] = [(0, 0), (1, 10), (2, 0)];
    assert_eq!(visvalingam(&xs, 20), vec![(0, 0), (1, 10), (2, 0)]);
    assert_eq!(visvalingam(&xs, 21), vec![(0, 0), (2, 0)]);
}

#[test]
fn short_inputs_pass_through() {
    let none: [Point; 0] = [];
    assert_eq!(visvalingam(&none, 1000), Vec::<Point>::new());
    assert_eq!(visvalingam(&[(7, -3)], 1000), vec![(7, -3)]);
    assert_eq!(visvalingam(&[(7, -3), (8, 4)], 1000), vec![(7, -3), (8, 4)]);
    assert_eq!(visvalingam_indices(&none, 1000), Vec::<usize>::new());
    assert_eq!(visvalingam_indices(&[(7, -3)], 1000), vec![0]);
    assert_eq!(visvalingam_indices(&[(7, -3), (8, 4)], 1000), vec![0, 1]);
}

#[test]
fn zero_tolerance_changes_nothing() {
    let xs: Vec<Point> = vec![(0, 0), (1, 0), (2, 0), (3, 7), (4, 7), (4, 7), (5, -2), (6, -2)];
    assert_eq!(visvalingam(&xs, 0), xs);
}

#[test]
fn endpoints_stay_whatever_the_tolerance() {
    let xs: Vec<Point> = vec![(3, 4), (1, 0), (2, 9), (3, 7), (4, 7), (9, 9)];
    for tol in [0u128, 1, 10, 100, u128::MAX] {
        let out = visvalingam(&xs, tol);
        assert_eq!(out.first(), Some(&(3, 4)));
        assert_eq!(out.last(), Some(&(9, 9)));
        assert!(out.len() <= xs.len());
    }
    assert_eq!(visvalingam(&xs, u128::MAX), vec![(3, 4), (9, 9)]);
}

#[test]
fn larger_tolerance_keeps_no_more_points() {
    let xs: Vec<Point> = vec![(0, 0), (1, 3), (2, -1), (3, 8), (4, 2), (5, 2), (6, 0), (7, 5)];
    let mut last = xs.len();
    for tol in [0u128, 1, 2, 3, 5, 8, 13, 21, 34, 55, 1000] {
        let n = visvalingam(&xs, tol).len();
        assert!(n <= last);
        last = n;
    }
    assert_eq!(last, 2);
}

#[test]
fn stale_candidate_is_discarded() {
    // Areas at first: 2 for index 1, 6 for index 2, 10 for index 3. Index 1
    // leaves; index 2 then has the neighbours 0 and 3 and the area 10. The
    // candidate of area 6 that is still queued for it must not remove it.
    let xs: [Point; 5] = [(0, 0), (1, 1), (2, 0), (3, 5), (4, 0)];
    assert_eq!(visvalingam_indices(&xs, 7), vec![0, 2, 3, 4]);
    assert_eq!(visvalingam(&xs, 7), vec![(0, 0), (2, 0), (3, 5), (4, 0)]);
}

#[test]
fn recomputed_area_can_fall_below_tolerance() {
    // Indices 1 and 2 both have the area 2 and index 3 has 18. At
    // tolerance 3 index 1 leaves; index 2 then lies on the line from 0 to 3,
    // has the area 0 and leaves as well, while index 3 grows to 36.
    let xs: [Point; 5] = [(0, 0), (1, 1), (2, 0), (4, 0), (4, 9)];
    assert_eq!(visvalingam_indices(&xs, 2), vec![0, 1, 2, 3, 4]);
    assert_eq!(visvalingam_indices(&xs, 3), vec![0, 3, 4]);
}

#[test]
fn equal_areas_leave_lowest_index_first() {
    // Both interior points have the area 2. Once index 1 is gone, index 2
    // has the area 4 between 0 and 3.
    let xs: [Point; 4] = [(0, 0), (1, 1), (3, 1), (4, 0)];
    assert_eq!(visvalingam_indices(&xs, 3), vec![0, 2, 3]);
}

#[test]
fn indices_select_the_returned_points() {
    let xs: Vec<Point> = vec![(0, 0), (1, 3), (2, -1), (3, 8), (4, 2), (5, 2), (6, 0), (7, 5)];
    for tol in [0u128, 3, 8, 21, 1000] {
        let keep = visvalingam_indices(&xs, tol);
        let picked: Vec<Point> = keep.iter().map(|&i| xs[i]).collect();
        assert_eq!(visvalingam(&xs, tol), picked);
        assert!(keep.windows(2).all(|w| w[0] < w[1]));
    }
}

#[test]
fn extreme_coordinates_do_not_overflow() {
    let xs: [Point; 3] = [(i32::MIN, i32::MIN), (i32::MAX, i32::MIN), (i32::MIN, i32::MAX)];
    // The area is (2^32 - 1)^2.
    let area: u128 = 0xffff_fffe_0000_0001;
    assert_eq!(visvalingam(&xs, area).len(), 3);
    assert_eq!(visvalingam(&xs, area + 1), vec![(i32::MIN, i32::MIN), (i32::MIN, i32::MAX)]);
}

#[test]
fn long_zigzag_reduces_to_its_ends() {
    let xs: Vec<Point> = (0..1000).map(|i| (i, if i % 2 == 0 { 0 } else { 1 })).collect();
    assert_eq!(visvalingam(&xs, 0).len(), 1000);
    assert_eq!(visvalingam(&xs, 3000), vec![(0, 0), (999, 1)]);
}
