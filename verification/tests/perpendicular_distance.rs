use line_simplify::{rdp, rdp_indices, Point};

#[test]
fn rdp_removes_collinear_middle_point() {
    let xs: [Point; 3] = [(0, 0), (1, 0), (2, 0)];
    for tol in [0u64, 1, 2, 25, u64::MAX] {
        assert_eq!(rdp(&xs, tol), vec![(0, 0), (2, 0)]);
    }
}

#[test]
fn rdp_short_inputs_pass_through() {
    let none: [Point; 0] = [];
    assert_eq!(rdp(&none, 5), Vec::<Point>::new());
    assert_eq!(rdp(&[(7, -3)], 5), vec![(7, -3)]);
    assert_eq!(rdp_indices(&none, 5), Vec::<usize>::new());
    assert_eq!(rdp_indices(&[(7, -3)], 5), vec![0]);
}

#[test]
fn rdp_two_points_stay() {
    assert_eq!(rdp(&[(7, -3), (8, 4)], 0), vec![(7, -3), (8, 4)]);
    assert_eq!(rdp(&[(7, -3), (8, 4)], u64::MAX), vec![(7, -3), (8, 4)]);
}

#[test]
fn rdp_distance_equal_to_tolerance_collapses() {
    // The middle point lies at distance 1 from the chord.
    let xs: [Point; 3] = [(0, 0), (1, 1), (2, 0)];
    assert_eq!(rdp(&xs, 0), vec![(0, 0), (1, 1), (2, 0)]);
    assert_eq!(rdp(&xs, 1), vec![(0, 0), (2, 0)]);
}

#[test]
fn rdp_distance_is_measured_against_the_chord_length() {
    // The middle point lies at distance 12 from a chord of length 5:
    // its offset is 60 and the squared length of the chord is 25.
    let xs: [Point; 3] = [(0, 0), (15, 0), (3, 4)];
    assert_eq!(rdp(&xs, 11), vec![(0, 0), (15, 0), (3, 4)]);
    assert_eq!(rdp(&xs, 12), vec![(0, 0), (3, 4)]);
}

#[test]
fn rdp_splits_at_first_of_equally_far_points() {
    // Indices 1 and 2 both lie at distance 2 from the chord. Splitting at
    // index 1 leaves index 2 within the tolerance of the chord from 1 to 3.
    let xs: [Point; 4] = [(0, 0), (1, 2), (2, 2), (3, 0)];
    assert_eq!(rdp_indices(&xs, 1), vec![0, 1, 3]);
    assert_eq!(rdp(&xs, 1), vec![(0, 0), (1, 2), (3, 0)]);
}

#[test]
fn rdp_recurses_on_both_sides() {
    // Indices 2 and 4 lie on the lines between their neighbours.
    let xs: Vec<Point> = vec![(0, 0), (1, 5), (2, 0), (3, -5), (4, 0), (5, 5), (6, 0)];
    assert_eq!(rdp_indices(&xs, 0), vec![0, 1, 3, 5, 6]);
    assert_eq!(rdp_indices(&xs, 3), vec![0, 1, 3, 5, 6]);
    assert_eq!(rdp_indices(&xs, 4), vec![0, 1, 3, 6]);
    assert_eq!(rdp_indices(&xs, 5), vec![0, 6]);
    assert_eq!(rdp(&xs, 4), vec![(0, 0), (1, 5), (3, -5), (6, 0)]);
}

#[test]
fn rdp_keeps_the_outlier_only() {
    let xs: Vec<Point> = vec![(0, 0), (1, 0), (2, 0), (3, 9), (4, 0), (5, 0), (6, 0)];
    assert_eq!(rdp_indices(&xs, 1), vec![0, 2, 3, 4, 6]);
    assert_eq!(rdp_indices(&xs, 2), vec![0, 3, 6]);
    assert_eq!(rdp_indices(&xs, 8), vec![0, 3, 6]);
    assert_eq!(rdp_indices(&xs, 9), vec![0, 6]);
}

#[test]
fn rdp_chord_of_length_zero_collapses() {
    let xs: [Point; 3] = [(0, 0), (5, 5), (0, 0)];
    assert_eq!(rdp(&xs, 0), vec![(0, 0), (0, 0)]);
    assert_eq!(rdp(&xs, 3), vec![(0, 0), (0, 0)]);
}

#[test]
fn rdp_endpoints_stay_whatever_the_tolerance() {
    let xs: Vec<Point> = vec![(3, 4), (1, 0), (2, 9), (3, 7), (4, 7), (9, 9)];
    for tol in [0u64, 1, 2, 5, 100, u64::MAX] {
        let out = rdp(&xs, tol);
        assert_eq!(out.first(), Some(&(3, 4)));
        assert_eq!(out.last(), Some(&(9, 9)));
        assert!(out.len() <= xs.len());
    }
}

#[test]
fn rdp_larger_tolerance_keeps_no_more_points() {
    let xs: Vec<Point> = vec![(0, 0), (1, 3), (2, -1), (3, 8), (4, 2), (5, 2), (6, 0), (7, 5)];
    let mut last = xs.len();
    for tol in [0u64, 1, 2, 3, 4, 5, 6, 7, 8, 9, 100] {
        let n = rdp(&xs, tol).len();
        assert!(n <= last);
        last = n;
    }
    assert_eq!(last, 2);
}

#[test]
fn rdp_indices_select_the_returned_points() {
    let xs: Vec<Point> = vec![(0, 0), (1, 3), (2, -1), (3, 8), (4, 2), (5, 2), (6, 0), (7, 5)];
    for tol in [0u64, 1, 3, 5, 100] {
        let keep = rdp_indices(&xs, tol);
        let picked: Vec<Point> = keep.iter().map(|&i| xs[i]).collect();
        assert_eq!(rdp(&xs, tol), picked);
        assert!(keep.windows(2).all(|w| w[0] < w[1]));
    }
}

#[test]
fn rdp_extreme_coordinates_do_not_overflow() {
    // The corner lies at distance (2^32 - 1) / sqrt(2) from the diagonal,
    // which is a little more than 3037000499.
    let xs: [Point; 3] = [(i32::MIN, i32::MIN), (i32::MAX, i32::MIN), (i32::MAX, i32::MAX)];
    assert_eq!(rdp(&xs, 3037000499).len(), 3);
    assert_eq!(rdp(&xs, 3037000500), vec![(i32::MIN, i32::MIN), (i32::MAX, i32::MAX)]);
    assert_eq!(rdp(&xs, u64::MAX), vec![(i32::MIN, i32::MIN), (i32::MAX, i32::MAX)]);
}

#[test]
fn rdp_splits_thousands_of_times_in_a_row() {
    // A zigzag that narrows: every range splits right behind its start.
    let n: i32 = 3000;
    let xs: Vec<Point> = (0..n).map(|i| (i, if i % 2 == 0 { n - i } else { i - n })).collect();
    assert_eq!(rdp(&xs, 0), xs);
    let keep = rdp_indices(&xs, 5);
    assert_eq!(keep.len(), 2998);
    assert_eq!(&keep[..3], &[0, 1, 2]);
    assert_eq!(&keep[2994..], &[2994, 2995, 2996, 2999]);
}
