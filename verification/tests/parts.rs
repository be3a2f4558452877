use line_simplify::adjacency::Adjacency;
use line_simplify::geometry::{chord_length_sq, exceeds, offset_from_line, triangle_area};
use line_simplify::indices::select_points;
use line_simplify::queue::{Candidate, CandidateQueue};
use line_simplify::reducer::{Reducer, Step};
use line_simplify::wide::{mul_wide, wide_greater};
use line_simplify::Point;

fn candidate(area: u128, index: usize) -> Candidate {
    Candidate { area, index, left: index - 1, right: index + 1 }
}

#[test]
fn triangle_area_follows_the_formula() {
    assert_eq!(triangle_area((0, 0), (1, 10), (2, 0)), 20);
    assert_eq!(triangle_area((2, 0), (1, 10), (0, 0)), 20);
    assert_eq!(triangle_area((0, 0), (1, 0), (2, 0)), 0);
    assert_eq!(triangle_area((0, 0), (0, 0), (0, 0)), 0);
    assert_eq!(triangle_area((1, 1), (2, 0), (3, 5)), 6);
    assert_eq!(triangle_area((-3, 7), (4, -1), (10, 12)), 139);
}

#[test]
fn triangle_area_of_extreme_points() {
    let a: Point = (i32::MIN, i32::MIN);
    let t: Point = (i32::MAX, i32::MAX);
    let b: Point = (i32::MIN, i32::MAX);
    assert_eq!(triangle_area(a, t, b), 0xffff_fffe_0000_0001);
    assert_eq!(triangle_area(a, b, t), 0xffff_fffe_0000_0001);
}

#[test]
fn offset_follows_the_formula() {
    assert_eq!(offset_from_line((0, 0), (2, 0), (1, 1)), 2);
    assert_eq!(offset_from_line((0, 0), (3, 4), (15, 0)), 60);
    assert_eq!(offset_from_line((0, 0), (3, 4), (-15, 0)), 60);
    assert_eq!(offset_from_line((0, 0), (3, 4), (6, 8)), 0);
    assert_eq!(offset_from_line((1, 5), (6, 0), (3, -5)), 40);
    assert_eq!(offset_from_line((5, 5), (5, 5), (9, -4)), 0);
    assert_eq!(offset_from_line((4, 4), (7, 9), (4, 4)), 0);
}

#[test]
fn offset_of_extreme_points() {
    let l: Point = (i32::MIN, i32::MIN);
    let r: Point = (i32::MAX, i32::MAX);
    assert_eq!(offset_from_line(l, r, (i32::MAX, i32::MIN)), 0xffff_fffe_0000_0001);
    assert_eq!(offset_from_line(l, r, (i32::MIN, i32::MAX)), 0xffff_fffe_0000_0001);
}

#[test]
fn chord_length_is_squared() {
    assert_eq!(chord_length_sq((0, 0), (3, 4)), 25);
    assert_eq!(chord_length_sq((3, 4), (0, 0)), 25);
    assert_eq!(chord_length_sq((-1, -1), (-1, -1)), 0);
    assert_eq!(
        chord_length_sq((i32::MIN, i32::MIN), (i32::MAX, i32::MAX)),
        2 * 0xffff_fffe_0000_0001
    );
}

#[test]
fn exceeds_compares_squares() {
    assert!(exceeds(60, 25, 11));
    assert!(!exceeds(60, 25, 12));
    assert!(!exceeds(60, 25, 13));
    assert!(!exceeds(0, 0, 0));
    assert!(!exceeds(0, 25, 0));
    assert!(exceeds(1, 25, 0));
    assert!(exceeds(1, 0, u64::MAX));
}

#[test]
fn exceeds_beyond_128_bits() {
    // Both squares need more than 128 bits.
    let offset: u128 = 1 << 100;
    let tol: u64 = 1 << 50;
    assert!(!exceeds(offset, 1 << 100, tol));
    assert!(exceeds(offset + 1, 1 << 100, tol));
    assert!(exceeds(offset, (1 << 100) - 1, tol));
    assert!(exceeds(u128::MAX, u128::MAX, u64::MAX));
    assert!(!exceeds(1 << 64, u128::MAX, u64::MAX));
    assert!(exceeds(u128::MAX, 1, u64::MAX));
}

#[test]
fn mul_wide_gives_both_halves() {
    assert_eq!(mul_wide(0, 0), (0, 0));
    assert_eq!(mul_wide(7, 6), (0, 42));
    assert_eq!(mul_wide(u128::MAX, 1), (0, u128::MAX));
    assert_eq!(mul_wide(u128::MAX, 2), (1, u128::MAX - 1));
    assert_eq!(mul_wide(1 << 64, 1 << 64), (1, 0));
    assert_eq!(mul_wide(u128::MAX, u128::MAX), (u128::MAX - 1, 1));
    assert_eq!(
        mul_wide(0x1234_5678_9abc_def0_0fed_cba9_8765_4321, 0xfedc_ba98_7654_3210_0123_4567_89ab_cdef),
        (0x121f_a00a_d77d_7422_335d_eb75_95e5_ff7a, 0x985f_06f6_9446_7394_2223_6d88_fe56_18cf)
    );
}

#[test]
fn wide_greater_orders_by_high_half_first() {
    assert!(wide_greater((1, 0), (0, u128::MAX)));
    assert!(!wide_greater((0, u128::MAX), (1, 0)));
    assert!(wide_greater((3, 5), (3, 4)));
    assert!(!wide_greater((3, 4), (3, 4)));
    assert!(!wide_greater((3, 4), (3, 5)));
}

#[test]
fn candidates_are_ordered_by_area_then_index() {
    assert!(candidate(1, 9).is_before(&candidate(2, 3)));
    assert!(!candidate(2, 3).is_before(&candidate(1, 9)));
    assert!(candidate(2, 3).is_before(&candidate(2, 9)));
    assert!(!candidate(2, 9).is_before(&candidate(2, 3)));
    assert!(candidate(2, 3).is_before(&candidate(2, 3)));
}

#[test]
fn queue_hands_out_least_first() {
    let mut q = CandidateQueue::new();
    assert!(q.is_empty());
    assert!(q.peek().is_none());
    assert!(q.pop().is_none());
    let areas: [u128; 12] = [50, 20, 90, 10, 70, 30, 80, 60, 40, 100, 0, 20];
    for (i, a) in areas.iter().enumerate() {
        q.push(candidate(*a, i + 1));
    }
    assert_eq!(q.len(), 12);
    assert!(!q.is_empty());
    assert_eq!(q.peek(), Some(candidate(0, 11)));
    assert_eq!(q.len(), 12);
    let mut out: Vec<(u128, usize)> = Vec::new();
    while let Some(c) = q.pop() {
        assert_eq!((c.left, c.right), (c.index - 1, c.index + 1));
        out.push((c.area, c.index));
    }
    assert_eq!(
        out,
        vec![
            (0, 11),
            (10, 4),
            (20, 2),
            (20, 12),
            (30, 6),
            (40, 9),
            (50, 1),
            (60, 8),
            (70, 5),
            (80, 7),
            (90, 3),
            (100, 10)
        ]
    );
    assert!(q.is_empty());
    assert_eq!(q.len(), 0);
}

#[test]
fn queue_keeps_repeated_candidates() {
    let mut q = CandidateQueue::new();
    q.push(candidate(5, 1));
    q.push(candidate(5, 1));
    q.push(candidate(3, 2));
    assert_eq!(q.len(), 3);
    assert_eq!(q.pop().map(|c| (c.area, c.index)), Some((3, 2)));
    assert_eq!(q.pop().map(|c| (c.area, c.index)), Some((5, 1)));
    assert_eq!(q.pop().map(|c| (c.area, c.index)), Some((5, 1)));
    assert!(q.pop().is_none());
}

#[test]
fn adjacency_starts_as_a_chain() {
    let a = Adjacency::new(4);
    assert_eq!(a.size(), 4);
    assert_eq!(a.neighbours(0), Some((4, 1)));
    assert_eq!(a.neighbours(1), Some((0, 2)));
    assert_eq!(a.neighbours(2), Some((1, 3)));
    assert_eq!(a.neighbours(3), Some((2, 4)));
    assert_eq!(a.surviving(), vec![0, 1, 2, 3]);
}

#[test]
fn adjacency_of_nothing_and_of_one() {
    let a = Adjacency::new(0);
    assert_eq!(a.size(), 0);
    assert_eq!(a.surviving(), Vec::<usize>::new());
    let b = Adjacency::new(1);
    assert_eq!(b.neighbours(0), Some((1, 1)));
    assert_eq!(b.surviving(), vec![0]);
}

#[test]
fn adjacency_remove_splices_and_marks() {
    let mut a = Adjacency::new(5);
    a.remove(2);
    assert_eq!(a.size(), 5);
    assert_eq!(a.neighbours(2), None);
    assert_eq!(a.neighbours(1), Some((0, 3)));
    assert_eq!(a.neighbours(3), Some((1, 4)));
    assert_eq!(a.surviving(), vec![0, 1, 3, 4]);
    a.remove(1);
    assert_eq!(a.neighbours(1), None);
    assert_eq!(a.neighbours(0), Some((5, 3)));
    assert_eq!(a.neighbours(3), Some((0, 4)));
    a.remove(3);
    assert_eq!(a.neighbours(0), Some((5, 4)));
    assert_eq!(a.neighbours(4), Some((0, 5)));
    assert_eq!(a.surviving(), vec![0, 4]);
}

#[test]
fn select_points_follows_the_indices() {
    let xs: [Point; 4] = [(0, 0), (1, 1), (2, 4), (3, 9)];
    assert_eq!(select_points(&xs, &vec![3, 0, 0, 2]), vec![(3, 9), (0, 0), (0, 0), (2, 4)]);
    assert_eq!(select_points(&xs, &Vec::new()), Vec::<Point>::new());
}

#[test]
fn reducer_discards_stale_and_removes_fitting_candidates() {
    let mut r = Reducer::new(5);
    assert_eq!(r.step(100), Step::AtRest);
    r.offer(candidate(2, 1));
    r.offer(candidate(6, 2));
    r.offer(candidate(10, 3));
    assert_eq!(r.step(2), Step::AtRest);
    assert_eq!(r.step(7), Step::Removed(candidate(2, 1)));
    assert_eq!(r.triangle(0), None);
    assert_eq!(r.triangle(1), None);
    assert_eq!(r.triangle(2), Some((0, 3)));
    r.offer(Candidate { area: 10, index: 2, left: 0, right: 3 });
    assert_eq!(r.step(7), Step::Discarded(candidate(6, 2)));
    assert_eq!(r.step(7), Step::AtRest);
    assert_eq!(r.surviving(), vec![0, 2, 3, 4]);
    assert_eq!(r.step(11), Step::Removed(Candidate { area: 10, index: 2, left: 0, right: 3 }));
    assert_eq!(r.triangle(3), Some((0, 4)));
    assert_eq!(r.step(11), Step::Discarded(candidate(10, 3)));
    assert_eq!(r.step(11), Step::AtRest);
    assert_eq!(r.surviving(), vec![0, 3, 4]);
}

#[test]
fn reducer_reports_no_triangle_at_the_ends() {
    let r = Reducer::new(3);
    assert_eq!(r.triangle(0), None);
    assert_eq!(r.triangle(1), Some((0, 2)));
    assert_eq!(r.triangle(2), None);
    assert_eq!(r.surviving(), vec![0, 1, 2]);
}
