use closest_pair::{brute_force, deterministic, randomized, Point};
use rand::Rng;

fn pts(coords: &[(i32, i32)]) -> Vec<Point> {
    coords.iter().map(|&(x, y)| Point::new(x, y)).collect()
}

fn random_points(n: usize) -> Vec<Point> {
    let mut rng = rand::thread_rng();
    let mut points = Vec::with_capacity(n);
    for _ in 0..n {
        points.push(Point::new(rng.gen_range(0..1000), rng.gen_range(0..1000)));
    }
    points
}

fn unordered_eq(r: (Point, Point, u128), a: Point, b: Point) -> bool {
    (r.0 == a && r.1 == b) || (r.0 == b && r.1 == a)
}

#[test]
fn deterministic_correctness() {
    for _ in 0..100 {
        let mut points = random_points(100);
        let result1 = deterministic::solve(&mut points);
        let result2 = brute_force(&points);
        assert!(result1.2.eq(&result2.2));
    }
}

#[test]
fn randomized_correctness() {
    for _ in 0..100 {
        let mut points = random_points(100);
        let result1 = randomized::solve(&mut points);
        let result2 = brute_force(&points);
        assert!(result1.2.eq(&result2.2));
    }
}

#[test]
fn squared_dist_is_exact() {
    assert_eq!(Point::new(0, 0).squared_dist(&Point::new(3, 4)), 25);
    assert_eq!(Point::new(3, 4).squared_dist(&Point::new(0, 0)), 25);
    assert_eq!(Point::new(-2, 5).squared_dist(&Point::new(1, 1)), 25);
    let far = Point::new(i32::MIN, i32::MIN).squared_dist(&Point::new(i32::MAX, i32::MAX));
    assert_eq!(far, 2 * (u32::MAX as u128) * (u32::MAX as u128));
}

#[test]
fn brute_force_keeps_first_of_equal_pairs() {
    let points = pts(&[(0, 0), (0, 3), (4, 0), (0, 4), (3, 0)]);
    let r = brute_force(&points);
    assert_eq!(r, (Point::new(0, 3), Point::new(0, 4), 1));
}

#[test]
fn all_solvers_find_unit_distance_in_five_points() {
    let points = pts(&[(0, 0), (0, 3), (4, 0), (0, 4), (3, 0)]);
    let a = brute_force(&points);
    let b = deterministic::solve(&mut points.clone());
    let c = randomized::solve(&mut points.clone());
    for r in [a, b, c] {
        assert_eq!(r.2, 1);
        assert!(
            unordered_eq(r, Point::new(0, 3), Point::new(0, 4))
                || unordered_eq(r, Point::new(4, 0), Point::new(3, 0))
        );
    }
}

#[test]
fn all_solvers_find_duplicate_pair() {
    let points = pts(&[(1, 1), (1, 1), (5, 5)]);
    let a = brute_force(&points);
    let b = deterministic::solve(&mut points.clone());
    let c = randomized::solve(&mut points.clone());
    for r in [a, b, c] {
        assert_eq!(r, (Point::new(1, 1), Point::new(1, 1), 0));
    }
}

#[test]
fn deterministic_strip_on_collinear_points() {
    let mut points = pts(&[(0, 0), (0, 1), (0, 2), (0, 3), (0, 4), (0, 5)]);
    let r = deterministic::solve(&mut points);
    assert_eq!(r.2, 1);
    assert_eq!(r.0.x, 0);
    assert_eq!(r.1.x, 0);
    assert_eq!((r.0.y - r.1.y).abs(), 1);
    // the points are left in ascending order of y
    assert_eq!(points, pts(&[(0, 0), (0, 1), (0, 2), (0, 3), (0, 4), (0, 5)]));
}

#[test]
fn deterministic_strip_finds_pair_across_the_line() {
    // the closest pair straddles the dividing line between the two halves
    let mut points = pts(&[(0, 0), (10, 50), (20, 0), (49, 30), (51, 31), (80, 0), (90, 50), (100, 0)]);
    let expected = brute_force(&points);
    let r = deterministic::solve(&mut points);
    assert_eq!(r.2, 5);
    assert_eq!(r.2, expected.2);
    assert!(unordered_eq(r, Point::new(49, 30), Point::new(51, 31)));
}

#[test]
fn two_points_are_their_own_closest_pair() {
    let points = pts(&[(7, 1), (2, 13)]);
    assert_eq!(brute_force(&points), (Point::new(7, 1), Point::new(2, 13), 169));
    let mut d = points.clone();
    assert_eq!(deterministic::solve(&mut d), (Point::new(7, 1), Point::new(2, 13), 169));
    assert_eq!(d, points);
    let mut r = points.clone();
    let res = randomized::solve(&mut r);
    assert_eq!(res.2, 169);
    assert!(unordered_eq(res, Point::new(7, 1), Point::new(2, 13)));
}

#[test]
fn deterministic_equals_brute_force_on_small_inputs() {
    let cases = [
        pts(&[(5, 5), (1, 1), (3, 3)]),
        pts(&[(0, 0), (2, 0), (0, 2), (2, 2)]),
        pts(&[(9, 9), (4, 4), (8, 8), (0, 0), (5, 5)]),
    ];
    for points in cases {
        let expected = brute_force(&points);
        let mut p = points.clone();
        assert_eq!(deterministic::solve(&mut p), expected);
        assert_eq!(p, points);
    }
}

#[test]
fn distance_does_not_depend_on_order() {
    for _ in 0..20 {
        let points = random_points(60);
        let mut reversed = points.clone();
        reversed.reverse();
        let d = brute_force(&points).2;
        assert_eq!(brute_force(&reversed).2, d);
        assert_eq!(deterministic::solve(&mut points.clone()).2, d);
        assert_eq!(deterministic::solve(&mut reversed.clone()).2, d);
        assert_eq!(randomized::solve(&mut points.clone()).2, d);
        assert_eq!(randomized::solve(&mut reversed.clone()).2, d);
    }
}

#[test]
fn deterministic_handles_negative_coordinates() {
    let mut points = pts(&[(-10, -10), (-3, 4), (7, -2), (-8, -9), (12, 12), (0, 0), (5, 5)]);
    let expected = brute_force(&points);
    let r = deterministic::solve(&mut points);
    assert_eq!(r.2, 5);
    assert_eq!(r.2, expected.2);
}

#[test]
fn randomized_solve_shuffles_its_input() {
    let given: Vec<Point> = (0..1000).map(|i| Point::new(i * 3, i * 7)).collect();
    let mut points = given.clone();
    let r = randomized::solve(&mut points);
    assert_eq!(r.2, 58);
    assert_ne!(points, given);
    let mut sorted = points.clone();
    sorted.sort_by_key(|p| p.x);
    assert_eq!(sorted, given);
}

#[test]
fn solve_in_order_uses_given_order() {
    let points = pts(&[(0, 0), (100, 100), (50, 50), (51, 52), (200, 0)]);
    let r = randomized::solve_in_order(&points);
    assert_eq!(r.2, 5);
    assert!(unordered_eq(r, Point::new(50, 50), Point::new(51, 52)));
}

#[test]
fn deterministic_leaves_points_sorted_by_y() {
    for _ in 0..20 {
        let mut points = random_points(50);
        let mut expected = points.clone();
        let _ = deterministic::solve(&mut points);
        assert!(points.windows(2).all(|w| w[0].y <= w[1].y));
        let mut got = points.clone();
        got.sort_by_key(|p| (p.x, p.y));
        expected.sort_by_key(|p| (p.x, p.y));
        assert_eq!(got, expected);
    }
}
