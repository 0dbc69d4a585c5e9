use vstd::prelude::*;
use crate::point::{Point, dist2, is_closest, lemma_pair_of_indices, lemma_no_closer_of_indices};

verus! {

/// `(i, j)` comes before `(k, l)` in the scan order of the brute-force solver.
pub open spec fn scan_before(i: int, j: int, k: int, l: int) -> bool {
    i < k || (i == k && j < l)
}

/// The pair at positions `i < j` of `s` is `d` apart, no pair is closer, and
/// every pair that the scan meets before it is strictly farther apart.
pub open spec fn first_closest_at(s: Seq<Point>, i: int, j: int, d: int) -> bool {
    &&& 0 <= i < j < s.len()
    &&& dist2(s[i], s[j]) == d
    &&& forall|k: int, l: int| 0 <= k < l < s.len() ==> d <= #[trigger] dist2(s[k], s[l])
    &&& forall|k: int, l: int|
        0 <= k < l < s.len() && scan_before(k, l, i, j) ==> d < #[trigger] dist2(s[k], s[l])
}

/// `(a, b, d)` is the closest pair of `s` that the scan over `i < j` meets first.
pub open spec fn first_closest(s: Seq<Point>, a: Point, b: Point, d: int) -> bool {
    exists|i: int, j: int| #[trigger] first_closest_at(s, i, j, d) && s[i] == a && s[j] == b
}

/// Closest pair by comparing every two points: the first pair of least distance in
/// the order `(0, 1), (0, 2), .., (1, 2), ..`, with its squared distance.
pub fn brute_force(points: &[Point]) -> (r: (Point, Point, u128))
    requires
        points@.len() >= 2,
    ensures
        first_closest(points@, r.0, r.1, r.2 as int),
        is_closest(points@.to_multiset(), r.0, r.1, r.2 as int),
{
    let n = points.len();
    let mut p1 = points[0];
    let mut p2 = points[1];
    let mut dist = p1.squared_dist(&p2);
    let ghost mut bi: int = 0;
    let ghost mut bj: int = 1;
    let mut i: usize = 0;
    while i < n - 1
        invariant
            n == points@.len(),
            n >= 2,
            0 <= i <= n - 1,
            0 <= bi < bj < n,
            bi < i || (bi == 0 && bj == 1),
            p1 == points@[bi],
            p2 == points@[bj],
            dist == dist2(p1, p2),
            forall|k: int, l: int|
                0 <= k < l < n && k < i ==> dist <= #[trigger] dist2(points@[k], points@[l]),
            forall|k: int, l: int|
                0 <= k < l < n && scan_before(k, l, bi, bj) ==> dist < #[trigger] dist2(
                    points@[k],
                    points@[l],
                ),
        decreases n - i,
    {
        let pi = points[i];
        let mut j: usize = i + 1;
        while j < n
            invariant
                n == points@.len(),
                n >= 2,
                0 <= i < n - 1,
                i + 1 <= j <= n,
                pi == points@[i as int],
                0 <= bi < bj < n,
                bi < i || (bi == i && bj < j) || (bi == 0 && bj == 1),
                p1 == points@[bi],
                p2 == points@[bj],
                dist == dist2(p1, p2),
                forall|k: int, l: int|
                    0 <= k < l < n && (k < i || (k == i && l < j)) ==> dist <= #[trigger] dist2(
                        points@[k],
                        points@[l],
                    ),
                forall|k: int, l: int|
                    0 <= k < l < n && scan_before(k, l, bi, bj) ==> dist < #[trigger] dist2(
                        points@[k],
                        points@[l],
                    ),
            decreases n - j,
        {
            let pj = points[j];
            let d = pi.squared_dist(&pj);
            if d < dist {
                p1 = pi;
                p2 = pj;
                dist = d;
                proof {
                    bi = i as int;
                    bj = j as int;
                }
            }
            j += 1;
        }
        i += 1;
    }
    proof {
        assert(first_closest_at(points@, bi, bj, dist as int));
        lemma_pair_of_indices(points@, bi, bj);
        lemma_no_closer_of_indices(points@, dist as int);
    }
    (p1, p2, dist)
}

} // verus!
