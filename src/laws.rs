use vstd::prelude::*;
use vstd::multiset::Multiset;
use crate::point::{
    Point, dist2, pair_in, is_closest, lemma_dist2_symmetric, lemma_pair_of_indices,
    lemma_indices_of_pair,
};
use crate::brute::{first_closest, first_closest_at, scan_before};

verus! {

broadcast use vstd::seq_lib::group_to_multiset_ensures;

/// All closest pairs of one set of points are equally far apart. Each solver
/// returns a closest pair of its input, so any two of them report the same
/// distance on the same points.
pub proof fn lemma_closest_distance_agrees(
    m: Multiset<Point>,
    a1: Point,
    b1: Point,
    d1: int,
    a2: Point,
    b2: Point,
    d2: int,
)
    requires
        is_closest(m, a1, b1, d1),
        is_closest(m, a2, b2, d2),
    ensures
        d1 == d2,
{
    assert(pair_in(m, a1, b1));
    assert(pair_in(m, a2, b2));
}

/// The distance reported does not depend on the order in which the points are
/// given: two orderings of the same points have equally far closest pairs.
pub proof fn lemma_order_does_not_matter(
    s: Seq<Point>,
    t: Seq<Point>,
    a1: Point,
    b1: Point,
    d1: int,
    a2: Point,
    b2: Point,
    d2: int,
)
    requires
        s.to_multiset() == t.to_multiset(),
        is_closest(s.to_multiset(), a1, b1, d1),
        is_closest(t.to_multiset(), a2, b2, d2),
    ensures
        d1 == d2,
{
    lemma_closest_distance_agrees(s.to_multiset(), a1, b1, d1, a2, b2, d2);
}

/// The closest pair of two points is those two points, at their distance.
pub proof fn lemma_two_points(s: Seq<Point>, a: Point, b: Point, d: int)
    requires
        s.len() == 2,
        is_closest(s.to_multiset(), a, b, d),
    ensures
        (a == s[0] && b == s[1]) || (a == s[1] && b == s[0]),
        d == dist2(s[0], s[1]),
{
    assert(s =~= Seq::<Point>::empty().push(s[0]).push(s[1]));
    assert(Seq::<Point>::empty().to_multiset() =~= Multiset::<Point>::empty());
    let m = s.to_multiset();
    assert(m =~= Multiset::<Point>::empty().insert(s[0]).insert(s[1]));
    lemma_dist2_symmetric(s[0], s[1]);
}

/// On two points the scan of the brute-force solver returns them in their order.
pub proof fn lemma_first_closest_two(s: Seq<Point>, a: Point, b: Point, d: int)
    requires
        s.len() == 2,
        first_closest(s, a, b, d),
    ensures
        a == s[0],
        b == s[1],
        d == dist2(s[0], s[1]),
{
    let (i, j) = choose|i: int, j: int| #[trigger] first_closest_at(s, i, j, d) && s[i] == a && s[j] == b;
}

/// The first closest pair of the scan is unique; the divide-and-conquer solver
/// returns it on up to five points, so it then agrees with `brute_force` exactly.
pub proof fn lemma_first_closest_unique(
    s: Seq<Point>,
    a1: Point,
    b1: Point,
    d1: int,
    a2: Point,
    b2: Point,
    d2: int,
)
    requires
        first_closest(s, a1, b1, d1),
        first_closest(s, a2, b2, d2),
    ensures
        a1 == a2,
        b1 == b2,
        d1 == d2,
{
    let (i1, j1) = choose|i: int, j: int| #[trigger] first_closest_at(s, i, j, d1) && s[i] == a1 && s[j] == b1;
    let (i2, j2) = choose|i: int, j: int| #[trigger] first_closest_at(s, i, j, d2) && s[i] == a2 && s[j] == b2;
    assert(d1 <= dist2(s[i2], s[j2]));
    assert(d2 <= dist2(s[i1], s[j1]));
    if scan_before(i1, j1, i2, j2) {
        assert(d2 < dist2(s[i1], s[j1]));
    } else if scan_before(i2, j2, i1, j1) {
        assert(d1 < dist2(s[i2], s[j2]));
    }
}


/// When all points share one `x`, the closest pair is the least difference of
/// `y` between two of them: no candidate is lost for lying on the dividing line.
pub proof fn lemma_shared_x(s: Seq<Point>, a: Point, b: Point, d: int)
    requires
        s.len() >= 2,
        forall|k: int| 0 <= k < s.len() ==> #[trigger] s[k].x == s[0].x,
        is_closest(s.to_multiset(), a, b, d),
    ensures
        exists|i: int, j: int|
            0 <= i < s.len() && 0 <= j < s.len() && i != j && d == (s[i].y - s[j].y) * (s[i].y
                - s[j].y),
        forall|i: int, j: int|
            0 <= i < s.len() && 0 <= j < s.len() && i != j ==> d <= (#[trigger] s[i].y - #[trigger] s[j].y) * (
            s[i].y - s[j].y),
{
    lemma_indices_of_pair(s, a, b);
    let (i, j) = choose|i: int, j: int|
        0 <= i < s.len() && 0 <= j < s.len() && i != j && s[i] == a && s[j] == b;
    assert(s[i].x == s[j].x);
    assert((s[i].x - s[j].x) * (s[i].x - s[j].x) == 0) by (nonlinear_arith)
        requires s[i].x == s[j].x;
    assert(d == (s[i].y - s[j].y) * (s[i].y - s[j].y));
    assert forall|i: int, j: int|
        0 <= i < s.len() && 0 <= j < s.len() && i != j implies d <= (#[trigger] s[i].y
        - #[trigger] s[j].y) * (s[i].y - s[j].y) by {
        lemma_pair_of_indices(s, i, j);
        assert(pair_in(s.to_multiset(), s[i], s[j]));
        assert(s[i].x == s[j].x);
        assert((s[i].x - s[j].x) * (s[i].x - s[j].x) == 0) by (nonlinear_arith)
            requires s[i].x == s[j].x;
    }
}

} // verus!
