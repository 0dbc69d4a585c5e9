use vstd::prelude::*;
use vstd::multiset::Multiset;

verus! {

broadcast use vstd::seq_lib::group_to_multiset_ensures;

/// A point of the plane with integer coordinates.
#[derive(Clone, Copy, Debug, PartialEq, Eq, Structural)]
pub struct Point {
    pub x: i32,
    pub y: i32,
}

/// Squared Euclidean distance between two points.
pub open spec fn dist2(a: Point, b: Point) -> int {
    (a.x - b.x) * (a.x - b.x) + (a.y - b.y) * (a.y - b.y)
}

/// `a` and `b` are two distinct members of `m` (the same value twice only when
/// `m` holds it at least twice).
pub open spec fn pair_in(m: Multiset<Point>, a: Point, b: Point) -> bool {
    if a == b {
        m.count(a) >= 2
    } else {
        m.count(a) >= 1 && m.count(b) >= 1
    }
}

/// No two distinct members of `m` are closer than `d` (squared).
pub open spec fn no_closer(m: Multiset<Point>, d: int) -> bool {
    forall|p: Point, q: Point| #[trigger] pair_in(m, p, q) ==> d <= dist2(p, q)
}

/// `(a, b, d)` is a closest pair of `m` with its squared distance.
pub open spec fn is_closest(m: Multiset<Point>, a: Point, b: Point, d: int) -> bool {
    &&& pair_in(m, a, b)
    &&& dist2(a, b) == d
    &&& no_closer(m, d)
}

impl Point {
    pub fn new(x: i32, y: i32) -> (r: Point)
        ensures
            r.x == x,
            r.y == y,
    {
        Point { x, y }
    }

    /// Squared Euclidean distance to `p`, exact.
    pub fn squared_dist(&self, p: &Point) -> (r: u128)
        ensures
            r == dist2(*self, *p),
    {
        let dx: i64 = self.x as i64 - p.x as i64;
        let dy: i64 = self.y as i64 - p.y as i64;
        let ax: u64 = if dx < 0 { (0 - dx) as u64 } else { dx as u64 };
        let ay: u64 = if dy < 0 { (0 - dy) as u64 } else { dy as u64 };
        assert((ax as u128) * (ax as u128) <= 0xffff_ffff_ffff_ffffu128) by (nonlinear_arith)
            requires ax <= 0xffff_ffffu64;
        assert((ay as u128) * (ay as u128) <= 0xffff_ffff_ffff_ffffu128) by (nonlinear_arith)
            requires ay <= 0xffff_ffffu64;
        let sx: u128 = (ax as u128) * (ax as u128);
        let sy: u128 = (ay as u128) * (ay as u128);
        assert(sx == dx * dx) by (nonlinear_arith)
            requires sx == ax * ax, ax == dx || ax == -dx;
        assert(sy == dy * dy) by (nonlinear_arith)
            requires sy == ay * ay, ay == dy || ay == -dy;
        sx + sy
    }
}

/// The squared distance does not depend on the order of the two points.
pub proof fn lemma_dist2_symmetric(a: Point, b: Point)
    ensures
        dist2(a, b) == dist2(b, a),
{
    assert(dist2(a, b) == dist2(b, a)) by (nonlinear_arith);
}

/// Largest squared distance between two points.
pub const MAX_DIST2: u128 = 0x1_ffff_fffc_0000_0002;

/// Every squared distance fits under `MAX_DIST2`.
pub proof fn lemma_dist2_bound(a: Point, b: Point)
    ensures
        0 <= dist2(a, b) <= MAX_DIST2,
{
    let dx = a.x - b.x;
    let dy = a.y - b.y;
    assert(0 <= dx * dx <= 0xffff_ffff * 0xffff_ffff) by (nonlinear_arith)
        requires -0xffff_ffff <= dx <= 0xffff_ffff;
    assert(0 <= dy * dy <= 0xffff_ffff * 0xffff_ffff) by (nonlinear_arith)
        requires -0xffff_ffff <= dy <= 0xffff_ffff;
}

/// Two different positions of `s` give a pair of its multiset.
pub proof fn lemma_pair_of_indices(s: Seq<Point>, i: int, j: int)
    requires
        0 <= i < s.len(),
        0 <= j < s.len(),
        i != j,
    ensures
        pair_in(s.to_multiset(), s[i], s[j]),
    decreases s.len(),
{
    let t = s.drop_last();
    let l = s.last();
    assert(s =~= t.push(l));
    assert(s.to_multiset() =~= t.to_multiset().insert(l));
    let n = s.len() - 1;
    if i < n && j < n {
        lemma_pair_of_indices(t, i, j);
        assert(t[i] == s[i] && t[j] == s[j]);
    } else if i == n {
        assert(t.contains(s[j]));
    } else {
        assert(t.contains(s[i]));
    }
}

/// A pair of the multiset of `s` sits at two different positions of `s`.
pub proof fn lemma_indices_of_pair(s: Seq<Point>, p: Point, q: Point)
    requires
        pair_in(s.to_multiset(), p, q),
    ensures
        exists|i: int, j: int|
            0 <= i < s.len() && 0 <= j < s.len() && i != j && s[i] == p && s[j] == q,
    decreases s.len(),
{
    let t = s.drop_last();
    let l = s.last();
    assert(s =~= t.push(l));
    assert(s.to_multiset() =~= t.to_multiset().insert(l));
    let n = s.len() - 1;
    if pair_in(t.to_multiset(), p, q) {
        lemma_indices_of_pair(t, p, q);
        let (i, j) = choose|i: int, j: int|
            0 <= i < t.len() && 0 <= j < t.len() && i != j && t[i] == p && t[j] == q;
        assert(s[i] == p && s[j] == q);
    } else if p == l {
        assert(t.to_multiset().count(q) > 0);
        let k = choose|k: int| 0 <= k < t.len() && t[k] == q;
        assert(s[n] == p && s[k] == q);
    } else {
        assert(q == l);
        assert(t.to_multiset().count(p) > 0);
        let k = choose|k: int| 0 <= k < t.len() && t[k] == p;
        assert(s[k] == p && s[n] == q);
    }
}

/// Every two positions of `s` are at least `d` apart exactly when no pair of its
/// multiset is closer than `d`.
pub proof fn lemma_no_closer_of_indices(s: Seq<Point>, d: int)
    requires
        forall|i: int, j: int|
            0 <= i < j < s.len() ==> d <= #[trigger] dist2(s[i], s[j]),
    ensures
        no_closer(s.to_multiset(), d),
{
    assert forall|p: Point, q: Point| #[trigger] pair_in(s.to_multiset(), p, q) implies d <= dist2(
        p,
        q,
    ) by {
        lemma_indices_of_pair(s, p, q);
        let (i, j) = choose|i: int, j: int|
            0 <= i < s.len() && 0 <= j < s.len() && i != j && s[i] == p && s[j] == q;
        if i < j {
            assert(d <= dist2(s[i], s[j]));
        } else {
            assert(d <= dist2(s[j], s[i]));
            assert(dist2(s[j], s[i]) == dist2(s[i], s[j])) by (nonlinear_arith);
        }
    }
}

} // verus!
