use vstd::prelude::*;
use vstd::seq_lib::lemma_multiset_commutative;
use crate::point::Point;

verus! {

broadcast use vstd::seq_lib::group_to_multiset_ensures;

/// The coordinate of `p` that an order goes by: `y` when `by_y`, else `x`.
pub open spec fn coord(p: Point, by_y: bool) -> int {
    if by_y {
        p.y as int
    } else {
        p.x as int
    }
}

/// `s` is in ascending order of the chosen coordinate.
pub open spec fn sorted_by(s: Seq<Point>, by_y: bool) -> bool {
    forall|a: int, b: int| 0 <= a < b < s.len() ==> coord(s[a], by_y) <= coord(s[b], by_y)
}

/// `t` equals `s` outside the positions `lo .. hi`, and holds the same points there.
pub open spec fn permuted_within(s: Seq<Point>, t: Seq<Point>, lo: int, hi: int) -> bool {
    &&& t.len() == s.len()
    &&& forall|k: int| 0 <= k < s.len() && !(lo <= k < hi) ==> #[trigger] t[k] == s[k]
    &&& t.subrange(lo, hi).to_multiset() == s.subrange(lo, hi).to_multiset()
}

/// The points of `lo .. hi` are those of `lo .. m` and of `m .. hi` together.
pub proof fn lemma_split_multiset(s: Seq<Point>, lo: int, m: int, hi: int)
    requires
        0 <= lo <= m <= hi <= s.len(),
    ensures
        s.subrange(lo, hi).to_multiset() == s.subrange(lo, m).to_multiset().add(
            s.subrange(m, hi).to_multiset(),
        ),
{
    assert(s.subrange(lo, hi) =~= s.subrange(lo, m) + s.subrange(m, hi));
    lemma_multiset_commutative(s.subrange(lo, m), s.subrange(m, hi));
}

fn coord_of(p: &Point, by_y: bool) -> (r: i32)
    ensures
        r == coord(*p, by_y),
{
    if by_y {
        p.y
    } else {
        p.x
    }
}

/// Merges the ordered runs `lo .. m` and `m .. hi` of `points` into one ordered
/// run, through a copy of the range.
pub fn merge_runs(points: &mut Vec<Point>, lo: usize, m: usize, hi: usize, by_y: bool)
    requires
        lo <= m <= hi <= old(points)@.len(),
        sorted_by(old(points)@.subrange(lo as int, m as int), by_y),
        sorted_by(old(points)@.subrange(m as int, hi as int), by_y),
    ensures
        permuted_within(old(points)@, final(points)@, lo as int, hi as int),
        sorted_by(final(points)@.subrange(lo as int, hi as int), by_y),
{
    let ghost o = points@;
    let mut copy: Vec<Point> = Vec::with_capacity(hi - lo);
    let mut k: usize = lo;
    while k < hi
        invariant
            points@ == o,
            lo <= k <= hi <= o.len(),
            copy@ == o.subrange(lo as int, k as int),
        decreases hi - k,
    {
        copy.push(points[k]);
        k += 1;
        proof {
            assert(copy@ =~= o.subrange(lo as int, k as int));
        }
    }
    let h: usize = m - lo;
    let w: usize = hi - lo;
    let mut cl: usize = 0;
    let mut cr: usize = h;
    proof {
        assert(copy@.subrange(0, h as int) =~= o.subrange(lo as int, m as int));
        assert(copy@.subrange(h as int, w as int) =~= o.subrange(m as int, hi as int));
    }
    while cl < h || cr < w
        invariant
            copy@ == o.subrange(lo as int, hi as int),
            lo <= m <= hi <= o.len(),
            h == m - lo,
            w == hi - lo,
            0 <= cl <= h <= cr <= w,
            points@.len() == o.len(),
            forall|k: int| 0 <= k < o.len() && !(lo <= k < hi) ==> #[trigger] points@[k] == o[k],
            sorted_by(copy@.subrange(0, h as int), by_y),
            sorted_by(copy@.subrange(h as int, w as int), by_y),
            points@.subrange(lo as int, lo + cl + cr - h).to_multiset() == copy@.subrange(
                0,
                cl as int,
            ).to_multiset().add(copy@.subrange(h as int, cr as int).to_multiset()),
            sorted_by(points@.subrange(lo as int, lo + cl + cr - h), by_y),
            cl + cr - h > 0 && cl < h ==> coord(points@[lo + cl + cr - h - 1], by_y) <= coord(
                copy@[cl as int],
                by_y,
            ),
            cl + cr - h > 0 && cr < w ==> coord(points@[lo + cl + cr - h - 1], by_y) <= coord(
                copy@[cr as int],
                by_y,
            ),
        decreases w - cl + w - cr,
    {
        let out: usize = lo + cl + (cr - h);
        let ghost before = points@;
        let take_left = cr == w || (cl < h && coord_of(&copy[cl], by_y) <= coord_of(&copy[cr], by_y));
        let ghost next: Point;
        if take_left {
            proof {
                next = copy@[cl as int];
            }
            points.set(out, copy[cl]);
            proof {
                assert(copy@.subrange(0, cl + 1) =~= copy@.subrange(0, cl as int).push(next));
            }
            cl += 1;
            proof {
                if cl < h {
                    assert(copy@.subrange(0, h as int)[cl - 1] == next);
                    assert(copy@.subrange(0, h as int)[cl as int] == copy@[cl as int]);
                }
            }
        } else {
            proof {
                next = copy@[cr as int];
            }
            points.set(out, copy[cr]);
            proof {
                assert(copy@.subrange(h as int, cr + 1) =~= copy@.subrange(h as int, cr as int).push(
                    next,
                ));
            }
            cr += 1;
            proof {
                if cr < w {
                    assert(copy@.subrange(h as int, w as int)[cr - 1 - h] == next);
                    assert(copy@.subrange(h as int, w as int)[cr - h] == copy@[cr as int]);
                }
            }
        }
        proof {
            assert(points@.subrange(lo as int, out + 1) =~= before.subrange(lo as int, out as int).push(
                next,
            ));
            assert(points@[out as int] == next);
            let pre = before.subrange(lo as int, out as int);
            let ns = points@.subrange(lo as int, out + 1);
            assert forall|a: int, b: int|
                #![trigger ns[a], ns[b]]
                0 <= a < b < ns.len() implies coord(ns[a], by_y) <= coord(ns[b], by_y) by {
                if b < out - lo {
                    assert(pre[a] == ns[a]);
                    assert(pre[b] == ns[b]);
                } else if a < out - lo {
                    assert(pre[a] == ns[a]);
                    assert(coord(pre[a], by_y) <= coord(pre[out - lo - 1], by_y));
                }
            }
        }
    }
    proof {
        assert(copy@ =~= copy@.subrange(0, h as int) + copy@.subrange(h as int, w as int));
        lemma_multiset_commutative(copy@.subrange(0, h as int), copy@.subrange(h as int, w as int));
        assert(copy@.subrange(0, w as int) =~= copy@);
    }
}

/// Sorts the positions `lo .. hi` of `points` by the chosen coordinate (merge sort).
pub fn sort_range(points: &mut Vec<Point>, lo: usize, hi: usize, by_y: bool)
    requires
        lo <= hi <= old(points)@.len(),
    ensures
        permuted_within(old(points)@, final(points)@, lo as int, hi as int),
        sorted_by(final(points)@.subrange(lo as int, hi as int), by_y),
    decreases hi - lo,
{
    if hi - lo <= 1 {
        return;
    }
    let ghost o = points@;
    let m: usize = lo + (hi - lo) / 2;
    sort_range(points, lo, m, by_y);
    let ghost p1 = points@;
    sort_range(points, m, hi, by_y);
    let ghost p2 = points@;
    proof {
        assert(p2.subrange(lo as int, m as int) =~= p1.subrange(lo as int, m as int));
    }
    merge_runs(points, lo, m, hi, by_y);
    proof {
        lemma_split_multiset(o, lo as int, m as int, hi as int);
        lemma_split_multiset(p1, lo as int, m as int, hi as int);
        lemma_split_multiset(p2, lo as int, m as int, hi as int);
        assert(p1.subrange(m as int, hi as int) =~= o.subrange(m as int, hi as int));
    }
}

} // verus!
