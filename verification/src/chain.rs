//! Convex chains over points sorted from left to right.
//!
//! Points are named by their position `0..n` in the sorted list, and
//! `left(a, b, c)` for `a < b < c` says that `a -> b -> c` turns strictly
//! left, that is, `b` lies strictly below the chord from `a` to `c`. For exact
//! orientations of points sorted by x (then y) the answers obey a few rules on
//! four points, collected in `sweep_consistent`; from them, a chain from the
//! first to the last point that turns left everywhere and passes under no
//! point is exactly the set of strict hull vertices.

use vstd::prelude::*;

verus! {

/// The rules on four sorted points `a < b < c < d` that exact orientations
/// obey (for points sorted by x the slopes of `ab`, `bc`, ... decide them):
/// a chain turning left twice turns left over any three of its points; a
/// point on or above a chord that another point lies strictly below passes
/// that on; and lying on or above a chord carries over to the wider chord.
pub open spec fn four_point_rules(left: spec_fn(i32, i32, i32) -> bool, a: i32, b: i32, c: i32, d: i32) -> bool {
    &&& (left(a, b, c) && left(b, c, d) ==> left(a, b, d) && left(a, c, d))
    &&& (!left(a, b, c) && left(a, c, d) ==> left(b, c, d))
    &&& (left(a, b, d) && !left(b, c, d) ==> left(a, b, c))
    &&& (!left(a, b, c) && !left(a, c, d) ==> !left(a, b, d))
    &&& (!left(b, c, d) && !left(a, b, d) ==> !left(a, c, d))
}

/// The rules hold for all sorted four-tuples of points below `n`.
pub open spec fn sweep_consistent(left: spec_fn(i32, i32, i32) -> bool, n: int) -> bool {
    forall|a: i32, b: i32, c: i32, d: i32|
        0 <= a < b < c < d < n ==> #[trigger] four_point_rules(left, a, b, c, d)
}

/// Point `b` is a strict vertex of the lower hull of the points below `n`:
/// an end, or strictly below every chord over it.
pub open spec fn lower_hull_vertex(left: spec_fn(i32, i32, i32) -> bool, n: int, b: i32) -> bool {
    ||| b == 0
    ||| b == n - 1
    ||| (0 < b < n - 1 && forall|a: i32, c: i32| 0 <= a < b < c < n ==> #[trigger] left(a, b, c))
}

/// Points below `n` with increasing positions, turning left at each inner
/// point.
pub open spec fn left_turning_chain(left: spec_fn(i32, i32, i32) -> bool, n: int, chain: Seq<i32>) -> bool {
    &&& forall|k: int| 0 <= k < chain.len() ==> 0 <= #[trigger] chain[k] < n
    &&& forall|i: int, j: int| 0 <= i < j < chain.len() ==> chain[i] < chain[j]
    &&& forall|k: int|
        0 <= k && k + 2 < chain.len() ==> #[trigger] left(chain[k], chain[k + 1], chain[k + 2])
}

/// The same relation read on the points in the opposite order: position `a`
/// stands for point `n - 1 - a`.
pub open spec fn reversed(left: spec_fn(i32, i32, i32) -> bool, n: int) -> spec_fn(i32, i32, i32) -> bool {
    |a: i32, b: i32, c: i32| left((n - 1 - a) as i32, (n - 1 - b) as i32, (n - 1 - c) as i32)
}

/// A chain from the first to the last of `n` points, with increasing
/// positions, turning left at each inner point, and with every point it
/// passes over lying on or above the edge it passes under.
pub open spec fn lower_convex_chain(left: spec_fn(i32, i32, i32) -> bool, n: int, chain: Seq<i32>) -> bool {
    &&& chain.len() >= 2
    &&& chain[0] == 0
    &&& chain.last() == n - 1
    &&& left_turning_chain(left, n, chain)
    &&& forall|k: int, x: i32|
        0 <= k && k + 1 < chain.len() && chain[k] < x < chain[k + 1] ==> !#[trigger] left(
            chain[k],
            x,
            #[trigger] chain[k + 1],
        )
}

/// Any three points of a chain that turns left at each inner point turn left.
pub proof fn lemma_chain_convex(left: spec_fn(i32, i32, i32) -> bool, n: int, chain: Seq<i32>, p: int, q: int, r: int)
    requires
        sweep_consistent(left, n),
        left_turning_chain(left, n, chain),
        0 <= p < q < r < chain.len(),
    ensures
        left(chain[p], chain[q], chain[r]),
    decreases r - p,
{
    assert(0 <= chain[p] && chain[r] < n);
    if r - p == 2 {
        assert(left(chain[p], chain[p + 1], chain[p + 2]));
    } else if r > q + 1 {
        lemma_chain_convex(left, n, chain, p, q, r - 1);
        lemma_chain_convex(left, n, chain, q, r - 1, r);
        assert(four_point_rules(left, chain[p], chain[q], chain[r - 1], chain[r]));
    } else {
        lemma_chain_convex(left, n, chain, p, q - 1, q);
        lemma_chain_convex(left, n, chain, q - 1, q, r);
        assert(four_point_rules(left, chain[p], chain[q - 1], chain[q], chain[r]));
    }
}

/// The last chain position at or left of point `x`.
proof fn lemma_locate(chain: Seq<i32>, x: i32) -> (k: int)
    requires
        chain.len() >= 1,
        chain[0] <= x,
        forall|i: int, j: int| 0 <= i < j < chain.len() ==> chain[i] < chain[j],
    ensures
        0 <= k < chain.len(),
        chain[k] <= x,
        k + 1 < chain.len() ==> x < chain[k + 1],
    decreases chain.len(),
{
    if chain.last() <= x {
        (chain.len() - 1) as int
    } else {
        let prefix = chain.drop_last();
        if prefix.len() == 0 {
            0
        } else {
            let k = lemma_locate(prefix, x);
            assert(prefix[k] == chain[k]);
            if k + 1 < prefix.len() {
                assert(prefix[k + 1] == chain[k + 1]);
            }
            k
        }
    }
}

/// An inner point of such a chain is strictly below the chord from any
/// point on its left to the next chain point.
proof fn lemma_below_to_next(left: spec_fn(i32, i32, i32) -> bool, n: int, chain: Seq<i32>, j: int, a: i32)
    requires
        sweep_consistent(left, n),
        lower_convex_chain(left, n, chain),
        0 < j < chain.len() - 1,
        0 <= a < chain[j],
    ensures
        left(a, chain[j], chain[j + 1]),
{
    let s = lemma_locate(chain, a);
    assert(s < j) by {
        if s >= j {
            if s > j {
                assert(chain[j] < chain[s]);
            }
        }
    }
    assert(chain[j + 1] < n) by {
        if j + 1 < chain.len() - 1 {
            assert(chain[j + 1] < chain[chain.len() - 1]);
        }
    }
    if chain[s] == a {
        lemma_chain_convex(left, n, chain, s, j, j + 1);
    } else {
        assert(a < chain[s + 1]);
        assert(!left(chain[s], a, chain[s + 1]));
        assert(0 <= chain[s]) by {
            if s > 0 {
                assert(chain[0] < chain[s]);
            }
        }
        if s + 1 == j {
            lemma_chain_convex(left, n, chain, s, j, j + 1);
            assert(four_point_rules(left, chain[s], a, chain[j], chain[j + 1]));
        } else {
            lemma_chain_convex(left, n, chain, s, s + 1, j);
            assert(four_point_rules(left, chain[s], a, chain[s + 1], chain[j]));
            lemma_chain_convex(left, n, chain, s + 1, j, j + 1);
            assert(four_point_rules(left, a, chain[s + 1], chain[j], chain[j + 1]));
        }
    }
}

/// An inner point of such a chain is strictly below every chord over it.
proof fn lemma_inner_is_vertex(left: spec_fn(i32, i32, i32) -> bool, n: int, chain: Seq<i32>, j: int, a: i32, c: i32)
    requires
        sweep_consistent(left, n),
        lower_convex_chain(left, n, chain),
        0 < j < chain.len() - 1,
        0 <= a < chain[j] < c < n,
    ensures
        left(a, chain[j], c),
{
    let b = chain[j];
    lemma_below_to_next(left, n, chain, j, a);
    let t = lemma_locate(chain, c);
    assert(t >= j) by {
        if t < j {
            assert(chain[t] < chain[j]);
        }
    }
    if t == j {
        assert(t + 1 < chain.len()) by {
            if t + 1 >= chain.len() {
                assert(chain.last() == chain[j]);
            }
        }
        assert(!left(chain[j], c, chain[j + 1]));
        assert(chain[j + 1] < n) by {
            if j + 1 < chain.len() - 1 {
                assert(chain[j + 1] < chain[chain.len() - 1]);
            }
        }
        if c < chain[j + 1] {
            assert(four_point_rules(left, a, b, c, chain[j + 1]));
        }
    } else {
        lemma_below_to_t(left, n, chain, j, a, t);
        if chain[t] < c {
            assert(t + 1 < chain.len()) by {
                if t + 1 >= chain.len() {
                    assert(chain.last() == chain[t]);
                }
            }
            assert(!left(chain[t], c, chain[t + 1]));
            assert(c < chain[t + 1]);
            assert(chain[t + 1] < n) by {
                if t + 1 < chain.len() - 1 {
                    assert(chain[t + 1] < chain[chain.len() - 1]);
                }
            }
            lemma_chain_convex(left, n, chain, j, t, t + 1);
            assert(four_point_rules(left, b, chain[t], c, chain[t + 1]));
            assert(four_point_rules(left, a, b, chain[t], c));
        }
    }
}

/// Walking along the chain: an inner point stays strictly below the chord
/// from a point on its left to any later chain point.
proof fn lemma_below_to_t(left: spec_fn(i32, i32, i32) -> bool, n: int, chain: Seq<i32>, j: int, a: i32, t: int)
    requires
        sweep_consistent(left, n),
        lower_convex_chain(left, n, chain),
        0 < j < t < chain.len(),
        0 <= a < chain[j],
        left(a, chain[j], chain[j + 1]),
    ensures
        left(a, chain[j], chain[t]),
    decreases t - j,
{
    if t > j + 1 {
        lemma_below_to_t(left, n, chain, j, a, t - 1);
        lemma_chain_convex(left, n, chain, j, t - 1, t);
        assert(chain[t] < n) by {
            if t < chain.len() - 1 {
                assert(chain[t] < chain[chain.len() - 1]);
            }
        }
        assert(four_point_rules(left, a, chain[j], chain[t - 1], chain[t]));
    }
}

/// A chain from the first to the last point that turns left everywhere and
/// passes under no point holds exactly the strict vertices of the lower hull.
pub proof fn lemma_convex_chain_is_hull(left: spec_fn(i32, i32, i32) -> bool, n: int, chain: Seq<i32>, b: i32)
    requires
        sweep_consistent(left, n),
        lower_convex_chain(left, n, chain),
        0 <= b < n,
    ensures
        chain.contains(b) == lower_hull_vertex(left, n, b),
{
    if chain.contains(b) {
        let j = choose|j: int| 0 <= j < chain.len() && chain[j] == b;
        if 0 < j < chain.len() - 1 {
            assert(chain[0] < b);
            assert(b < chain.last());
            assert forall|a: i32, c: i32| 0 <= a < b < c < n implies #[trigger] left(a, b, c) by {
                lemma_inner_is_vertex(left, n, chain, j, a, c);
            }
        } else if j == 0 {
        } else {
        }
    } else {
        let k = lemma_locate(chain, b);
        assert(chain[k] != b);
        if k + 1 >= chain.len() {
            assert(b != n - 1);
            assert(b > n - 1);
        }
        assert(!left(chain[k], b, chain[k + 1]));
        assert(0 <= chain[k]) by {
            if k > 0 {
                assert(chain[0] < chain[k]);
            }
        }
        assert(chain[k + 1] <= n - 1) by {
            if k + 1 < chain.len() - 1 {
                assert(chain[k + 1] < chain[chain.len() - 1]);
            }
        }
    }
}

/// Where each point lies relative to an edge of such a chain: a point the
/// edge passes over is on or above it, a point left of the edge lies
/// strictly above the edge's line on that side, and so does a point right of
/// it.
pub proof fn lemma_chain_edge_sides(left: spec_fn(i32, i32, i32) -> bool, n: int, chain: Seq<i32>, k: int, p: i32)
    requires
        sweep_consistent(left, n),
        lower_convex_chain(left, n, chain),
        0 <= k && k + 1 < chain.len(),
        0 <= p < n,
    ensures
        chain[k] < p < chain[k + 1] ==> !left(chain[k], p, chain[k + 1]),
        p < chain[k] ==> left(p, chain[k], chain[k + 1]),
        p > chain[k + 1] ==> left(chain[k], chain[k + 1], p),
{
    if p < chain[k] {
        assert(k > 0) by {
            if k == 0 {
                assert(chain[0] == 0);
            }
        }
        assert(k < chain.len() - 1);
        lemma_below_to_next(left, n, chain, k, p);
    }
    if p > chain[k + 1] {
        assert(k + 1 < chain.len() - 1) by {
            if k + 1 == chain.len() - 1 {
                assert(chain.last() == n - 1);
            }
        }
        assert(0 <= chain[k]) by {
            if k > 0 {
                assert(chain[0] < chain[k]);
            }
        }
        lemma_inner_is_vertex(left, n, chain, k + 1, chain[k], p);
    }
}

} // verus!
