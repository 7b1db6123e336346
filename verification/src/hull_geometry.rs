//! What the monotone-chain scan finds when its orientation `turn` obeys the
//! rules of exact orientations: its lower and upper chains hold exactly the strict
//! vertices of the lower and upper hull, so the chains are unique, and the
//! hull of a hull is itself.

use vstd::prelude::*;
use crate::chain::{
    four_point_rules, lemma_chain_convex, lemma_convex_chain_is_hull, left_turning_chain, lower_convex_chain,
    lower_hull_vertex, reversed, sweep_consistent,
};
use crate::hull::{
    lemma_distinct_bounded, lemma_lower_scan_convex, lemma_sorted_same_members, lemma_upper_scan_props,
    lower_scan, monotone_hull, passed_over, pop_non_left, turn_on, upper_scan,
};

verus! {

/// Turning strictly left one way round excludes turning strictly left the
/// other way round: for `a < b < c` below `n`, `a -> b -> c` and `c -> b -> a`
/// are not both left turns.
pub open spec fn one_sided(left: spec_fn(i32, i32, i32) -> bool, n: int) -> bool {
    forall|a: i32, b: i32, c: i32| 0 <= a < b < c < n ==> !(#[trigger] left(a, b, c) && left(c, b, a))
}

/// What the first scan over `n` points gives: the lower chain holds exactly
/// the strict lower-hull vertices; the upper chain runs from the last point
/// down to the first, turns left at each inner point, holds no inner point
/// of the lower chain, and each of its inner points lies strictly above the
/// chord from the first to the last point.
pub(crate) proof fn lemma_first_scan(turn: spec_fn(i32, i32, i32) -> bool, n: int)
    requires
        3 <= n <= i32::MAX,
        sweep_consistent(turn, n),
        sweep_consistent(reversed(turn, n), n),
    ensures
        ({
            let left = turn;
            let lower = lower_scan(turn, n);
            let upper = upper_scan(turn, n, lower, 0);
            &&& lower_convex_chain(left, n, lower)
            &&& forall|b: i32| 0 <= b < n ==> #[trigger] lower.contains(b) == lower_hull_vertex(left, n, b)
            &&& upper.len() >= 2
            &&& upper[0] == n - 1
            &&& upper.last() == 0
            &&& forall|a: int, b: int| 0 <= a < b < upper.len() ==> upper[a] > upper[b]
            &&& forall|k: int| 0 <= k < upper.len() ==> 0 <= #[trigger] upper[k] < n
            &&& forall|k: int|
                0 <= k && k + 2 < upper.len() ==> #[trigger] left(upper[k], upper[k + 1], upper[k + 2])
            &&& forall|k: int| 0 <= k < upper.len() ==> !passed_over(lower, #[trigger] upper[k])
            &&& forall|k: int| 0 < k < upper.len() - 1 ==> #[trigger] left((n - 1) as i32, upper[k], 0)
            &&& left_turning_chain(reversed(left, n), n, upper.map_values(|x: i32| (n - 1 - x) as i32))
        }),
{
    let left = turn;
    lemma_lower_scan_convex(turn, n, n);
    let lower = lower_scan(turn, n);
    assert forall|b: i32| 0 <= b < n implies #[trigger] lower.contains(b) == lower_hull_vertex(left, n, b) by {
        lemma_convex_chain_is_hull(left, n, lower, b);
    }
    lemma_upper_scan_props(turn, n, lower, 0);
    let upper = upper_scan(turn, n, lower, 0);
    assert(upper.last() == 0) by {
        if upper.last() > 0 {
            assert(passed_over(lower, 0));
        }
    }
    let rev = reversed(left, n);
    let mirrored = upper.map_values(|x: i32| (n - 1 - x) as i32);
    assert(left_turning_chain(rev, n, mirrored)) by {
        assert forall|k: int| 0 <= k && k + 2 < mirrored.len() implies #[trigger] rev(
            mirrored[k],
            mirrored[k + 1],
            mirrored[k + 2],
        ) by {
            assert(left(upper[k], upper[k + 1], upper[k + 2]));
        }
    }
    assert forall|k: int| 0 < k < upper.len() - 1 implies #[trigger] left((n - 1) as i32, upper[k], 0) by {
        lemma_chain_convex(rev, n, mirrored, 0, k, mirrored.len() - 1);
    }
}

/// The strict order `less` is irreflexive and transitive.
pub open spec fn strict_order_on<T>(less: spec_fn(T, T) -> bool) -> bool {
    &&& forall|a: T| !#[trigger] less(a, a)
    &&& forall|a: T, b: T, c: T| #[trigger] less(a, b) && #[trigger] less(b, c) ==> less(a, c)
}

/// Each entry of `s` is below every later one under `less`.
pub open spec fn increasing_under<T>(s: Seq<T>, less: spec_fn(T, T) -> bool) -> bool {
    forall|k: int, j: int| 0 <= k < j < s.len() ==> less(#[trigger] s[k], #[trigger] s[j])
}

/// Where each point of `sub` stands in `points`, when `sub` is a sorted list
/// of points named by `poly`: increasing positions, each one named by
/// `poly`, and each position named by `poly` among them.
proof fn lemma_positions<T>(points: Seq<T>, sub: Seq<T>, less: spec_fn(T, T) -> bool, poly: Seq<i32>) -> (sig: Seq<i32>)
    requires
        strict_order_on(less),
        increasing_under(points, less),
        increasing_under(sub, less),
        forall|k: int| 0 <= k < poly.len() ==> 0 <= #[trigger] poly[k] < points.len(),
        forall|x: T|
            #![trigger sub.contains(x)]
            sub.contains(x) == exists|k: int| 0 <= k < poly.len() && points[poly[k] as int] == x,
    ensures
        sig.len() == sub.len(),
        forall|j: int| 0 <= j < sig.len() ==> #[trigger] poly.contains(sig[j]) && sub[j] == points[sig[j] as int],
        forall|j: int| 0 <= j < sig.len() ==> sub[j] == points[#[trigger] sig[j] as int],
        forall|j: int| 0 <= j < sig.len() ==> 0 <= #[trigger] sig[j] < points.len(),
        forall|j: int, l: int| 0 <= j < l < sig.len() ==> sig[j] < sig[l],
        forall|v: i32| #[trigger] poly.contains(v) ==> sig.contains(v),
{
    let sig = Seq::new(
        sub.len(),
        |j: int| choose|v: i32| poly.contains(v) && sub[j] == points[v as int],
    );
    assert forall|j: int| 0 <= j < sig.len() implies #[trigger] poly.contains(sig[j]) && sub[j]
        == points[sig[j] as int] by {
        assert(sub.contains(sub[j]));
        let k = choose|k: int| 0 <= k < poly.len() && points[poly[k] as int] == sub[j];
        assert(poly.contains(poly[k]));
    }
    assert forall|j: int| 0 <= j < sig.len() implies sub[j] == points[#[trigger] sig[j] as int] by {
        assert(poly.contains(sig[j]) && sub[j] == points[sig[j] as int]);
    }
    assert forall|j: int| 0 <= j < sig.len() implies 0 <= #[trigger] sig[j] < points.len() by {
        assert(poly.contains(sig[j]));
    }
    assert forall|j: int, l: int| 0 <= j < l < sig.len() implies sig[j] < sig[l] by {
        assert(less(sub[j], sub[l]));
        assert(poly.contains(sig[j]) && poly.contains(sig[l]));
        if sig[j] > sig[l] {
            assert(less(points[sig[l] as int], points[sig[j] as int]));
            assert(less(sub[j], sub[j]));
        } else if sig[j] == sig[l] {
            assert(less(sub[j], sub[j]));
        }
    }
    assert forall|v: i32| #[trigger] poly.contains(v) implies sig.contains(v) by {
        let k = choose|k: int| 0 <= k < poly.len() && poly[k] == v;
        assert(sub.contains(points[v as int]));
        let j = choose|j: int| 0 <= j < sub.len() && sub[j] == points[v as int];
        assert(poly.contains(sig[j]) && sub[j] == points[sig[j] as int]);
        assert(sig[j] == v) by {
            if sig[j] < v {
                assert(less(points[sig[j] as int], points[v as int]));
                assert(less(sub[j], sub[j]));
            } else if sig[j] > v {
                assert(less(points[v as int], points[sig[j] as int]));
                assert(less(sub[j], sub[j]));
            }
        }
    }
    sig
}

/// The second scan runs over a sorted selection of the first scan's points,
/// at positions `sig` (increasing, from the first point to the last, each a
/// point of the first lower or upper chain, and every point of both chains
/// among them), with an orientation that is the first one read at the
/// points at those positions.
pub open spec fn second_scan_setting(
    turn1: spec_fn(i32, i32, i32) -> bool,
    turn2: spec_fn(i32, i32, i32) -> bool,
    n: int,
    sig: Seq<i32>,
) -> bool {
    let lower = lower_scan(turn1, n);
    let upper = upper_scan(turn1, n, lower, 0);
    &&& 3 <= sig.len() <= n <= i32::MAX
    &&& forall|j: int| 0 <= j < sig.len() ==> 0 <= #[trigger] sig[j] < n
    &&& forall|j: int, l: int| 0 <= j < l < sig.len() ==> sig[j] < sig[l]
    &&& forall|j: int| 0 <= j < sig.len() ==> lower.contains(#[trigger] sig[j]) || upper.contains(sig[j])
    &&& forall|v: i32| #[trigger] lower.contains(v) ==> sig.contains(v)
    &&& forall|v: i32| #[trigger] upper.contains(v) ==> sig.contains(v)
    &&& forall|a: i32, b: i32, c: i32|
        0 <= a < sig.len() && 0 <= b < sig.len() && 0 <= c < sig.len() ==> (#[trigger] turn2(a, b, c) == turn1(sig[a as int], sig[b as int], sig[c as int]))
}

/// In that setting the ends of the selection are the first and last points.
proof fn lemma_selection_ends(
    turn1: spec_fn(i32, i32, i32) -> bool,
    turn2: spec_fn(i32, i32, i32) -> bool,
    n: int,
    sig: Seq<i32>,
)
    requires
        sweep_consistent(turn1, n),
        sweep_consistent(reversed(turn1, n), n),
        second_scan_setting(turn1, turn2, n, sig),
    ensures
        sig[0] == 0,
        sig.last() == n - 1,
{
    lemma_first_scan(turn1, n);
    let lower = lower_scan(turn1, n);
    assert(lower.contains(lower[0]));
    assert(sig.contains(0i32));
    let j0 = choose|j: int| 0 <= j < sig.len() && sig[j] == 0i32;
    if j0 > 0 {
        assert(sig[0] < sig[j0]);
    }
    assert(lower.contains(lower.last()));
    assert(sig.contains((n - 1) as i32));
    let j1 = choose|j: int| 0 <= j < sig.len() && sig[j] == (n - 1) as i32;
    if j1 < sig.len() - 1 {
        assert(sig[j1] < sig[sig.len() - 1]);
    }
}

/// The second scan's lower chain names the points of the first one.
proof fn lemma_second_lower(
    turn1: spec_fn(i32, i32, i32) -> bool,
    turn2: spec_fn(i32, i32, i32) -> bool,
    n: int,
    sig: Seq<i32>,
)
    requires
        sweep_consistent(turn1, n),
        sweep_consistent(reversed(turn1, n), n),
        one_sided(turn1, n),
        second_scan_setting(turn1, turn2, n, sig),
    ensures
        sweep_consistent(turn2, sig.len() as int),
        lower_convex_chain(turn2, sig.len() as int, lower_scan(turn2, sig.len() as int)),
        lower_scan(turn2, sig.len() as int).map_values(|j: i32| sig[j as int]) == lower_scan(turn1, n),
        forall|j: i32|
            0 <= j < sig.len() ==> #[trigger] lower_scan(turn2, sig.len() as int).contains(j)
                == lower_scan(turn1, n).contains(sig[j as int]),
{
    let m = sig.len() as int;
    let left1 = turn1;
    let left2 = turn2;
    lemma_first_scan(turn1, n);
    lemma_selection_ends(turn1, turn2, n, sig);
    let lower = lower_scan(turn1, n);
    let upper = upper_scan(turn1, n, lower, 0);
    assert(sweep_consistent(left2, m)) by {
        assert forall|a: i32, b: i32, c: i32, d: i32|
            0 <= a < b < c < d < m implies #[trigger] four_point_rules(left2, a, b, c, d) by {
            assert(four_point_rules(left1, sig[a as int], sig[b as int], sig[c as int], sig[d as int]));
            assert(left2(a, b, c) == left1(sig[a as int], sig[b as int], sig[c as int]));
            assert(left2(a, b, d) == left1(sig[a as int], sig[b as int], sig[d as int]));
            assert(left2(a, c, d) == left1(sig[a as int], sig[c as int], sig[d as int]));
            assert(left2(b, c, d) == left1(sig[b as int], sig[c as int], sig[d as int]));
        }
    }
    lemma_lower_scan_convex(turn2, m, m);
    let lower2 = lower_scan(turn2, m);
    assert forall|j: i32| 0 <= j < m implies #[trigger] lower2.contains(j) == lower.contains(sig[j as int]) by {
        lemma_convex_chain_is_hull(left2, m, lower2, j);
        let v = sig[j as int];
        lemma_convex_chain_is_hull(left1, n, lower, v);
        if 0 < j < m - 1 {
            assert(sig[0] < v < sig[m - 1]);
            if lower.contains(v) {
                assert forall|a: i32, c: i32| 0 <= a < j < c < m implies #[trigger] left2(a, j, c) by {
                    assert(sig[a as int] < v < sig[c as int]);
                    assert(left1(sig[a as int], v, sig[c as int]));
                }
            } else {
                assert(upper.contains(v));
                let k = choose|k: int| 0 <= k < upper.len() && upper[k] == v;
                assert(0 < k < upper.len() - 1);
                assert(left1((n - 1) as i32, v, 0));
                assert(!left1(0, v, (n - 1) as i32));
                assert(!left2(0, j, (m - 1) as i32));
            }
        } else if j == 0 {
            assert(lower.contains(lower[0]));
        } else {
            assert(lower.contains(lower[lower.len() - 1]));
        }
    }
    let mapped = lower2.map_values(|j: i32| sig[j as int]);
    let less = |a: i32, b: i32| a < b;
    assert forall|x: i32| #![trigger mapped.contains(x)] #![trigger lower.contains(x)]
        mapped.contains(x) == lower.contains(x) by {
        if mapped.contains(x) {
            let k = choose|k: int| 0 <= k < mapped.len() && mapped[k] == x;
            assert(lower2.contains(lower2[k]));
        }
        if lower.contains(x) {
            assert(sig.contains(x));
            let j = choose|j: int| 0 <= j < sig.len() && sig[j] == x;
            assert(lower2.contains(j as i32));
            let k = choose|k: int| 0 <= k < lower2.len() && lower2[k] == j as i32;
            assert(mapped[k] == x);
        }
    }
    assert forall|k: int, l: int| 0 <= k < l < mapped.len() implies less(#[trigger] mapped[k], #[trigger] mapped[l]) by {
        assert(lower2[k] < lower2[l]);
    }
    assert forall|k: int, l: int| 0 <= k < l < lower.len() implies less(#[trigger] lower[k], #[trigger] lower[l]) by {
    }
    lemma_sorted_same_members(mapped, lower, less);
}

/// The second upper scan, down to position `i`, has named the first `t`
/// points of the first upper chain, and the next one lies left of the point
/// at `i`.
proof fn lemma_second_upper_step(
    turn1: spec_fn(i32, i32, i32) -> bool,
    turn2: spec_fn(i32, i32, i32) -> bool,
    n: int,
    sig: Seq<i32>,
    i: int,
) -> (t: int)
    requires
        sweep_consistent(turn1, n),
        sweep_consistent(reversed(turn1, n), n),
        one_sided(turn1, n),
        second_scan_setting(turn1, turn2, n, sig),
        0 <= i < sig.len(),
    ensures
        ({
            let lower = lower_scan(turn1, n);
            let upper = upper_scan(turn1, n, lower, 0);
            let lower2 = lower_scan(turn2, sig.len() as int);
            let upper2 = upper_scan(turn2, sig.len() as int, lower2, i);
            &&& 1 <= t <= upper.len()
            &&& upper2.map_values(|j: i32| sig[j as int]) == upper.take(t)
            &&& t < upper.len() ==> upper[t] < sig[i]
        }),
    decreases sig.len() - i,
{
    let m = sig.len() as int;
    let left1 = turn1;
    lemma_first_scan(turn1, n);
    lemma_selection_ends(turn1, turn2, n, sig);
    lemma_second_lower(turn1, turn2, n, sig);
    let lower = lower_scan(turn1, n);
    let upper = upper_scan(turn1, n, lower, 0);
    let lower2 = lower_scan(turn2, m);
    let upper2 = upper_scan(turn2, m, lower2, i);
    let f = |j: i32| sig[j as int];
    if i == m - 1 {
        assert(upper2 == seq![(m - 1) as i32]);
        assert(upper2.map_values(f) =~= upper.take(1));
        1
    } else {
        let t0 = lemma_second_upper_step(turn1, turn2, n, sig, i + 1);
        let rest = upper_scan(turn2, m, lower2, i + 1);
        lemma_upper_scan_props(turn2, m, lower2, i + 1);
        let v = sig[i];
        assert(passed_over(lower2, i as i32) == passed_over(lower, v)) by {
            assert(lower2.contains(i as i32) == lower.contains(v));
            if i > 0 {
                assert(sig[0] < v);
            }
            assert(v < sig[m - 1]);
        }
        if passed_over(lower2, i as i32) {
            assert(upper2 == rest);
            if t0 < upper.len() {
                let w = upper[t0];
                assert(upper.contains(w));
                assert(sig.contains(w));
                let j = choose|j: int| 0 <= j < m && sig[j] == w;
                assert(j <= i) by {
                    if j > i {
                        if j > i + 1 {
                            assert(sig[i + 1] < sig[j]);
                        }
                    }
                }
                assert(!passed_over(lower, w));
                assert(j != i);
                assert(sig[j] < sig[i]);
            }
            t0
        } else {
            assert(upper.contains(v)) by {
                if !upper.contains(v) {
                    assert(lower.contains(v));
                    assert(v == 0 || v == n - 1);
                    if v == 0 {
                        assert(upper[upper.len() - 1] == v);
                    } else {
                        assert(upper[0] == v);
                    }
                }
            }
            let tv = choose|k: int| 0 <= k < upper.len() && upper[k] == v;
            assert(rest.len() == rest.map_values(f).len());
            assert(rest.len() == t0);
            assert forall|k: int| 0 <= k < t0 implies upper[k] > v by {
                assert(rest.map_values(f)[k] == upper[k]);
                assert(i + 1 <= rest[k]);
                if rest[k] > i + 1 {
                    assert(sig[i + 1] < sig[rest[k] as int]);
                }
                assert(sig[i] < sig[i + 1]);
            }
            assert(tv >= t0);
            assert(t0 < upper.len());
            let w = upper[t0];
            assert(upper.contains(w));
            let j = choose|j: int| 0 <= j < m && sig[j] == w;
            assert(j <= i) by {
                if j > i + 1 {
                    assert(sig[i + 1] < sig[j]);
                }
            }
            assert(w <= v) by {
                if j < i {
                    assert(sig[j] < sig[i]);
                }
            }
            assert(tv == t0) by {
                if tv > t0 {
                    assert(upper[t0] > upper[tv]);
                }
            }
            assert(rest.len() == t0);
            assert(pop_non_left(turn2, rest, i as i32) == rest) by {
                if rest.len() >= 2 {
                    let a = rest[rest.len() - 2];
                    let b = rest[rest.len() - 1];
                    assert(rest.map_values(f)[t0 - 2] == upper[t0 - 2]);
                    assert(rest.map_values(f)[t0 - 1] == upper[t0 - 1]);
                    assert(0 <= a < m && 0 <= b < m);
                    let k = t0 - 2;
                    assert(left1(upper[k], upper[k + 1], upper[k + 2]));
                    assert(k + 1 == t0 - 1 && k + 2 == t0);
                    assert(turn2(a, b, i as i32));
                }
            }
            assert(upper2 == rest.push(i as i32));
            assert(upper2.map_values(f) =~= upper.take(t0 + 1)) by {
                assert forall|k: int| 0 <= k < t0 + 1 implies upper2.map_values(f)[k] == upper.take(t0 + 1)[k] by {
                    if k < t0 {
                        assert(rest.map_values(f)[k] == upper[k]);
                    }
                }
            }
            if t0 + 1 < upper.len() {
                assert(upper[t0 + 1] < upper[t0]);
            }
            t0 + 1
        }
    }
}

/// The hull of a hull is itself.
///
/// `points` are sorted by the strict order `less` without repeats, and the
/// scan finds their hull polygon with the orientation `orient` of the points,
/// read on positions. `vertices` are the points of that polygon, each once,
/// sorted by `less` again (so they may have been handed in in any order).
/// When `orient` on `points` obeys the rules of exact orientations (the
/// four-point rules read in both directions, and no triple turning left both
/// ways round), the scan over `vertices` with the same `orient` finds the
/// same polygon: as many vertices, the same points, from the same start and
/// in the same order.
pub proof fn lemma_hull_of_hull<T>(
    points: Seq<T>,
    vertices: Seq<T>,
    less: spec_fn(T, T) -> bool,
    orient: spec_fn(T, T, T) -> bool,
)
    requires
        strict_order_on(less),
        increasing_under(points, less),
        points.len() <= i32::MAX,
        increasing_under(vertices, less),
        forall|x: T|
            #![trigger vertices.contains(x)]
            vertices.contains(x) == exists|k: int|
                0 <= k < monotone_hull(turn_on(points, orient), points.len() as int).len() && points[monotone_hull(
                    turn_on(points, orient),
                    points.len() as int,
                )[k] as int] == x,
        sweep_consistent(turn_on(points, orient), points.len() as int),
        sweep_consistent(reversed(turn_on(points, orient), points.len() as int), points.len() as int),
        one_sided(turn_on(points, orient), points.len() as int),
    ensures
        monotone_hull(turn_on(vertices, orient), vertices.len() as int).map_values(|k: i32| vertices[k as int])
            == monotone_hull(turn_on(points, orient), points.len() as int).map_values(|k: i32| points[k as int]),
{
    let turn1 = turn_on(points, orient);
    let turn2 = turn_on(vertices, orient);
    let n = points.len() as int;
    let m = vertices.len() as int;
    let hull = monotone_hull(turn1, n);
    let g = |k: i32| points[k as int];
    let h = |k: i32| vertices[k as int];
    if n < 3 {
        assert forall|x: T| #![trigger vertices.contains(x)] #![trigger points.contains(x)]
            vertices.contains(x) == points.contains(x) by {
            if points.contains(x) {
                let k = choose|k: int| 0 <= k < n && points[k] == x;
                assert(points[hull[k] as int] == x);
            }
            if vertices.contains(x) {
                let k = choose|k: int| 0 <= k < hull.len() && points[hull[k] as int] == x;
                assert(points[k] == x);
            }
        }
        lemma_sorted_same_members(vertices, points, less);
        assert(hull.map_values(h) =~= hull.map_values(g));
    } else {
        lemma_first_scan(turn1, n);
        let lower = lower_scan(turn1, n);
        let upper = upper_scan(turn1, n, lower, 0);
        assert(hull == lower.drop_last() + upper.drop_last());
        assert forall|v: i32| #[trigger] hull.contains(v) == (lower.contains(v) || upper.contains(v)) by {
            if hull.contains(v) {
                let k = choose|k: int| 0 <= k < hull.len() && hull[k] == v;
                if k < lower.len() - 1 {
                    assert(lower[k] == v);
                } else {
                    assert(upper[k - (lower.len() - 1)] == v);
                }
            }
            if lower.contains(v) {
                let k = choose|k: int| 0 <= k < lower.len() && lower[k] == v;
                if k < lower.len() - 1 {
                    assert(hull[k] == v);
                } else {
                    assert(hull[lower.len() - 1] == upper[0]);
                }
            }
            if upper.contains(v) {
                let k = choose|k: int| 0 <= k < upper.len() && upper[k] == v;
                if k < upper.len() - 1 {
                    assert(hull[lower.len() - 1 + k] == v);
                } else {
                    assert(hull[0] == lower[0]);
                }
            }
        }
        assert forall|k: int| 0 <= k < hull.len() implies 0 <= #[trigger] hull[k] < points.len() by {
            assert(hull.contains(hull[k]));
            if lower.contains(hull[k]) {
                let j = choose|j: int| 0 <= j < lower.len() && lower[j] == hull[k];
                assert(0 <= lower[j] < n);
            } else {
                let j = choose|j: int| 0 <= j < upper.len() && upper[j] == hull[k];
            }
        }
        let sig = lemma_positions(points, vertices, less, hull);
        assert(sig.len() <= n) by {
            assert forall|a: int, b: int| 0 <= a < sig.len() && 0 <= b < sig.len() && a != b implies sig[a]
                != sig[b] by {
                if a < b {
                    assert(sig[a] < sig[b]);
                } else {
                    assert(sig[b] < sig[a]);
                }
            }
            lemma_distinct_bounded(sig, n);
        }
        assert(lower.contains(lower[0]) && lower.contains(lower[lower.len() - 1]));
        assert(hull.contains(0i32) && hull.contains((n - 1) as i32));
        assert(sig.contains(0i32) && sig.contains((n - 1) as i32));
        let j0 = choose|j: int| 0 <= j < sig.len() && sig[j] == 0i32;
        let j1 = choose|j: int| 0 <= j < sig.len() && sig[j] == (n - 1) as i32;
        assert(j0 == 0) by {
            if j0 > 0 {
                assert(sig[0] < sig[j0]);
            }
        }
        assert(j1 == m - 1) by {
            if j1 < m - 1 {
                assert(sig[j1] < sig[m - 1]);
            }
        }
        assert(m >= 2) by {
            assert(j0 != j1);
        }
        assert forall|a: i32, b: i32, c: i32|
            0 <= a < m && 0 <= b < m && 0 <= c < m implies (#[trigger] turn2(a, b, c)
            == turn1(sig[a as int], sig[b as int], sig[c as int])) by {
            assert(vertices[a as int] == points[sig[a as int] as int]);
            assert(vertices[b as int] == points[sig[b as int] as int]);
            assert(vertices[c as int] == points[sig[c as int] as int]);
        }
        if m == 2 {
            assert forall|v: i32| #[trigger] hull.contains(v) implies v == 0 || v == n - 1 by {
                assert(sig.contains(v));
            }
            assert(lower.len() == 2) by {
                if lower.len() > 2 {
                    assert(lower.contains(lower[1]));
                    assert(hull.contains(lower[1]));
                    assert(lower[0] < lower[1] < lower[lower.len() - 1]);
                }
            }
            assert(upper.len() == 2) by {
                if upper.len() > 2 {
                    assert(upper.contains(upper[1]));
                    assert(hull.contains(upper[1]));
                    assert(upper[0] > upper[1] > upper[upper.len() - 1]);
                }
            }
            assert(hull.map_values(g) =~= monotone_hull(turn2, m).map_values(h)) by {
                assert(hull[0] == 0 && hull[1] == n - 1);
                assert(vertices[0] == points[0] && vertices[1] == points[n - 1]);
            }
        } else {
            assert forall|j: int| 0 <= j < sig.len() implies lower.contains(#[trigger] sig[j]) || upper.contains(
                sig[j],
            ) by {
                assert(hull.contains(sig[j]));
            }
            assert forall|v: i32| #[trigger] lower.contains(v) implies sig.contains(v) by {
                assert(hull.contains(v));
            }
            assert forall|v: i32| #[trigger] upper.contains(v) implies sig.contains(v) by {
                assert(hull.contains(v));
            }
            assert(second_scan_setting(turn1, turn2, n, sig));
            lemma_second_lower(turn1, turn2, n, sig);
            let t = lemma_second_upper_step(turn1, turn2, n, sig, 0);
            let lower2 = lower_scan(turn2, m);
            let upper2 = upper_scan(turn2, m, lower2, 0);
            lemma_upper_scan_props(turn2, m, lower2, 0);
            assert(t == upper.len()) by {
                if t < upper.len() {
                    assert(0 <= upper[t]);
                }
            }
            assert(upper.take(t) == upper);
            let f = |j: i32| sig[j as int];
            let hull2 = monotone_hull(turn2, m);
            assert(hull2 == lower2.drop_last() + upper2.drop_last());
            assert(lower2.map_values(f) == lower);
            assert(upper2.map_values(f) == upper);
            assert(hull2.map_values(h) =~= hull.map_values(g)) by {
                assert(hull2.len() == hull.len());
                assert forall|k: int| 0 <= k < hull.len() implies hull2.map_values(h)[k] == hull.map_values(g)[k] by {
                    if k < lower2.len() - 1 {
                        assert(hull2[k] == lower2[k]);
                        assert(lower2.map_values(f)[k] == lower[k]);
                        assert(vertices[lower2[k] as int] == points[sig[lower2[k] as int] as int]);
                    } else {
                        let u = k - (lower2.len() - 1);
                        assert(hull2[k] == upper2[u]);
                        assert(upper2.map_values(f)[u] == upper[u]);
                        assert(vertices[upper2[u] as int] == points[sig[upper2[u] as int] as int]);
                    }
                }
            }
        }
    }
}

/// The lower chain is unique: for an orientation `turn` that obeys the rules
/// of exact orientations, any chain from the first to the last of `n` points
/// that turns left at each inner point and passes under no point is the
/// chain the scan finds, and its points are exactly the strict vertices of
/// the lower hull.
pub proof fn lemma_lower_chain_unique(turn: spec_fn(i32, i32, i32) -> bool, n: int, chain: Seq<i32>)
    requires
        3 <= n <= i32::MAX,
        sweep_consistent(turn, n),
        lower_convex_chain(turn, n, chain),
    ensures
        chain == lower_scan(turn, n),
        forall|b: i32| 0 <= b < n ==> #[trigger] chain.contains(b) == lower_hull_vertex(turn, n, b),
{
    let left = turn;
    lemma_lower_scan_convex(turn, n, n);
    let lower = lower_scan(turn, n);
    let less = |a: i32, b: i32| a < b;
    assert forall|b: i32| 0 <= b < n implies #[trigger] chain.contains(b) == lower_hull_vertex(left, n, b) by {
        lemma_convex_chain_is_hull(left, n, chain, b);
    }
    assert forall|x: i32| #![trigger chain.contains(x)] #![trigger lower.contains(x)]
        chain.contains(x) == lower.contains(x) by {
        if chain.contains(x) {
            let k = choose|k: int| 0 <= k < chain.len() && chain[k] == x;
            assert(0 <= chain[k] < n);
            lemma_convex_chain_is_hull(left, n, lower, x);
        }
        if lower.contains(x) {
            let k = choose|k: int| 0 <= k < lower.len() && lower[k] == x;
            assert(0 <= lower[k] < n);
            lemma_convex_chain_is_hull(left, n, lower, x);
        }
    }
    assert forall|k: int, l: int| 0 <= k < l < chain.len() implies less(#[trigger] chain[k], #[trigger] chain[l]) by {}
    assert forall|k: int, l: int| 0 <= k < l < lower.len() implies less(#[trigger] lower[k], #[trigger] lower[l]) by {}
    lemma_sorted_same_members(chain, lower, less);
}

/// Popping for a new point `i` left of the upper chain built so far keeps a
/// prefix that turns left into `i`, and every point between `i` and its last
/// point that the scan does not pass over lies on or below the chord from
/// that last point to `i`.
proof fn lemma_pop_upper(
    turn: spec_fn(i32, i32, i32) -> bool,
    n: int,
    lower: Seq<i32>,
    chain: Seq<i32>,
    m: int,
    i: i32,
)
    requires
        3 <= n <= i32::MAX,
        sweep_consistent(reversed(turn, n), n),
        0 <= i,
        1 <= m <= chain.len(),
        forall|a: int, b: int| 0 <= a < b < chain.len() ==> chain[a] > chain[b],
        forall|k: int| 0 <= k < chain.len() ==> i < #[trigger] chain[k] < n,
        forall|k: int, x: i32|
            0 <= k && k + 1 < chain.len() && chain[k + 1] < x < chain[k] && !passed_over(lower, x)
                ==> !#[trigger] turn(chain[k], x, #[trigger] chain[k + 1]),
        forall|x: i32|
            i < x < chain[m - 1] && !passed_over(lower, x) ==> !#[trigger] turn(chain[m - 1], x, i),
    ensures
        ({
            let r = pop_non_left(turn, chain.take(m), i);
            &&& 1 <= r.len() <= m
            &&& r == chain.take(r.len() as int)
            &&& forall|x: i32|
                i < x < r.last() && !passed_over(lower, x) ==> !#[trigger] turn(r.last(), x, i)
        }),
    decreases m,
{
    let s = chain.take(m);
    let left = turn;
    let rev = reversed(left, n);
    if s.len() >= 2 && !turn(s[s.len() - 2], s[s.len() - 1], i) {
        let p = chain[m - 2];
        let q = chain[m - 1];
        assert(s[s.len() - 2] == p && s[s.len() - 1] == q);
        assert(p > q);
        assert forall|x: i32| i < x < p && !passed_over(lower, x) implies !#[trigger] turn(p, x, i) by {
            assert(!left(p, q, i));
            let (a, d) = ((n - 1 - p) as i32, (n - 1 - i) as i32);
            if x > q {
                assert(!left(chain[m - 2], x, chain[m - 2 + 1]));
                assert(four_point_rules(rev, a, (n - 1 - x) as i32, (n - 1 - q) as i32, d));
            } else if x < q {
                assert(!left(q, x, i));
                assert(four_point_rules(rev, a, (n - 1 - q) as i32, (n - 1 - x) as i32, d));
            }
        }
        assert(s.drop_last() == chain.take(m - 1));
        lemma_pop_upper(turn, n, lower, chain, m - 1, i);
    } else {
        assert(s == chain.take(s.len() as int));
    }
}

/// Every point the upper scan down to `i` passes under, and does not skip as
/// an inner point of the lower chain, lies on or below the edge above it.
proof fn lemma_upper_scan_below(turn: spec_fn(i32, i32, i32) -> bool, n: int, lower: Seq<i32>, i: int)
    requires
        3 <= n <= i32::MAX,
        0 <= i <= n - 1,
        sweep_consistent(reversed(turn, n), n),
        lower.len() >= 2,
        lower.last() == n - 1,
    ensures
        ({
            let u = upper_scan(turn, n, lower, i);
            forall|k: int, x: i32|
                0 <= k && k + 1 < u.len() && u[k + 1] < x < u[k] && !passed_over(lower, x)
                    ==> !#[trigger] turn(u[k], x, #[trigger] u[k + 1])
        }),
    decreases n - i,
{
    let u = upper_scan(turn, n, lower, i);
    if i < n - 1 {
        lemma_upper_scan_below(turn, n, lower, i + 1);
        lemma_upper_scan_props(turn, n, lower, i + 1);
        let rest = upper_scan(turn, n, lower, i + 1);
        if !passed_over(lower, i as i32) {
            assert(rest.take(rest.len() as int) == rest);
            lemma_pop_upper(turn, n, lower, rest, rest.len() as int, i as i32);
            let r = pop_non_left(turn, rest, i as i32);
            assert(u == r.push(i as i32));
            assert forall|k: int, x: i32|
                0 <= k && k + 1 < u.len() && u[k + 1] < x < u[k] && !passed_over(lower, x)
                    implies !#[trigger] turn(u[k], x, #[trigger] u[k + 1]) by {
                if k + 1 < r.len() {
                    assert(u[k] == rest[k] && u[k + 1] == rest[k + 1]);
                } else {
                    assert(u[k] == r.last());
                    assert(u[k + 1] == i);
                }
            }
        }
    }
}

/// Point `b` is a strict vertex of the upper hull of the points below `n`:
/// an end, or strictly above every chord over it (`a -> b -> c` turns left
/// for every later point `a` and earlier point `c`).
pub open spec fn upper_hull_vertex(left: spec_fn(i32, i32, i32) -> bool, n: int, b: i32) -> bool {
    ||| b == 0
    ||| b == n - 1
    ||| (0 < b < n - 1 && forall|a: i32, c: i32| 0 <= c < b < a < n ==> #[trigger] left(a, b, c))
}

/// The chains the scan finds are the hull. For an orientation `turn` that
/// obeys the rules of exact orientations, the lower chain holds exactly the
/// strict vertices of the lower hull and the upper chain exactly those of the
/// upper hull; as the one is sorted up and the other down, each is the only
/// such list of its points.
pub proof fn lemma_scan_chains_are_hull(turn: spec_fn(i32, i32, i32) -> bool, n: int)
    requires
        3 <= n <= i32::MAX,
        sweep_consistent(turn, n),
        sweep_consistent(reversed(turn, n), n),
        one_sided(turn, n),
    ensures
        forall|b: i32|
            0 <= b < n ==> #[trigger] lower_scan(turn, n).contains(b) == lower_hull_vertex(
                turn,
                n,
                b,
            ),
        forall|b: i32|
            0 <= b < n ==> #[trigger] upper_scan(turn, n, lower_scan(turn, n), 0).contains(b)
                == upper_hull_vertex(turn, n, b),
{
    let left = turn;
    let rev = reversed(left, n);
    lemma_first_scan(turn, n);
    let lower = lower_scan(turn, n);
    let upper = upper_scan(turn, n, lower, 0);
    lemma_upper_mirrored_convex(turn, n);
    let mirrored = upper.map_values(|x: i32| (n - 1 - x) as i32);
    assert(lower_convex_chain(rev, n, mirrored));
    assert forall|b: i32| 0 <= b < n implies #[trigger] upper.contains(b) == upper_hull_vertex(left, n, b) by {
        let b2 = (n - 1 - b) as i32;
        lemma_convex_chain_is_hull(rev, n, mirrored, b2);
        assert(mirrored.contains(b2) == upper.contains(b)) by {
            if upper.contains(b) {
                let k = choose|k: int| 0 <= k < upper.len() && upper[k] == b;
                assert(mirrored[k] == b2);
            }
            if mirrored.contains(b2) {
                let k = choose|k: int| 0 <= k < mirrored.len() && mirrored[k] == b2;
                assert(upper[k] == b);
            }
        }
        if 0 < b < n - 1 {
            if upper_hull_vertex(left, n, b) {
                assert forall|a: i32, c: i32| 0 <= a < b2 < c < n implies #[trigger] rev(a, b2, c) by {
                    assert(left((n - 1 - a) as i32, b, (n - 1 - c) as i32));
                }
            }
            if lower_hull_vertex(rev, n, b2) {
                assert forall|a: i32, c: i32| 0 <= c < b < a < n implies #[trigger] left(a, b, c) by {
                    assert(rev((n - 1 - a) as i32, b2, (n - 1 - c) as i32));
                }
            }
        }
    }
}

/// Read in the opposite order, the upper chain the scan finds is a convex
/// chain of the mirrored orientation that passes under no point.
pub(crate) proof fn lemma_upper_mirrored_convex(turn: spec_fn(i32, i32, i32) -> bool, n: int)
    requires
        3 <= n <= i32::MAX,
        sweep_consistent(turn, n),
        sweep_consistent(reversed(turn, n), n),
        one_sided(turn, n),
    ensures
        lower_convex_chain(
            reversed(turn, n),
            n,
            upper_scan(turn, n, lower_scan(turn, n), 0).map_values(|x: i32| (n - 1 - x) as i32),
        ),
{
    let left = turn;
    let rev = reversed(left, n);
    lemma_first_scan(turn, n);
    let lower = lower_scan(turn, n);
    let upper = upper_scan(turn, n, lower, 0);
    lemma_upper_scan_below(turn, n, lower, 0);
    let mirrored = upper.map_values(|x: i32| (n - 1 - x) as i32);
    assert(lower_convex_chain(rev, n, mirrored)) by {
        assert forall|k: int, x: i32|
            0 <= k && k + 1 < mirrored.len() && mirrored[k] < x < mirrored[k + 1] implies !#[trigger] rev(
                mirrored[k],
                x,
                #[trigger] mirrored[k + 1],
            ) by {
            let y = (n - 1 - x) as i32;
            assert(upper[k + 1] < y < upper[k]);
            assert(rev(mirrored[k], x, mirrored[k + 1]) == left(upper[k], y, upper[k + 1]));
            if passed_over(lower, y) {
                assert(lower.contains(y));
                assert(lower_hull_vertex(left, n, y));
                assert(left(upper[k + 1], y, upper[k]));
            }
        }
    }
}

} // verus!
