//! Index logic of the monotone-chain convex hull and of polygon collision.
//!
//! Points are referred to by their index in a list that has already been
//! sorted (by x, then by y) with duplicates removed. The orientation test and
//! the separating-axis test are numeric and are supplied by the caller.

use vstd::prelude::*;
use crate::chain::{four_point_rules, lower_convex_chain, sweep_consistent};

verus! {

/// Every element is at most every later element.
pub open spec fn is_sorted(s: Seq<i32>) -> bool {
    forall|i: int, j: int| 0 <= i <= j < s.len() ==> s[i] <= s[j]
}

/// Binary search for `value` in `values`.
///
/// A `true` answer always means that `value` occurs; on sorted input the
/// answer is exactly whether `value` occurs.
pub fn in_sorted(values: &[i32], value: i32) -> (found: bool)
    requires
        values.len() <= i32::MAX,
    ensures
        found ==> values@.contains(value),
        is_sorted(values@) ==> (found == values@.contains(value)),
{
    let num_values = values.len() as i32;
    if num_values == 0 {
        return false;
    }
    let mut left: i32 = 0;
    let mut right: i32 = num_values - 1;
    while left < right
        invariant
            num_values == values@.len(),
            0 <= left <= right + 1,
            -1 <= right < num_values,
            is_sorted(values@) ==> forall|k: int|
                0 <= k < num_values && #[trigger] values@[k] == value ==> left <= k <= right,
        decreases right + 1 - left,
    {
        let midpoint = left + (right - left) / 2;
        assert(left <= midpoint < right);
        let mid_val = values[midpoint as usize];
        if value == mid_val {
            assert(values@[midpoint as int] == value);
            return true;
        } else if value < mid_val {
            right = midpoint - 1;
        } else {
            left = midpoint + 1;
        }
    }
    if left <= right && left < num_values {
        let found = values[left as usize] == value;
        if found {
            assert(values@[left as int] == value);
        }
        found
    } else {
        false
    }
}


/// Each entry is smaller than every later entry.
pub open spec fn strictly_increasing(s: Seq<i32>) -> bool {
    forall|i: int, j: int| 0 <= i < j < s.len() ==> s[i] < s[j]
}

/// Each entry is larger than every later entry.
pub open spec fn strictly_decreasing(s: Seq<i32>) -> bool {
    forall|i: int, j: int| 0 <= i < j < s.len() ==> s[i] > s[j]
}

/// Every three consecutive entries `(a, b, c)` of `chain` were reported by
/// `left_turn` as a strict left turn `a -> b -> c`.
pub open spec fn turns_left<F: Fn(i32, i32, i32) -> bool>(left_turn: F, chain: Seq<i32>) -> bool {
    forall|k: int|
        0 <= k && k + 2 < chain.len() ==> #[trigger] left_turn.ensures(
            (chain[k], chain[k + 1], chain[k + 2]),
            true,
        )
}

/// Point `b` was reported not to make a left turn between some earlier and
/// some later point (all below `n`): `a -> b -> c` with `a < b < c`.
pub open spec fn dropped_from_lower<F: Fn(i32, i32, i32) -> bool>(n: int, left_turn: F, b: i32) -> bool {
    exists|a: i32, c: i32| 0 <= a < b < c < n && #[trigger] left_turn.ensures((a, b, c), false)
}

/// Point `b` was reported not to make a left turn between some later and
/// some earlier point (all below `n`): `a -> b -> c` with `a > b > c`.
pub open spec fn dropped_from_upper<F: Fn(i32, i32, i32) -> bool>(n: int, left_turn: F, b: i32) -> bool {
    exists|a: i32, c: i32| 0 <= c < b < a < n && #[trigger] left_turn.ensures((a, b, c), false)
}

/// The lower chain over `n` sorted points: it runs from the first point to
/// the last one with increasing indices and turns left at every inner point;
/// every point it leaves out failed the left-turn test between an earlier and
/// a later point.
pub open spec fn is_lower_chain<F: Fn(i32, i32, i32) -> bool>(
    n: int,
    left_turn: F,
    lower: Seq<i32>,
) -> bool {
    &&& lower.len() >= 2
    &&& lower[0] == 0
    &&& lower.last() == n - 1
    &&& strictly_increasing(lower)
    &&& turns_left(left_turn, lower)
    &&& forall|b: i32| 0 <= b < n && !lower.contains(b) ==> dropped_from_lower(n, left_turn, b)
}

/// The upper chain over `n` sorted points: it runs back from the last point
/// to the first one with decreasing indices, turns left at every inner point,
/// and none of its inner points is on the lower chain; every point left out of
/// both chains failed the left-turn test between a later and an earlier point.
pub open spec fn is_upper_chain<F: Fn(i32, i32, i32) -> bool>(
    n: int,
    left_turn: F,
    lower: Seq<i32>,
    upper: Seq<i32>,
) -> bool {
    &&& upper.len() >= 2
    &&& upper[0] == n - 1
    &&& upper.last() == 0
    &&& strictly_decreasing(upper)
    &&& turns_left(left_turn, upper)
    &&& forall|k: int| 0 < k < upper.len() - 1 ==> !lower.contains(#[trigger] upper[k])
    &&& forall|b: i32|
        0 <= b < n && !lower.contains(b) && !upper.contains(b) ==> dropped_from_upper(n, left_turn, b)
}

/// Entries pairwise different.
pub open spec fn no_duplicates(s: Seq<i32>) -> bool {
    forall|i: int, j: int| 0 <= i < s.len() && 0 <= j < s.len() && i != j ==> s[i] != s[j]
}

/// Every answer `left_turn` gives is the orientation `turn` of the question:
/// the closure computes `turn`.
pub open spec fn computes_turn<F: Fn(i32, i32, i32) -> bool>(left_turn: F, turn: spec_fn(i32, i32, i32) -> bool) -> bool {
    forall|a: i32, b: i32, c: i32, r: bool| #[trigger] left_turn.ensures((a, b, c), r) ==> r == turn(a, b, c)
}

/// `chain` with its last point removed for as long as its last two points and
/// point `i` do not make a left turn under `turn`.
pub open spec fn pop_non_left(turn: spec_fn(i32, i32, i32) -> bool, chain: Seq<i32>, i: i32) -> Seq<i32>
    decreases chain.len(),
{
    if chain.len() >= 2 && !turn(chain[chain.len() - 2], chain[chain.len() - 1], i) {
        pop_non_left(turn, chain.drop_last(), i)
    } else {
        chain
    }
}

/// The monotone-chain scan of the lower chain over the points below `i`
/// (at least two): each point in turn pops the points that do not make a left
/// turn with it, and is appended.
pub open spec fn lower_scan(turn: spec_fn(i32, i32, i32) -> bool, i: int) -> Seq<i32>
    decreases i,
{
    if i <= 2 {
        seq![0i32, 1i32]
    } else {
        pop_non_left(turn, lower_scan(turn, i - 1), (i - 1) as i32).push((i - 1) as i32)
    }
}

/// The upper scan passes over point `x`: an inner point of the lower chain.
pub open spec fn passed_over(lower: Seq<i32>, x: i32) -> bool {
    x != lower[0] && x != lower.last() && lower.contains(x)
}

/// The monotone-chain scan of the upper chain over `n` points, from the last
/// point back down to point `i`, passing over the inner points of `lower`.
pub open spec fn upper_scan(turn: spec_fn(i32, i32, i32) -> bool, n: int, lower: Seq<i32>, i: int) -> Seq<i32>
    decreases n - i,
{
    if i >= n - 1 {
        seq![(n - 1) as i32]
    } else {
        let rest = upper_scan(turn, n, lower, i + 1);
        if passed_over(lower, i as i32) {
            rest
        } else {
            pop_non_left(turn, rest, i as i32).push(i as i32)
        }
    }
}

/// The hull polygon of `n` sorted, pairwise different points found by the
/// monotone-chain scan with the orientation `turn`.
pub open spec fn monotone_hull(turn: spec_fn(i32, i32, i32) -> bool, n: int) -> Seq<i32> {
    if n < 3 {
        Seq::new(n as nat, |k: int| k as i32)
    } else {
        let lower = lower_scan(turn, n);
        lower.drop_last() + upper_scan(turn, n, lower, 0).drop_last()
    }
}

proof fn lemma_increasing_is_sorted(s: Seq<i32>)
    requires
        strictly_increasing(s),
    ensures
        is_sorted(s),
{
}

/// Builds the lower chain of `n >= 3` sorted points: each new point pops the
/// chain's last point for as long as the last two points and the new one do
/// not make a left turn.
fn lower_chain<F: Fn(i32, i32, i32) -> bool>(n: i32, left_turn: &F) -> (lower: Vec<i32>)
    requires
        n >= 3,
        forall|a: i32, b: i32, c: i32| left_turn.requires((a, b, c)),
    ensures
        is_lower_chain(n as int, *left_turn, lower@),
        lower.len() <= n,
        forall|turn: spec_fn(i32, i32, i32) -> bool| #[trigger] computes_turn(*left_turn, turn) ==> lower@ == lower_scan(turn, n as int),
{
    let mut lower: Vec<i32> = Vec::new();
    lower.push(0);
    lower.push(1);
    assert forall|b: i32| 0 <= b < 2 implies lower@.contains(b) by {
        assert(lower@[b as int] == b);
    }
    assert forall|turn: spec_fn(i32, i32, i32) -> bool| #[trigger] computes_turn(*left_turn, turn) implies lower@
        == lower_scan(turn, 2) by {
        assert(lower@ == lower_scan(turn, 2));
    }
    let mut i: i32 = 2;
    while i < n
        invariant
            2 <= i <= n,
            forall|turn: spec_fn(i32, i32, i32) -> bool| #[trigger] computes_turn(*left_turn, turn) ==> lower@ == lower_scan(turn, i as int),
            forall|a: i32, b: i32, c: i32| left_turn.requires((a, b, c)),
            2 <= lower.len() <= i,
            lower@[0] == 0,
            lower@.last() == i - 1,
            strictly_increasing(lower@),
            turns_left(*left_turn, lower@),
            forall|b: i32|
                0 <= b < i && !lower@.contains(b) ==> dropped_from_lower(n as int, *left_turn, b),
        decreases n - i,
    {
        let ghost start = lower@;
        loop
            invariant
                2 <= i < n,
                forall|a: i32, b: i32, c: i32| left_turn.requires((a, b, c)),
                forall|turn: spec_fn(i32, i32, i32) -> bool| #[trigger] computes_turn(*left_turn, turn) ==> pop_non_left(turn, lower@, i) == pop_non_left(
                    turn,
                    start,
                    i,
                ),
                1 <= lower.len() <= i,
                lower@[0] == 0,
                lower@.last() < i,
                strictly_increasing(lower@),
                turns_left(*left_turn, lower@),
                forall|b: i32|
                    0 <= b < i && !lower@.contains(b) ==> dropped_from_lower(n as int, *left_turn, b),
            ensures
                forall|turn: spec_fn(i32, i32, i32) -> bool| #[trigger] computes_turn(*left_turn, turn) ==> lower@ == pop_non_left(turn, start, i),
                1 <= lower.len() <= i,
                lower@[0] == 0,
                lower@.last() < i,
                strictly_increasing(lower@),
                turns_left(*left_turn, lower@),
                forall|b: i32|
                    0 <= b < i && !lower@.contains(b) ==> dropped_from_lower(n as int, *left_turn, b),
                lower.len() >= 2 ==> left_turn.ensures(
                    (lower@[lower.len() - 2], lower@[lower.len() - 1], i),
                    true,
                ),
            decreases lower.len(),
        {
            if lower.len() < 2 {
                break;
            }
            let p2 = lower[lower.len() - 1];
            let p1 = lower[lower.len() - 2];
            let turns = left_turn(p1, p2, i);
            if turns {
                assert forall|turn: spec_fn(i32, i32, i32) -> bool| #[trigger] computes_turn(*left_turn, turn)
                    implies lower@ == pop_non_left(turn, start, i) by {
                    assert(turn(p1, p2, i));
                }
                break;
            }
            let ghost old_lower = lower@;
            let _ = lower.pop();
            assert(lower@ == old_lower.drop_last());
            assert(left_turn.ensures((old_lower[old_lower.len() - 2], old_lower[old_lower.len() - 1], i), false));
            assert forall|turn: spec_fn(i32, i32, i32) -> bool| #[trigger] computes_turn(*left_turn, turn) implies
                pop_non_left(turn, lower@, i) == pop_non_left(turn, start, i) by {
                assert(!turn(p1, p2, i));
                assert(pop_non_left(turn, old_lower, i) == pop_non_left(turn, lower@, i));
            }
            assert forall|b: i32|
                0 <= b < i && !lower@.contains(b) implies dropped_from_lower(n as int, *left_turn, b) by {
                if b == p2 {
                    assert(0 <= p1 < p2);
                    assert(left_turn.ensures((p1, p2, i), false));
                } else if old_lower.contains(b) {
                    let k = choose|k: int| 0 <= k < old_lower.len() && old_lower[k] == b;
                    assert(k != old_lower.len() - 1);
                    assert(lower@[k] == b);
                }
            }
        }
        let ghost before = lower@;
        lower.push(i);
        assert forall|turn: spec_fn(i32, i32, i32) -> bool| #[trigger] computes_turn(*left_turn, turn) implies lower@
            == lower_scan(turn, i + 1) by {
            assert(lower@ == pop_non_left(turn, lower_scan(turn, i as int), i).push(i));
        }
        assert forall|b: i32|
            0 <= b < i + 1 && !lower@.contains(b) implies dropped_from_lower(n as int, *left_turn, b) by {
            assert(lower@[lower@.len() - 1] == i);
            if before.contains(b) {
                let k = choose|k: int| 0 <= k < before.len() && before[k] == b;
                assert(lower@[k] == b);
            }
        }
        assert(turns_left(*left_turn, lower@)) by {
            assert forall|k: int| 0 <= k && k + 2 < lower@.len() implies #[trigger] left_turn.ensures(
                (lower@[k], lower@[k + 1], lower@[k + 2]),
                true,
            ) by {
                if k + 2 < before.len() {
                    assert(lower@[k] == before[k] && lower@[k + 1] == before[k + 1] && lower@[k + 2] == before[k + 2]);
                }
            }
        }
        i = i + 1;
    }
    lower
}


/// Whether the upper chain passes over point `i`: points strictly inside the
/// lower chain are never part of the upper chain.
fn skipped_by_upper(lower: &Vec<i32>, i: i32) -> (skip: bool)
    requires
        lower.len() >= 2,
        lower.len() <= i32::MAX,
        strictly_increasing(lower@),
    ensures
        skip == (i != lower@[0] && i != lower@.last() && lower@.contains(i)),
{
    proof {
        lemma_increasing_is_sorted(lower@);
    }
    i != lower[0] && i != lower[lower.len() - 1] && in_sorted(lower.as_slice(), i)
}

/// Builds the upper chain of `n >= 3` sorted points, walking back from the
/// last point to the first and skipping the inner points of `lower`.
fn upper_chain<F: Fn(i32, i32, i32) -> bool>(n: i32, lower: &Vec<i32>, left_turn: &F) -> (upper: Vec<i32>)
    requires
        n >= 3,
        forall|a: i32, b: i32, c: i32| left_turn.requires((a, b, c)),
        is_lower_chain(n as int, *left_turn, lower@),
        lower.len() <= n,
    ensures
        is_upper_chain(n as int, *left_turn, lower@, upper@),
        upper.len() <= n,
        forall|turn: spec_fn(i32, i32, i32) -> bool| #[trigger] computes_turn(*left_turn, turn) ==> upper@ == upper_scan(
            turn,
            n as int,
            lower@,
            0,
        ),
{
    let mut upper: Vec<i32> = Vec::new();
    upper.push(n - 1);
    let mut i: i32 = n - 2;
    assert forall|turn: spec_fn(i32, i32, i32) -> bool| #[trigger] computes_turn(*left_turn, turn) implies upper@
        == upper_scan(turn, n as int, lower@, n - 1) by {
        assert(upper@ == upper_scan(turn, n as int, lower@, n - 1));
    }
    while i >= 0
        invariant
            n >= 3,
            -1 <= i <= n - 2,
            forall|turn: spec_fn(i32, i32, i32) -> bool| #[trigger] computes_turn(*left_turn, turn) ==> upper@ == upper_scan(
                turn,
                n as int,
                lower@,
                i + 1,
            ),
            forall|a: i32, b: i32, c: i32| left_turn.requires((a, b, c)),
            is_lower_chain(n as int, *left_turn, lower@),
            lower.len() <= n,
            1 <= upper.len() <= n - 1 - i,
            upper@[0] == n - 1,
            upper@.last() > i,
            i < 0 ==> upper@.last() == 0,
            strictly_decreasing(upper@),
            turns_left(*left_turn, upper@),
            forall|k: int|
                1 <= k < upper@.len() ==> #[trigger] upper@[k] == 0 || !lower@.contains(upper@[k]),
            forall|b: i32|
                i < b < n && !lower@.contains(b) && !upper@.contains(b) ==> dropped_from_upper(
                    n as int,
                    *left_turn,
                    b,
                ),
        decreases i + 1,
    {
        let skip = skipped_by_upper(lower, i);
        if !skip {
            let ghost start = upper@;
            loop
                invariant
                    0 <= i <= n - 2,
                    forall|turn: spec_fn(i32, i32, i32) -> bool| #[trigger] computes_turn(*left_turn, turn) ==> pop_non_left(turn, upper@, i)
                        == pop_non_left(turn, start, i),
                    forall|a: i32, b: i32, c: i32| left_turn.requires((a, b, c)),
                    1 <= upper.len() <= n - 1 - i,
                    upper@[0] == n - 1,
                    upper@.last() > i,
                    strictly_decreasing(upper@),
                    turns_left(*left_turn, upper@),
                    forall|k: int|
                        1 <= k < upper@.len() ==> #[trigger] upper@[k] == 0 || !lower@.contains(upper@[k]),
                    forall|b: i32|
                        i < b < n && !lower@.contains(b) && !upper@.contains(b) ==> dropped_from_upper(
                            n as int,
                            *left_turn,
                            b,
                        ),
                ensures
                    forall|turn: spec_fn(i32, i32, i32) -> bool| #[trigger] computes_turn(*left_turn, turn) ==> upper@ == pop_non_left(turn, start, i),
                    1 <= upper.len() <= n - 1 - i,
                    upper@[0] == n - 1,
                    upper@.last() > i,
                    strictly_decreasing(upper@),
                    turns_left(*left_turn, upper@),
                    forall|k: int|
                        1 <= k < upper@.len() ==> #[trigger] upper@[k] == 0 || !lower@.contains(upper@[k]),
                    forall|b: i32|
                        i < b < n && !lower@.contains(b) && !upper@.contains(b) ==> dropped_from_upper(
                            n as int,
                            *left_turn,
                            b,
                        ),
                    upper.len() >= 2 ==> left_turn.ensures(
                        (upper@[upper.len() - 2], upper@[upper.len() - 1], i),
                        true,
                    ),
                decreases upper.len(),
            {
                if upper.len() < 2 {
                    break;
                }
                let p2 = upper[upper.len() - 1];
                let p1 = upper[upper.len() - 2];
                let turns = left_turn(p1, p2, i);
                if turns {
                    assert forall|turn: spec_fn(i32, i32, i32) -> bool| #[trigger] computes_turn(*left_turn, turn)
                        implies upper@ == pop_non_left(turn, start, i) by {
                        assert(turn(p1, p2, i));
                    }
                    break;
                }
                let ghost old_upper = upper@;
                let _ = upper.pop();
                assert(upper@ == old_upper.drop_last());
                assert(left_turn.ensures((old_upper[old_upper.len() - 2], old_upper[old_upper.len() - 1], i), false));
                assert forall|turn: spec_fn(i32, i32, i32) -> bool| #[trigger] computes_turn(*left_turn, turn)
                    implies pop_non_left(turn, upper@, i) == pop_non_left(turn, start, i) by {
                    assert(!turn(p1, p2, i));
                    assert(pop_non_left(turn, old_upper, i) == pop_non_left(turn, upper@, i));
                }
                assert forall|b: i32|
                    i < b < n && !lower@.contains(b) && !upper@.contains(b) implies dropped_from_upper(
                        n as int,
                        *left_turn,
                        b,
                    ) by {
                    if b == p2 {
                        assert(p1 > p2 && p1 < n);
                        assert(left_turn.ensures((p1, p2, i), false));
                    } else if old_upper.contains(b) {
                        let k = choose|k: int| 0 <= k < old_upper.len() && old_upper[k] == b;
                        assert(k != old_upper.len() - 1);
                        assert(upper@[k] == b);
                    }
                }
            }
            let ghost before = upper@;
            upper.push(i);
            assert forall|turn: spec_fn(i32, i32, i32) -> bool| #[trigger] computes_turn(*left_turn, turn) implies
                upper@ == upper_scan(turn, n as int, lower@, i as int) by {
                assert(upper@ == pop_non_left(turn, upper_scan(turn, n as int, lower@, i + 1), i).push(i));
            }
            assert forall|b: i32|
                i - 1 < b < n && !lower@.contains(b) && !upper@.contains(b) implies dropped_from_upper(
                    n as int,
                    *left_turn,
                    b,
                ) by {
                assert(upper@[upper@.len() - 1] == i);
                if before.contains(b) {
                    let k = choose|k: int| 0 <= k < before.len() && before[k] == b;
                    assert(upper@[k] == b);
                }
            }
            assert(turns_left(*left_turn, upper@)) by {
                assert forall|k: int| 0 <= k && k + 2 < upper@.len() implies #[trigger] left_turn.ensures(
                    (upper@[k], upper@[k + 1], upper@[k + 2]),
                    true,
                ) by {
                    if k + 2 < before.len() {
                        assert(upper@[k] == before[k] && upper@[k + 1] == before[k + 1] && upper@[k + 2] == before[k + 2]);
                    }
                }
            }
            assert forall|k: int|
                1 <= k < upper@.len() implies #[trigger] upper@[k] == 0 || !lower@.contains(upper@[k]) by {
                if k < before.len() {
                    assert(upper@[k] == before[k]);
                }
            }
        } else {
            assert(i != 0);
            assert(lower@.contains(i));
            assert forall|turn: spec_fn(i32, i32, i32) -> bool| #[trigger] computes_turn(*left_turn, turn) implies
                upper_scan(turn, n as int, lower@, i as int) == upper_scan(turn, n as int, lower@, i + 1) by {
                assert(passed_over(lower@, i));
            }
        }
        i = i - 1;
    }
    assert forall|k: int| 0 < k < upper@.len() - 1 implies !lower@.contains(#[trigger] upper@[k]) by {
        assert(upper@[k] > upper@[upper@.len() - 1]);
    }
    upper
}

/// The convex-hull polygon of `num_points` points that are sorted by x, then
/// by y, and pairwise different, given as indices into that list.
///
/// With fewer than three points the polygon is the points themselves. With
/// more, it is the lower chain without its last point followed by the upper
/// chain without its last point: it starts at the first point, passes the
/// last one, and lists no point twice. `left_turn(a, b, c)` reports whether
/// `a -> b -> c` turns strictly left; every inner point of a chain passed
/// that test with its neighbours, and every point left out failed it. For
/// every orientation `turn` that `left_turn` computes, the polygon is the one
/// the monotone-chain scan finds with `turn`, so it depends on nothing else.
pub fn hull_polygon<F: Fn(i32, i32, i32) -> bool>(num_points: i32, left_turn: F) -> (polygon: Vec<i32>)
    requires
        num_points >= 0,
        forall|a: i32, b: i32, c: i32| left_turn.requires((a, b, c)),
    ensures
        num_points < 3 ==> polygon@ == Seq::new(num_points as nat, |k: int| k as i32),
        num_points >= 3 ==> exists|lower: Seq<i32>, upper: Seq<i32>|
            {
                &&& is_lower_chain(num_points as int, left_turn, lower)
                &&& is_upper_chain(num_points as int, left_turn, lower, upper)
                &&& polygon@ == lower.drop_last() + upper.drop_last()
            },
        forall|k: int| 0 <= k < polygon.len() ==> 0 <= #[trigger] polygon@[k] < num_points,
        no_duplicates(polygon@),
        polygon.len() <= num_points,
        num_points >= 1 ==> polygon@[0] == 0,
        num_points >= 1 ==> polygon@.contains((num_points - 1) as i32),
        forall|turn: spec_fn(i32, i32, i32) -> bool| #[trigger] computes_turn(left_turn, turn) ==> polygon@
            == monotone_hull(turn, num_points as int),
{
    if num_points < 3 {
        let mut polygon: Vec<i32> = Vec::new();
        let mut k: i32 = 0;
        while k < num_points
            invariant
                0 <= k <= num_points < 3,
                polygon@ == Seq::new(k as nat, |j: int| j as i32),
            decreases num_points - k,
        {
            polygon.push(k);
            k = k + 1;
        }
        assert(polygon@ == Seq::new(num_points as nat, |j: int| j as i32));
        if num_points >= 1 {
            assert(polygon@[num_points - 1] == num_points - 1);
        }
        return polygon;
    }
    let lower = lower_chain(num_points, &left_turn);
    let upper = upper_chain(num_points, &lower, &left_turn);
    let mut polygon: Vec<i32> = Vec::new();
    let mut k: usize = 0;
    while k < lower.len() - 1
        invariant
            2 <= lower.len() <= num_points,
            k <= lower.len() - 1,
            polygon@ == lower@.take(k as int),
        decreases lower.len() - k,
    {
        polygon.push(lower[k]);
        k = k + 1;
        assert(polygon@ == lower@.take(k as int));
    }
    let mut m: usize = 0;
    while m < upper.len() - 1
        invariant
            2 <= lower.len() <= num_points,
            2 <= upper.len() <= num_points,
            m <= upper.len() - 1,
            polygon@ == lower@.drop_last() + upper@.take(m as int),
        decreases upper.len() - m,
    {
        polygon.push(upper[m]);
        m = m + 1;
        assert(polygon@ == lower@.drop_last() + upper@.take(m as int));
    }
    assert(polygon@ == lower@.drop_last() + upper@.drop_last());
    let ghost l = lower@;
    let ghost u = upper@;
    let ghost ld = l.drop_last();
    let ghost ud = u.drop_last();
    assert forall|k: int| 0 <= k < polygon.len() implies 0 <= #[trigger] polygon@[k] < num_points by {
        if k < ld.len() {
            assert(polygon@[k] == l[k]);
            assert(l[0] <= l[k] <= l[l.len() - 1]);
        } else {
            assert(polygon@[k] == u[k - ld.len()]);
            assert(u[0] >= u[k - ld.len()] >= u[u.len() - 1]);
        }
    }
    assert forall|i: int, j: int|
        0 <= i < polygon.len() && 0 <= j < polygon.len() && i != j implies polygon@[i] != polygon@[j] by {
        if i < ld.len() && j < ld.len() {
        } else if i >= ld.len() && j >= ld.len() {
        } else if i < ld.len() {
            let uj = j - ld.len();
            assert(polygon@[i] == l[i] && polygon@[j] == u[uj]);
            assert(l[i] < l[l.len() - 1]);
            if uj == 0 {
            } else {
                assert(!l.contains(u[uj]));
            }
        } else {
            let ui = i - ld.len();
            assert(polygon@[j] == l[j] && polygon@[i] == u[ui]);
            assert(l[j] < l[l.len() - 1]);
            if ui == 0 {
            } else {
                assert(!l.contains(u[ui]));
            }
        }
    }
    assert(polygon@[0] == 0);
    assert(polygon@[ld.len() as int] == num_points - 1);
    proof {
        lemma_distinct_bounded(polygon@, num_points as int);
    }
    polygon
}


pub(crate) proof fn lemma_pop_is_prefix(turn: spec_fn(i32, i32, i32) -> bool, chain: Seq<i32>, i: i32)
    ensures
        pop_non_left(turn, chain, i).len() <= chain.len(),
        pop_non_left(turn, chain, i) == chain.take(pop_non_left(turn, chain, i).len() as int),
    decreases chain.len(),
{
    if chain.len() >= 2 && !turn(chain[chain.len() - 2], chain[chain.len() - 1], i) {
        lemma_pop_is_prefix(turn, chain.drop_last(), i);
        let r = pop_non_left(turn, chain, i);
        assert(r == chain.drop_last().take(r.len() as int));
        assert(r =~= chain.take(r.len() as int));
    } else {
        assert(chain =~= chain.take(chain.len() as int));
    }
}


/// Popping for a new point `i` right of a convex chain over the points below
/// `i` keeps a non-empty prefix of the chain that turns left into `i`, and
/// every point between its last point and `i` lies on or above the chord to
/// `i`.
proof fn lemma_pop_lower(
    turn: spec_fn(i32, i32, i32) -> bool,
    n: int,
    chain: Seq<i32>,
    m: int,
    i: i32,
)
    requires
        sweep_consistent(turn, n),
        lower_convex_chain(turn, i as int, chain),
        2 <= i < n,
        1 <= m <= chain.len(),
        forall|x: i32| chain[m - 1] < x < i ==> !#[trigger] turn(chain[m - 1], x, i),
    ensures
        ({
            let r = pop_non_left(turn, chain.take(m), i);
            &&& 1 <= r.len() <= m
            &&& r == chain.take(r.len() as int)
            &&& r.len() >= 2 ==> turn(r[r.len() - 2], r[r.len() - 1], i)
            &&& forall|x: i32| r.last() < x < i ==> !#[trigger] turn(r.last(), x, i)
        }),
    decreases m,
{
    let s = chain.take(m);
        if s.len() >= 2 && !turn(s[s.len() - 2], s[s.len() - 1], i) {
        let p = chain[m - 2];
        let q = chain[m - 1];
        assert(s[s.len() - 2] == p && s[s.len() - 1] == q);
        assert(0 <= chain[0] <= p) by {
            if m - 2 > 0 {
                assert(chain[0] < chain[m - 2]);
            }
        }
        assert forall|x: i32| p < x < i implies !#[trigger] turn(p, x, i) by {
            assert(!turn(p, q, i));
            if x < q {
                assert(!turn(chain[m - 2], x, chain[m - 2 + 1]));
                assert(four_point_rules(turn, p, x, q, i));
            } else if x > q {
                assert(!turn(q, x, i));
                assert(four_point_rules(turn, p, q, x, i));
            }
        }
        assert(s.drop_last() == chain.take(m - 1));
        lemma_pop_lower(turn, n, chain, m - 1, i);
    } else {
        assert(s == chain.take(s.len() as int));
    }
}

/// The lower scan over the first `i` points builds a convex chain over them
/// that passes under no point.
pub(crate) proof fn lemma_lower_scan_convex(turn: spec_fn(i32, i32, i32) -> bool, n: int, i: int)
    requires
        sweep_consistent(turn, n),
        2 <= i <= n <= i32::MAX,
    ensures
        lower_convex_chain(turn, i, lower_scan(turn, i)),
    decreases i,
{
        if i > 2 {
        lemma_lower_scan_convex(turn, n, i - 1);
        let c = lower_scan(turn, i - 1);
        let j = (i - 1) as i32;
        assert(c.take(c.len() as int) == c);
        lemma_pop_lower(turn, n, c, c.len() as int, j);
        let r = pop_non_left(turn, c, j);
        let c2 = r.push(j);
        assert(c2 == lower_scan(turn, i));
        assert(c2[0] == 0) by {
            assert(r[0] == c[0]);
        }
        assert forall|a: int, b: int| 0 <= a < b < c2.len() implies c2[a] < c2[b] by {
            if b < r.len() {
                assert(r[a] == c[a] && r[b] == c[b]);
            } else {
                assert(r[a] == c[a]);
                assert(c[a] <= c.last()) by {
                    if a < c.len() - 1 {
                        assert(c[a] < c[c.len() - 1]);
                    }
                }
            }
        }
        assert forall|k: int| 0 <= k && k + 2 < c2.len() implies #[trigger] turn(c2[k], c2[k + 1], c2[k + 2]) by {
            if k + 2 < r.len() {
                assert(c2[k] == c[k] && c2[k + 1] == c[k + 1] && c2[k + 2] == c[k + 2]);
                assert(turn(c[k], c[k + 1], c[k + 2]));
            } else {
                assert(c2[k] == r[r.len() - 2] && c2[k + 1] == r[r.len() - 1]);
            }
        }
        assert forall|k: int, x: i32|
            0 <= k && k + 1 < c2.len() && c2[k] < x < c2[k + 1] implies !#[trigger] turn(
                c2[k],
                x,
                #[trigger] c2[k + 1],
            ) by {
            if k + 1 < r.len() {
                assert(c2[k] == c[k] && c2[k + 1] == c[k + 1]);
                assert(!turn(c[k], x, c[k + 1]));
            } else {
                assert(c2[k] == r.last());
                assert(!turn(r.last(), x, j));
            }
        }
    } else {
        let c = lower_scan(turn, i);
        assert(c == seq![0i32, 1i32]);
        assert forall|k: int, x: i32|
            0 <= k && k + 1 < c.len() && c[k] < x < c[k + 1] implies !#[trigger] turn(c[k], x, #[trigger] c[k + 1]) by {}
    }
}

/// Popping leaves at least one point, and a chain of two or more that turns
/// left into `i`.
proof fn lemma_pop_end(turn: spec_fn(i32, i32, i32) -> bool, chain: Seq<i32>, i: i32)
    requires
        chain.len() >= 1,
    ensures
        pop_non_left(turn, chain, i).len() >= 1,
        pop_non_left(turn, chain, i).len() >= 2 ==> turn(pop_non_left(turn, chain, i)[pop_non_left(turn, chain, i).len() - 2], pop_non_left(turn, chain, i)[pop_non_left(turn, chain, i).len() - 1], i),
    decreases chain.len(),
{
    if chain.len() >= 2 && !turn(chain[chain.len() - 2], chain[chain.len() - 1], i) {
        lemma_pop_end(turn, chain.drop_last(), i);
    }
}

/// The upper scan down to point `i` gives a chain that starts at the last
/// point, decreases, turns left at each inner point, holds no inner point of
/// `lower` past its start, and passed over only inner points of `lower` after
/// its last point.
pub(crate) proof fn lemma_upper_scan_props(turn: spec_fn(i32, i32, i32) -> bool, n: int, lower: Seq<i32>, i: int)
    requires
        3 <= n <= i32::MAX,
        0 <= i <= n - 1,
        lower.len() >= 2,
        lower.last() == n - 1,
    ensures
        ({
            let u = upper_scan(turn, n, lower, i);
            &&& u.len() >= 1
            &&& u[0] == n - 1
            &&& forall|a: int, b: int| 0 <= a < b < u.len() ==> u[a] > u[b]
            &&& forall|k: int| 0 <= k < u.len() ==> i <= #[trigger] u[k] < n
            &&& forall|k: int|
                0 <= k && k + 2 < u.len() ==> #[trigger] turn(u[k], u[k + 1], u[k + 2])
            &&& forall|k: int| 0 <= k < u.len() ==> !passed_over(lower, #[trigger] u[k])
            &&& forall|x: i32| i <= x < u.last() ==> #[trigger] passed_over(lower, x)
        }),
    decreases n - i,
{
    let u = upper_scan(turn, n, lower, i);
    if i < n - 1 {
        lemma_upper_scan_props(turn, n, lower, i + 1);
        let rest = upper_scan(turn, n, lower, i + 1);
        if passed_over(lower, i as i32) {
            assert(u == rest);
            assert forall|x: i32| i <= x < u.last() implies #[trigger] passed_over(lower, x) by {
                if x > i {
                    assert(i + 1 <= x < rest.last());
                } else {
                    assert(x == i as i32);
                }
            }
        } else {
            lemma_pop_is_prefix(turn, rest, i as i32);
            lemma_pop_end(turn, rest, i as i32);
            let r = pop_non_left(turn, rest, i as i32);
            assert(u == r.push(i as i32));
            assert(forall|k: int| 0 <= k < r.len() ==> r[k] == rest[k]);
            assert(u[0] == n - 1);
            assert forall|a: int, b: int| 0 <= a < b < u.len() implies u[a] > u[b] by {
                if b < r.len() {
                    assert(u[a] == rest[a] && u[b] == rest[b]);
                } else {
                    assert(u[a] == rest[a]);
                }
            }
            assert forall|k: int| 0 <= k < u.len() implies i <= #[trigger] u[k] < n by {
                if k < r.len() {
                    assert(u[k] == rest[k]);
                }
            }
            assert forall|k: int|
                0 <= k && k + 2 < u.len() implies #[trigger] turn(u[k], u[k + 1], u[k + 2]) by {
                if k + 2 < r.len() {
                    assert(u[k] == rest[k] && u[k + 1] == rest[k + 1] && u[k + 2] == rest[k + 2]);
                } else {
                    assert(u[k] == r[r.len() - 2] && u[k + 1] == r[r.len() - 1]);
                }
            }
            assert forall|k: int| 0 <= k < u.len() implies !passed_over(lower, #[trigger] u[k]) by {
                if k < r.len() {
                    assert(u[k] == rest[k]);
                }
            }
        }
    } else {
        assert(u == seq![(n - 1) as i32]);
    }
}

/// Two lists that are each strictly increasing under the same strict order
/// `less` and hold the same members are the same list.
pub proof fn lemma_sorted_same_members<T>(s1: Seq<T>, s2: Seq<T>, less: spec_fn(T, T) -> bool)
    requires
        forall|a: T| !#[trigger] less(a, a),
        forall|a: T, b: T, c: T| #[trigger] less(a, b) && #[trigger] less(b, c) ==> less(a, c),
        forall|k: int, j: int| 0 <= k < j < s1.len() ==> less(#[trigger] s1[k], #[trigger] s1[j]),
        forall|k: int, j: int| 0 <= k < j < s2.len() ==> less(#[trigger] s2[k], #[trigger] s2[j]),
        forall|x: T| #![trigger s1.contains(x)] #![trigger s2.contains(x)] s1.contains(x) == s2.contains(x),
    ensures
        s1 == s2,
    decreases s1.len(),
{
    if s1.len() == 0 {
        if s2.len() > 0 {
            assert(s2.contains(s2[0]));
        }
        assert(s1 =~= s2);
    } else {
        assert(s1.contains(s1[0]));
        let p = choose|p: int| 0 <= p < s2.len() && s2[p] == s1[0];
        assert(s2.contains(s2[0]));
        let q = choose|q: int| 0 <= q < s1.len() && s1[q] == s2[0];
        if p > 0 {
            assert(less(s2[0], s2[p]));
            if q == 0 {
                assert(less(s1[0], s1[0]));
            } else {
                assert(less(s1[0], s1[q]));
                assert(less(s1[0], s1[0]));
            }
        }
        let t1 = s1.drop_first();
        let t2 = s2.drop_first();
        assert forall|x: T| #![trigger t1.contains(x)] #![trigger t2.contains(x)] t1.contains(x) == t2.contains(x) by {
            if t1.contains(x) {
                let k = choose|k: int| 0 <= k < t1.len() && t1[k] == x;
                assert(s1[k + 1] == x);
                assert(less(s1[0], s1[k + 1]));
                assert(s1.contains(x));
                let m = choose|m: int| 0 <= m < s2.len() && s2[m] == x;
                if m == 0 {
                    assert(less(x, x));
                }
                assert(t2[m - 1] == x);
            }
            if t2.contains(x) {
                let k = choose|k: int| 0 <= k < t2.len() && t2[k] == x;
                assert(s2[k + 1] == x);
                assert(less(s2[0], s2[k + 1]));
                assert(s2.contains(x));
                let m = choose|m: int| 0 <= m < s1.len() && s1[m] == x;
                if m == 0 {
                    assert(less(x, x));
                }
                assert(t1[m - 1] == x);
            }
        }
        assert forall|k: int, j: int| 0 <= k < j < t1.len() implies less(#[trigger] t1[k], #[trigger] t1[j]) by {
            assert(t1[k] == s1[k + 1] && t1[j] == s1[j + 1]);
        }
        assert forall|k: int, j: int| 0 <= k < j < t2.len() implies less(#[trigger] t2[k], #[trigger] t2[j]) by {
            assert(t2[k] == s2[k + 1] && t2[j] == s2[j + 1]);
        }
        lemma_sorted_same_members(t1, t2, less);
        assert(s1 =~= s2) by {
            assert forall|k: int| 0 <= k < s1.len() implies s1[k] == s2[k] by {
                if k > 0 {
                    assert(s1[k] == t1[k - 1]);
                    assert(s2[k] == t2[k - 1]);
                }
            }
        }
    }
}


/// On the points of a list: `turn_on(points, orient)(a, b, c)` is the
/// orientation `orient` of the points at positions `a`, `b` and `c`.
pub open spec fn turn_on<T>(points: Seq<T>, orient: spec_fn(T, T, T) -> bool) -> spec_fn(i32, i32, i32) -> bool {
    |a: i32, b: i32, c: i32| orient(points[a as int], points[b as int], points[c as int])
}

/// The convex hull depends only on the set of points. Two lists of points,
/// each strictly increasing under the same strict order `less` (so sorted and
/// without repeats) and holding the same points, are the same list; so the
/// orientation `orient` of the points, read on positions, is the same on
/// both, and the hull polygons the scan finds name the same points.
pub proof fn lemma_hull_depends_only_on_point_set<T>(
    points1: Seq<T>,
    points2: Seq<T>,
    less: spec_fn(T, T) -> bool,
    orient: spec_fn(T, T, T) -> bool,
)
    requires
        forall|a: T| !#[trigger] less(a, a),
        forall|a: T, b: T, c: T| #[trigger] less(a, b) && #[trigger] less(b, c) ==> less(a, c),
        forall|k: int, j: int| 0 <= k < j < points1.len() ==> less(#[trigger] points1[k], #[trigger] points1[j]),
        forall|k: int, j: int| 0 <= k < j < points2.len() ==> less(#[trigger] points2[k], #[trigger] points2[j]),
        forall|x: T|
            #![trigger points1.contains(x)]
            #![trigger points2.contains(x)]
            points1.contains(x) == points2.contains(x),
    ensures
        points1 == points2,
        turn_on(points1, orient) == turn_on(points2, orient),
        monotone_hull(turn_on(points1, orient), points1.len() as int).map_values(|k: i32| points1[k as int])
            == monotone_hull(turn_on(points2, orient), points2.len() as int).map_values(
            |k: i32| points2[k as int],
        ),
{
    lemma_sorted_same_members(points1, points2, less);
}

/// The vertex before vertex `k` of a closed polygon with `size` vertices.
pub open spec fn previous_vertex(k: i32, size: i32) -> i32 {
    if k == 0 {
        (size - 1) as i32
    } else {
        (k - 1) as i32
    }
}

/// The verdict `collision` of the separating-axis test is right for the
/// answers of `separating`: a collision means both polygons are non-empty
/// and no edge of either was reported separating; no collision means a
/// polygon is empty or some edge was reported separating.
pub open spec fn collision_verdict<F: Fn(bool, i32, i32) -> bool>(
    size1: i32,
    size2: i32,
    separating: F,
    collision: bool,
) -> bool {
    &&& collision ==> {
        &&& size1 >= 1
        &&& size2 >= 1
        &&& forall|k: i32|
            0 <= k < size1 ==> #[trigger] separating.ensures((true, k, previous_vertex(k, size1)), false)
        &&& forall|k: i32|
            0 <= k < size2 ==> #[trigger] separating.ensures((false, k, previous_vertex(k, size2)), false)
    }
    &&& !collision ==> {
        ||| size1 < 1
        ||| size2 < 1
        ||| exists|k: i32|
            0 <= k < size1 && #[trigger] separating.ensures((true, k, previous_vertex(k, size1)), true)
        ||| exists|k: i32|
            0 <= k < size2 && #[trigger] separating.ensures((false, k, previous_vertex(k, size2)), true)
    }
}

/// Separating-axis test of two convex polygons with `size1` and `size2`
/// vertices.
///
/// The edges of the first polygon, then those of the second, are tried in
/// order; `separating(first, k, j)` reports whether the edge from vertex `j`
/// to vertex `k` of the first (`first == true`) or second polygon gives an
/// axis that separates the two polygons. The polygons collide exactly when
/// both are non-empty and no edge separates them.
pub fn polygons_collide<F: Fn(bool, i32, i32) -> bool>(size1: i32, size2: i32, separating: F) -> (collision: bool)
    requires
        forall|first: bool, k: i32, j: i32| separating.requires((first, k, j)),
    ensures
        collision_verdict(size1, size2, separating, collision),
        collision ==> size1 >= 1 && size2 >= 1,
        collision ==> forall|k: i32|
            0 <= k < size1 ==> #[trigger] separating.ensures((true, k, previous_vertex(k, size1)), false),
        collision ==> forall|k: i32|
            0 <= k < size2 ==> #[trigger] separating.ensures((false, k, previous_vertex(k, size2)), false),
        !collision ==> (size1 < 1 || size2 < 1 || (exists|k: i32|
            0 <= k < size1 && #[trigger] separating.ensures((true, k, previous_vertex(k, size1)), true))
            || (exists|k: i32|
            0 <= k < size2 && #[trigger] separating.ensures((false, k, previous_vertex(k, size2)), true))),
{
    if size1 < 1 || size2 < 1 {
        return false;
    }
    let mut k: i32 = 0;
    while k < size1
        invariant
            1 <= size1,
            0 <= k <= size1,
            forall|first: bool, a: i32, b: i32| separating.requires((first, a, b)),
            forall|m: i32|
                0 <= m < k ==> #[trigger] separating.ensures((true, m, previous_vertex(m, size1)), false),
        decreases size1 - k,
    {
        let previous = if k == 0 { size1 - 1 } else { k - 1 };
        assert(previous == previous_vertex(k, size1));
        if separating(true, k, previous) {
            assert(separating.ensures((true, k, previous_vertex(k, size1)), true));
            return false;
        }
        k = k + 1;
    }
    let mut k: i32 = 0;
    while k < size2
        invariant
            1 <= size2,
            0 <= k <= size2,
            forall|first: bool, a: i32, b: i32| separating.requires((first, a, b)),
            forall|m: i32|
                0 <= m < size1 ==> #[trigger] separating.ensures((true, m, previous_vertex(m, size1)), false),
            forall|m: i32|
                0 <= m < k ==> #[trigger] separating.ensures((false, m, previous_vertex(m, size2)), false),
        decreases size2 - k,
    {
        let previous = if k == 0 { size2 - 1 } else { k - 1 };
        assert(previous == previous_vertex(k, size2));
        if separating(false, k, previous) {
            assert(separating.ensures((false, k, previous_vertex(k, size2)), true));
            return false;
        }
        k = k + 1;
    }
    true
}


/// Swapping the two polygons does not change the verdict of the
/// separating-axis test: when `separating` computes the edge test `sep`
/// (`sep(first, k, j)` for the edge from vertex `j` to vertex `k` of the
/// first or the second polygon) and `swapped` computes the same test with the
/// polygons exchanged, the verdict for `(size1, size2, separating)` is the
/// verdict for `(size2, size1, swapped)`.
pub proof fn lemma_collision_symmetric<F: Fn(bool, i32, i32) -> bool, G: Fn(bool, i32, i32) -> bool>(
    size1: i32,
    size2: i32,
    sep: spec_fn(bool, i32, i32) -> bool,
    separating: F,
    swapped: G,
    collision: bool,
    swapped_collision: bool,
)
    requires
        forall|first: bool, k: i32, j: i32, r: bool|
            #[trigger] separating.ensures((first, k, j), r) ==> r == sep(first, k, j),
        forall|first: bool, k: i32, j: i32, r: bool|
            #[trigger] swapped.ensures((first, k, j), r) ==> r == sep(!first, k, j),
        collision_verdict(size1, size2, separating, collision),
        collision_verdict(size2, size1, swapped, swapped_collision),
    ensures
        collision == swapped_collision,
{
    if collision && !swapped_collision {
        if exists|k: i32|
            0 <= k < size2 && #[trigger] swapped.ensures((true, k, previous_vertex(k, size2)), true) {
            let k = choose|k: i32|
                0 <= k < size2 && #[trigger] swapped.ensures((true, k, previous_vertex(k, size2)), true);
            assert(separating.ensures((false, k, previous_vertex(k, size2)), false));
        }
        if exists|k: i32|
            0 <= k < size1 && #[trigger] swapped.ensures((false, k, previous_vertex(k, size1)), true) {
            let k = choose|k: i32|
                0 <= k < size1 && #[trigger] swapped.ensures((false, k, previous_vertex(k, size1)), true);
            assert(separating.ensures((true, k, previous_vertex(k, size1)), false));
        }
    }
    if !collision && swapped_collision {
        if exists|k: i32|
            0 <= k < size1 && #[trigger] separating.ensures((true, k, previous_vertex(k, size1)), true) {
            let k = choose|k: i32|
                0 <= k < size1 && #[trigger] separating.ensures((true, k, previous_vertex(k, size1)), true);
            assert(swapped.ensures((false, k, previous_vertex(k, size1)), false));
        }
        if exists|k: i32|
            0 <= k < size2 && #[trigger] separating.ensures((false, k, previous_vertex(k, size2)), true) {
            let k = choose|k: i32|
                0 <= k < size2 && #[trigger] separating.ensures((false, k, previous_vertex(k, size2)), true);
            assert(swapped.ensures((true, k, previous_vertex(k, size2)), false));
        }
    }
}

/// Every answer `f` gives is the relation `rel` of the question: the
/// closure computes `rel`.
pub open spec fn computes_relation<P: Fn(i32, i32) -> bool>(f: P, rel: spec_fn(i32, i32) -> bool) -> bool {
    forall|a: i32, b: i32, r: bool| #[trigger] f.ensures((a, b), r) ==> r == rel(a, b)
}

/// `less` never puts a point before itself and is transitive: a strict
/// order on point indices.
pub open spec fn strict_order(less: spec_fn(i32, i32) -> bool) -> bool {
    &&& forall|a: i32| !#[trigger] less(a, a)
    &&& forall|a: i32, b: i32, c: i32| #[trigger] less(a, b) && #[trigger] less(b, c) ==> less(a, c)
}

/// `precedes` computes the strict order `less`.
pub open spec fn sorts_by<P: Fn(i32, i32) -> bool>(precedes: P, less: spec_fn(i32, i32) -> bool) -> bool {
    computes_relation(precedes, less) && strict_order(less)
}

/// Position in `order[start..end]` of the point picked as first: each point
/// is compared with the current pick and replaces it if it precedes it. For
/// every strict order that `precedes` computes, no point in the range comes
/// before the pick.
fn first_position<P: Fn(i32, i32) -> bool>(order: &Vec<i32>, start: usize, end: usize, precedes: &P) -> (pos: usize)
    requires
        start < end <= order.len(),
        forall|a: i32, b: i32| precedes.requires((a, b)),
    ensures
        start <= pos < end,
        forall|less: spec_fn(i32, i32) -> bool| #[trigger] sorts_by(*precedes, less) ==> forall|j: int|
            start <= j < end ==> !less(#[trigger] order@[j], order@[pos as int]),
{
    let mut pos = start;
    let mut i = start + 1;
    while i < end
        invariant
            start <= pos < i <= end <= order.len(),
            forall|a: i32, b: i32| precedes.requires((a, b)),
            forall|less: spec_fn(i32, i32) -> bool| #[trigger] sorts_by(*precedes, less) ==> forall|j: int|
                start <= j < i ==> !less(#[trigger] order@[j], order@[pos as int]),
        decreases end - i,
    {
        let ghost old_pos = pos;
        let earlier = precedes(order[i], order[pos]);
        if earlier {
            pos = i;
        }
        assert forall|less: spec_fn(i32, i32) -> bool| #[trigger] sorts_by(*precedes, less) implies forall|j: int|
            start <= j < i + 1 ==> !less(#[trigger] order@[j], order@[pos as int]) by {
            assert(earlier == less(order@[i as int], order@[old_pos as int]));
            assert forall|j: int| start <= j < i + 1 implies !less(#[trigger] order@[j], order@[pos as int]) by {
                if earlier {
                    if j < i && less(order@[j], order@[pos as int]) {
                        assert(!less(order@[j], order@[old_pos as int]));
                    }
                    if j == i {
                        assert(!less(order@[pos as int], order@[pos as int]));
                    }
                }
            }
        }
        i = i + 1;
    }
    pos
}

/// Points that `same` may report different are ordered one way or the
/// other by `less`: together the two make a total order on distinct points.
pub open spec fn orders_distinct<S: Fn(i32, i32) -> bool>(same: S, less: spec_fn(i32, i32) -> bool) -> bool {
    forall|a: i32, b: i32| #[trigger] same.ensures((a, b), false) ==> less(a, b) || less(b, a)
}

/// In a list whose neighbours were reported different and in which no point
/// comes before an earlier one, each point comes before every later one, for
/// a strict order that orders all distinct points.
proof fn lemma_each_precedes_later<S: Fn(i32, i32) -> bool>(
    order: Seq<i32>,
    less: spec_fn(i32, i32) -> bool,
    same: S,
    k: int,
    j: int,
)
    requires
        strict_order(less),
        orders_distinct(same, less),
        forall|m: int| 0 <= m && m + 1 < order.len() ==> #[trigger] same.ensures((order[m + 1], order[m]), false),
        forall|m: int, l: int| 0 <= m < l < order.len() ==> !less(#[trigger] order[l], #[trigger] order[m]),
        0 <= k < j < order.len(),
    ensures
        less(order[k], order[j]),
    decreases j - k,
{
    assert(same.ensures((order[j - 1 + 1], order[j - 1]), false));
    assert(!less(order[j], order[j - 1]));
    if j > k + 1 {
        lemma_each_precedes_later(order, less, same, k, j - 1);
    }
}

/// Every index below `n` occurs in `kept`, or was reported by `same` to be
/// the same point as one that does.
pub open spec fn covers<S: Fn(i32, i32) -> bool>(n: int, same: S, kept: Seq<i32>) -> bool {
    forall|v: i32|
        0 <= v < n ==> kept.contains(v) || exists|k: int|
            0 <= k < kept.len() && #[trigger] same.ensures((v, kept[k]), true)
}

/// Sorts the indices `0..num_points` of a point list by selection and drops
/// repeated points, returning the order in which the distinct points come.
///
/// Position by position, the point that `precedes` puts first among the
/// remaining ones is chosen; if `same` reports it equal to the point placed
/// just before, it is dropped (its place taken by the last remaining point)
/// instead of placed. The result lists pairwise different indices below
/// `num_points`, no two neighbours in it were reported the same point, and
/// every index left out was reported the same point as one that is kept.
/// When `precedes` is a strict order, no point of the result precedes a
/// point placed before it; if besides it orders every two points that `same`
/// reports different, each point of the result precedes every later one.
pub fn sort_unique<P: Fn(i32, i32) -> bool, S: Fn(i32, i32) -> bool>(
    num_points: i32,
    precedes: P,
    same: S,
) -> (order: Vec<i32>)
    requires
        num_points >= 0,
        forall|a: i32, b: i32| precedes.requires((a, b)),
        forall|a: i32, b: i32| same.requires((a, b)),
    ensures
        order.len() <= num_points,
        num_points >= 1 ==> order.len() >= 1,
        forall|k: int| 0 <= k < order.len() ==> 0 <= #[trigger] order@[k] < num_points,
        no_duplicates(order@),
        forall|i: int, j: int| 0 <= i < j < order.len() ==> order@[i] != order@[j],
        forall|k: int|
            0 <= k && k + 1 < order.len() ==> #[trigger] same.ensures((order@[k + 1], order@[k]), false),
        covers(num_points as int, same, order@),
        forall|v: i32|
            0 <= v < num_points ==> order@.contains(v) || exists|k: int|
                0 <= k < order.len() && #[trigger] same.ensures((v, order@[k]), true),
        forall|less: spec_fn(i32, i32) -> bool| #[trigger] sorts_by(precedes, less) ==> forall|k: int, j: int|
            0 <= k < j < order.len() ==> !less(#[trigger] order@[j], #[trigger] order@[k]),
        forall|less: spec_fn(i32, i32) -> bool|
            #[trigger] sorts_by(precedes, less) && orders_distinct(same, less) ==> forall|k: int, j: int|
                0 <= k < j < order.len() ==> less(#[trigger] order@[k], #[trigger] order@[j]),
{
    let mut order: Vec<i32> = Vec::new();
    let mut v: i32 = 0;
    while v < num_points
        invariant
            0 <= v <= num_points,
            order@ == Seq::new(v as nat, |k: int| k as i32),
        decreases num_points - v,
    {
        order.push(v);
        v = v + 1;
    }
    if num_points == 0 {
        return order;
    }
    let n = num_points as usize;
    let ghost all = order@;
    let mut num_uniques: usize = n;
    let first = first_position(&order, 0, num_uniques, &precedes);
    let ghost initial = order@;
    if first != 0 {
        let a = order[0];
        let b = order[first];
        order.set(0, b);
        order.set(first, a);
    }
    assert forall|less: spec_fn(i32, i32) -> bool| #[trigger] sorts_by(precedes, less) implies forall|k: int, j: int|
        0 <= k < 1 && k < j < num_uniques ==> !less(#[trigger] order@[j], #[trigger] order@[k]) by {
        assert forall|k: int, j: int| 0 <= k < 1 && k < j < num_uniques implies !less(
            #[trigger] order@[j],
            #[trigger] order@[k],
        ) by {
            let pj = if j == first { 0 } else { j };
            assert(order@[j] == initial[pj]);
            assert(order@[k] == initial[first as int]);
        }
    }
    assert forall|v: i32| 0 <= v < num_points implies order@.take(num_uniques as int).contains(v) by {
        if first != 0 && v == 0 {
            assert(order@.take(num_uniques as int)[first as int] == v);
        } else if first != 0 && v == first {
            assert(order@.take(num_uniques as int)[0] == v);
        } else {
            assert(order@.take(num_uniques as int)[v as int] == v);
        }
    }
    let mut i: usize = 1;
    while i < num_uniques
        invariant
            n == num_points,
            1 <= i <= num_uniques <= n,
            order.len() == n,
            forall|a: i32, b: i32| precedes.requires((a, b)),
            forall|a: i32, b: i32| same.requires((a, b)),
            forall|k: int| 0 <= k < num_uniques ==> 0 <= #[trigger] order@[k] < num_points,
            no_duplicates(order@.take(num_uniques as int)),
            forall|k: int|
                0 <= k && k + 1 < i ==> #[trigger] same.ensures((order@[k + 1], order@[k]), false),
            forall|v: i32|
                0 <= v < num_points ==> order@.take(num_uniques as int).contains(v) || exists|k: int|
                    0 <= k < i && #[trigger] same.ensures((v, order@[k]), true),
            forall|less: spec_fn(i32, i32) -> bool| #[trigger] sorts_by(precedes, less) ==> forall|k: int, j: int|
                0 <= k < i && k < j < num_uniques ==> !less(#[trigger] order@[j], #[trigger] order@[k]),
        decreases num_uniques - i,
    {
        let ghost old_order = order@;
        let ghost old_uniques = num_uniques;
        let found = first_position(&order, i, num_uniques, &precedes);
        let previous = order[i - 1];
        let current = order[found];
        if same(current, previous) {
            let last = num_uniques - 1;
            if found != last {
                let moved = order[last];
                order.set(found, moved);
            }
            num_uniques = num_uniques - 1;
            assert(order@.take(num_uniques as int) =~= old_order.take(old_uniques as int).update(
                found as int,
                old_order[last as int],
            ).take(num_uniques as int));
            assert forall|v: i32|
                0 <= v < num_points implies order@.take(num_uniques as int).contains(v) || exists|k: int|
                    0 <= k < i && #[trigger] same.ensures((v, order@[k]), true) by {
                if v == current {
                    assert(same.ensures((v, order@[i - 1]), true));
                } else if old_order.take(old_uniques as int).contains(v) {
                    let p = choose|p: int| 0 <= p < old_uniques && old_order.take(old_uniques as int)[p] == v;
                    if p == last {
                        assert(order@.take(num_uniques as int)[found as int] == v);
                    } else {
                        assert(p != found);
                        assert(order@.take(num_uniques as int)[p] == v);
                    }
                } else {
                    let k = choose|k: int| 0 <= k < i && #[trigger] same.ensures((v, old_order[k]), true);
                    assert(order@[k] == old_order[k]);
                }
            }
            assert forall|a: int, b: int|
                0 <= a < num_uniques && 0 <= b < num_uniques && a != b implies order@.take(
                    num_uniques as int,
                )[a] != order@.take(num_uniques as int)[b] by {
                let pa = if a == found { last as int } else { a };
                let pb = if b == found { last as int } else { b };
                assert(order@[a] == old_order[pa]);
                assert(order@[b] == old_order[pb]);
                assert(old_order.take(old_uniques as int)[pa] == old_order[pa]);
                assert(old_order.take(old_uniques as int)[pb] == old_order[pb]);
            }
            assert forall|k: int|
                0 <= k && k + 1 < i implies #[trigger] same.ensures((order@[k + 1], order@[k]), false) by {
                assert(order@[k] == old_order[k] && order@[k + 1] == old_order[k + 1]);
            }
            assert forall|less: spec_fn(i32, i32) -> bool| #[trigger] sorts_by(precedes, less) implies forall|
                k: int,
                j: int,
            | 0 <= k < i && k < j < num_uniques ==> !less(#[trigger] order@[j], #[trigger] order@[k]) by {
                assert forall|k: int, j: int| 0 <= k < i && k < j < num_uniques implies !less(
                    #[trigger] order@[j],
                    #[trigger] order@[k],
                ) by {
                    let pj = if j == found { last as int } else { j };
                    assert(order@[j] == old_order[pj]);
                    assert(order@[k] == old_order[k]);
                }
            }
        } else {
            if found != i {
                let displaced = order[i];
                order.set(i, current);
                order.set(found, displaced);
            }
            assert(order@[i as int] == current);
            assert(order@[i as int - 1] == previous);
            i = i + 1;
            assert forall|a: int, b: int|
                0 <= a < num_uniques && 0 <= b < num_uniques && a != b implies order@.take(
                    num_uniques as int,
                )[a] != order@.take(num_uniques as int)[b] by {
                let pa = if a == found { i as int - 1 } else if a == i - 1 { found as int } else { a };
                let pb = if b == found { i as int - 1 } else if b == i - 1 { found as int } else { b };
                assert(order@[a] == old_order[pa]);
                assert(order@[b] == old_order[pb]);
                assert(old_order.take(old_uniques as int)[pa] == old_order[pa]);
                assert(old_order.take(old_uniques as int)[pb] == old_order[pb]);
            }
            assert forall|v: i32|
                0 <= v < num_points implies order@.take(num_uniques as int).contains(v) || exists|k: int|
                    0 <= k < i && #[trigger] same.ensures((v, order@[k]), true) by {
                if old_order.take(old_uniques as int).contains(v) {
                    let p = choose|p: int| 0 <= p < old_uniques && old_order.take(old_uniques as int)[p] == v;
                    let q = if p == found { i as int - 1 } else if p == i - 1 { found as int } else { p };
                    assert(order@.take(num_uniques as int)[q] == v);
                } else {
                    let k = choose|k: int| 0 <= k < i - 1 && #[trigger] same.ensures((v, old_order[k]), true);
                    assert(order@[k] == old_order[k]);
                }
            }
            assert forall|k: int|
                0 <= k && k + 1 < i implies #[trigger] same.ensures((order@[k + 1], order@[k]), false) by {
                if k + 1 < i - 1 {
                    assert(order@[k] == old_order[k] && order@[k + 1] == old_order[k + 1]);
                }
            }
            assert forall|less: spec_fn(i32, i32) -> bool| #[trigger] sorts_by(precedes, less) implies forall|
                k: int,
                j: int,
            | 0 <= k < i && k < j < num_uniques ==> !less(#[trigger] order@[j], #[trigger] order@[k]) by {
                assert forall|k: int, j: int| 0 <= k < i && k < j < num_uniques implies !less(
                    #[trigger] order@[j],
                    #[trigger] order@[k],
                ) by {
                    let pj = if j == found { i as int - 1 } else if j == i - 1 { found as int } else { j };
                    let pk = if k == i - 1 { found as int } else { k };
                    assert(order@[j] == old_order[pj]);
                    assert(order@[k] == old_order[pk]);
                }
            }
        }
    }
    let ghost pre = order@;
    order.truncate(num_uniques);
    assert(order@ =~= pre.take(num_uniques as int));
    assert forall|less: spec_fn(i32, i32) -> bool| #[trigger] sorts_by(precedes, less) implies forall|k: int, j: int|
        0 <= k < j < order.len() ==> !less(#[trigger] order@[j], #[trigger] order@[k]) by {
        assert forall|k: int, j: int| 0 <= k < j < order.len() implies !less(
            #[trigger] order@[j],
            #[trigger] order@[k],
        ) by {
            assert(order@[j] == pre[j] && order@[k] == pre[k]);
        }
    }
    assert forall|v: i32|
        0 <= v < num_points implies order@.contains(v) || exists|k: int|
            0 <= k < order@.len() && #[trigger] same.ensures((v, order@[k]), true) by {
        if !order@.contains(v) {
            let k = choose|k: int| 0 <= k < i && #[trigger] same.ensures((v, pre[k]), true);
            assert(order@[k] == pre[k]);
        }
    }
    assert forall|less: spec_fn(i32, i32) -> bool|
        #[trigger] sorts_by(precedes, less) && orders_distinct(same, less) implies forall|k: int, j: int|
        0 <= k < j < order.len() ==> less(#[trigger] order@[k], #[trigger] order@[j]) by {
        assert forall|k: int, j: int| 0 <= k < j < order.len() implies less(
            #[trigger] order@[k],
            #[trigger] order@[j],
        ) by {
            lemma_each_precedes_later(order@, less, same, k, j);
        }
    }
    order
}


/// Pairwise different values below `n` are at most `n` many.
pub proof fn lemma_distinct_bounded(s: Seq<i32>, n: int)
    requires
        no_duplicates(s),
        forall|k: int| 0 <= k < s.len() ==> 0 <= #[trigger] s[k] < n,
    ensures
        s.len() <= if n < 0 { 0 } else { n },
    decreases if n < 0 { 0 } else { n },
{
    if n <= 0 {
        if s.len() > 0 {
            assert(0 <= s[0] < n);
        }
    } else if exists|p: int| 0 <= p < s.len() && s[p] == n - 1 {
        let p = choose|p: int| 0 <= p < s.len() && s[p] == n - 1;
        let t = s.remove(p);
        assert forall|k: int| 0 <= k < t.len() implies 0 <= #[trigger] t[k] < n - 1 by {
            let j = if k < p { k } else { k + 1 };
            assert(t[k] == s[j]);
            assert(j != p);
        }
        assert forall|a: int, b: int| 0 <= a < t.len() && 0 <= b < t.len() && a != b implies t[a] != t[b] by {
            let ja = if a < p { a } else { a + 1 };
            let jb = if b < p { b } else { b + 1 };
            assert(t[a] == s[ja] && t[b] == s[jb]);
        }
        lemma_distinct_bounded(t, n - 1);
    } else {
        assert forall|k: int| 0 <= k < s.len() implies 0 <= #[trigger] s[k] < n - 1 by {
            assert(s[k] != n - 1);
        }
        lemma_distinct_bounded(s, n - 1);
    }
}

/// The convex hull of a point list, as the points are written out: the
/// polygon `polygon` over the sorted distinct points `order` (indices into
/// the list of `num_points` points) names pairwise different points of the
/// list, so it never has more than `num_points` vertices.
pub proof fn lemma_hull_lists_distinct_points(num_points: int, order: Seq<i32>, polygon: Seq<i32>)
    requires
        no_duplicates(order),
        forall|k: int| 0 <= k < order.len() ==> 0 <= #[trigger] order[k] < num_points,
        no_duplicates(polygon),
        forall|k: int| 0 <= k < polygon.len() ==> 0 <= #[trigger] polygon[k] < order.len(),
    ensures
        ({
            let points = polygon.map_values(|p: i32| order[p as int]);
            &&& points.len() == polygon.len()
            &&& no_duplicates(points)
            &&& forall|k: int| 0 <= k < points.len() ==> 0 <= #[trigger] points[k] < num_points
            &&& points.len() <= if num_points < 0 { 0 } else { num_points }
        }),
{
    let points = polygon.map_values(|p: i32| order[p as int]);
    assert forall|k: int| 0 <= k < points.len() implies 0 <= #[trigger] points[k] < num_points by {
        assert(points[k] == order[polygon[k] as int]);
    }
    assert forall|a: int, b: int|
        0 <= a < points.len() && 0 <= b < points.len() && a != b implies points[a] != points[b] by {
        assert(points[a] == order[polygon[a] as int]);
        assert(points[b] == order[polygon[b] as int]);
        assert(polygon[a] != polygon[b]);
    }
    lemma_distinct_bounded(points, num_points);
}

} // verus!
