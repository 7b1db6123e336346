//! Exact orientation of points with integer coordinates.
//!
//! `cross(p, q, r)` is twice the signed area of the triangle `p, q, r`:
//! positive when `p -> q -> r` turns left. For points sorted
//! lexicographically (by x, then y) the left-turn test obeys the four-point
//! rules of `chain`, read in either direction, and no triple turns left both
//! ways round.

use vstd::prelude::*;
use crate::chain::{
    four_point_rules, lemma_chain_edge_sides, lower_convex_chain, lower_hull_vertex, reversed,
    sweep_consistent,
};
use crate::hull::{lower_scan, monotone_hull, passed_over, turn_on, upper_scan};
use crate::hull_geometry::{
    lemma_first_scan, lemma_hull_of_hull, lemma_scan_chains_are_hull, lemma_upper_mirrored_convex, one_sided,
    upper_hull_vertex,
};

verus! {

/// Twice the signed area of the triangle `p, q, r`.
pub open spec fn cross(p: (int, int), q: (int, int), r: (int, int)) -> int {
    (q.0 - p.0) * (r.1 - p.1) - (q.1 - p.1) * (r.0 - p.0)
}

/// `p -> q -> r` turns strictly left.
pub open spec fn turns_left_exactly(p: (int, int), q: (int, int), r: (int, int)) -> bool {
    cross(p, q, r) > 0
}

/// `p` comes before `q` by x, then by y.
pub open spec fn lex_less(p: (int, int), q: (int, int)) -> bool {
    p.0 < q.0 || (p.0 == q.0 && p.1 < q.1)
}

/// The cross product of two vectors.
spec fn wedge(u: (int, int), v: (int, int)) -> int {
    u.0 * v.1 - u.1 * v.0
}

spec fn step(p: (int, int), q: (int, int)) -> (int, int) {
    (p.0 - q.0, p.1 - q.1)
}

spec fn abs(x: int) -> int {
    if x < 0 { -x } else { x }
}

/// Three vectors satisfy `[u, v] w + [v, w] u + [w, u] v = 0`, coordinate
/// by coordinate.
proof fn lemma_three_vectors_coordinate(u0: int, u1: int, v0: int, v1: int, w0: int, w1: int)
    ensures
        (u0 * v1 - u1 * v0) * w0 + (v0 * w1 - v1 * w0) * u0 + (w0 * u1 - w1 * u0) * v0 == 0,
        (u0 * v1 - u1 * v0) * w1 + (v0 * w1 - v1 * w0) * u1 + (w0 * u1 - w1 * u0) * v1 == 0,
{
    assert((u0 * v1 - u1 * v0) * w0 + (v0 * w1 - v1 * w0) * u0 + (w0 * u1 - w1 * u0) * v0 == 0)
        by (nonlinear_arith);
    assert((u0 * v1 - u1 * v0) * w1 + (v0 * w1 - v1 * w0) * u1 + (w0 * u1 - w1 * u0) * v1 == 0)
        by (nonlinear_arith);
}

/// The same for the linear form `f(x, y) = k x + y`.
proof fn lemma_three_vectors(s12: int, s23: int, s31: int, u: (int, int), v: (int, int), w: (int, int), k: int)
    requires
        s12 == wedge(u, v),
        s23 == wedge(v, w),
        s31 == wedge(w, u),
    ensures
        s12 * (k * w.0 + w.1) + s23 * (k * u.0 + u.1) + s31 * (k * v.0 + v.1) == 0,
{
    lemma_three_vectors_coordinate(u.0, u.1, v.0, v.1, w.0, w.1);
    lemma_form_term(s12, w.0, w.1, k);
    lemma_form_term(s23, u.0, u.1, k);
    lemma_form_term(s31, v.0, v.1, k);
    let x = s12 * w.0 + s23 * u.0 + s31 * v.0;
    assert(x == 0);
    assert(s12 * w.1 + s23 * u.1 + s31 * v.1 == 0);
    vstd::arithmetic::mul::lemma_mul_by_zero_is_zero(k);
    vstd::arithmetic::mul::lemma_mul_is_distributive_add(k, s12 * w.0, s23 * u.0);
    vstd::arithmetic::mul::lemma_mul_is_distributive_add(k, s12 * w.0 + s23 * u.0, s31 * v.0);
    assert(k * x == k * (s12 * w.0) + k * (s23 * u.0) + k * (s31 * v.0));
    assert(k * x == 0);
}

/// `s (k x + y) = k (s x) + s y`.
proof fn lemma_form_term(s: int, x: int, y: int, k: int)
    ensures
        s * (k * x + y) == k * (s * x) + s * y,
{
    vstd::arithmetic::mul::lemma_mul_is_distributive_add(s, k * x, y);
    vstd::arithmetic::mul::lemma_mul_is_associative(s, k, x);
    vstd::arithmetic::mul::lemma_mul_is_commutative(s, k);
    vstd::arithmetic::mul::lemma_mul_is_associative(k, s, x);
}

/// The cross product of three points in terms of the steps between them.
proof fn lemma_cross_steps(p: (int, int), q: (int, int), r: (int, int))
    ensures
        cross(p, q, r) == wedge(step(q, p), step(r, q)),
{
    assert((q.0 - p.0) * (r.1 - p.1) - (q.1 - p.1) * (r.0 - p.0) == (q.0 - p.0) * (r.1 - q.1) - (q.1 - p.1) * (
    r.0 - q.0)) by (nonlinear_arith);
}

/// Swapping the vectors flips the sign of the wedge.
proof fn lemma_wedge_swap(u: (int, int), v: (int, int))
    ensures
        wedge(v, u) == -wedge(u, v),
{
    assert(v.0 * u.1 - v.1 * u.0 == -(u.0 * v.1 - u.1 * v.0)) by (nonlinear_arith);
}

/// The wedge is additive in its second vector.
proof fn lemma_wedge_add(u: (int, int), v: (int, int), w: (int, int))
    ensures
        wedge(u, (v.0 + w.0, v.1 + w.1)) == wedge(u, v) + wedge(u, w),
        wedge((u.0 + v.0, u.1 + v.1), w) == wedge(u, w) + wedge(v, w),
{
    assert(u.0 * (v.1 + w.1) - u.1 * (v.0 + w.0) == (u.0 * v.1 - u.1 * v.0) + (u.0 * w.1 - u.1 * w.0))
        by (nonlinear_arith);
    assert((u.0 + v.0) * w.1 - (u.1 + v.1) * w.0 == (u.0 * w.1 - u.1 * w.0) + (v.0 * w.1 - v.1 * w.0))
        by (nonlinear_arith);
}

/// A vector that points lexicographically forward is positive under
/// `f(x, y) = k x + y` once `k` exceeds the size of its y part.
proof fn lemma_forward_positive(u: (int, int), k: int)
    requires
        u.0 > 0 || (u.0 == 0 && u.1 > 0),
        k > abs(u.1),
    ensures
        k * u.0 + u.1 > 0,
{
    if u.0 > 0 {
        assert(k * u.0 >= k) by (nonlinear_arith)
            requires
                u.0 >= 1,
                k > 0,
        ;
    }
}

/// The four-point rules for exact orientations of four lexicographically
/// sorted points.
proof fn lemma_four_sorted(a: (int, int), b: (int, int), c: (int, int), d: (int, int))
    requires
        lex_less(a, b),
        lex_less(b, c),
        lex_less(c, d),
    ensures
        ({
            let t = |p: (int, int), q: (int, int), r: (int, int)| turns_left_exactly(p, q, r);
            &&& (t(a, b, c) && t(b, c, d) ==> t(a, b, d) && t(a, c, d))
            &&& (!t(a, b, c) && t(a, c, d) ==> t(b, c, d))
            &&& (t(a, b, d) && !t(b, c, d) ==> t(a, b, c))
            &&& (!t(a, b, c) && !t(a, c, d) ==> !t(a, b, d))
            &&& (!t(b, c, d) && !t(a, b, d) ==> !t(a, c, d))
        }),
{
    let d1 = step(b, a);
    let d2 = step(c, b);
    let d3 = step(d, c);
    let s12 = wedge(d1, d2);
    let s23 = wedge(d2, d3);
    let s13 = wedge(d1, d3);
    lemma_cross_steps(a, b, c);
    lemma_cross_steps(b, c, d);
    lemma_cross_steps(a, b, d);
    lemma_cross_steps(a, c, d);
    assert(step(d, b) == (d2.0 + d3.0, d2.1 + d3.1));
    assert(step(c, a) == (d1.0 + d2.0, d1.1 + d2.1));
    lemma_wedge_add(d1, d2, d3);
    assert(cross(a, b, c) == s12);
    assert(cross(b, c, d) == s23);
    assert(cross(a, b, d) == s12 + s13);
    assert(cross(a, c, d) == s13 + s23);
    let k = 1 + abs(d1.1) + abs(d2.1) + abs(d3.1);
    lemma_forward_positive(d1, k);
    lemma_forward_positive(d2, k);
    lemma_forward_positive(d3, k);
    let f1 = k * d1.0 + d1.1;
    let f2 = k * d2.0 + d2.1;
    let f3 = k * d3.0 + d3.1;
    lemma_wedge_swap(d1, d3);
    lemma_three_vectors(s12, s23, -s13, d1, d2, d3, k);
    assert(s13 * f2 == s12 * f3 + s23 * f1) by (nonlinear_arith)
        requires
            s12 * f3 + s23 * f1 + (-s13) * f2 == 0,
    ;
    assert(s12 > 0 && s23 > 0 ==> s13 > 0) by (nonlinear_arith)
        requires
            s13 * f2 == s12 * f3 + s23 * f1,
            f1 > 0,
            f2 > 0,
            f3 > 0,
    ;
    assert(s12 <= 0 && s23 <= 0 ==> s13 <= 0) by (nonlinear_arith)
        requires
            s13 * f2 == s12 * f3 + s23 * f1,
            f1 > 0,
            f2 > 0,
            f3 > 0,
    ;
    assert(s13 > 0 && s12 <= 0 ==> s23 > 0) by (nonlinear_arith)
        requires
            s13 * f2 == s12 * f3 + s23 * f1,
            f1 > 0,
            f2 > 0,
            f3 > 0,
    ;
    assert(s13 > 0 && s23 <= 0 ==> s12 > 0) by (nonlinear_arith)
        requires
            s13 * f2 == s12 * f3 + s23 * f1,
            f1 > 0,
            f2 > 0,
            f3 > 0,
    ;
}

/// The exact left-turn test on points with integer coordinates.
pub open spec fn exact_left_turn() -> spec_fn((int, int), (int, int), (int, int)) -> bool {
    |p: (int, int), q: (int, int), r: (int, int)| turns_left_exactly(p, q, r)
}

/// The lexicographic order, as a relation.
pub open spec fn lex_order() -> spec_fn((int, int), (int, int)) -> bool {
    |p: (int, int), q: (int, int)| lex_less(p, q)
}

/// The points are strictly increasing by x, then y: sorted, without repeats.
pub open spec fn lex_sorted(points: Seq<(int, int)>) -> bool {
    forall|k: int, j: int| 0 <= k < j < points.len() ==> lex_less(#[trigger] points[k], #[trigger] points[j])
}

/// Mirroring a point through the origin.
spec fn mirror(p: (int, int)) -> (int, int) {
    (-p.0, -p.1)
}

proof fn lemma_mirror_cross(p: (int, int), q: (int, int), r: (int, int))
    ensures
        cross(mirror(p), mirror(q), mirror(r)) == cross(p, q, r),
        cross(r, q, p) == -cross(p, q, r),
{
    assert((-q.0 + p.0) * (-r.1 + p.1) - (-q.1 + p.1) * (-r.0 + p.0) == (q.0 - p.0) * (r.1 - p.1) - (q.1
        - p.1) * (r.0 - p.0)) by (nonlinear_arith);
    assert((q.0 - r.0) * (p.1 - r.1) - (q.1 - r.1) * (p.0 - r.0) == -((q.0 - p.0) * (r.1 - p.1) - (q.1
        - p.1) * (r.0 - p.0))) by (nonlinear_arith);
}

/// Exact orientations of points sorted by x, then y, obey the rules of
/// `chain` read in either direction, and no three of the points turn left
/// both ways round.
pub proof fn lemma_exact_orientation_rules(points: Seq<(int, int)>)
    requires
        lex_sorted(points),
        points.len() <= i32::MAX,
    ensures
        sweep_consistent(turn_on(points, exact_left_turn()), points.len() as int),
        sweep_consistent(reversed(turn_on(points, exact_left_turn()), points.len() as int), points.len() as int),
        one_sided(turn_on(points, exact_left_turn()), points.len() as int),
{
    let n = points.len() as int;
    let t = turn_on(points, exact_left_turn());
    assert forall|a: i32, b: i32, c: i32, d: i32| 0 <= a < b < c < d < n implies #[trigger] four_point_rules(
        t,
        a,
        b,
        c,
        d,
    ) by {
        lemma_four_sorted(points[a as int], points[b as int], points[c as int], points[d as int]);
    }
    let rt = reversed(t, n);
    assert forall|a: i32, b: i32, c: i32, d: i32| 0 <= a < b < c < d < n implies #[trigger] four_point_rules(
        rt,
        a,
        b,
        c,
        d,
    ) by {
        let pa = points[n - 1 - a];
        let pb = points[n - 1 - b];
        let pc = points[n - 1 - c];
        let pd = points[n - 1 - d];
        assert(lex_less(pb, pa) && lex_less(pc, pb) && lex_less(pd, pc));
        lemma_four_sorted(mirror(pa), mirror(pb), mirror(pc), mirror(pd));
        lemma_mirror_cross(pa, pb, pc);
        lemma_mirror_cross(pa, pb, pd);
        lemma_mirror_cross(pa, pc, pd);
        lemma_mirror_cross(pb, pc, pd);
        assert(rt(a, b, c) == turns_left_exactly(pa, pb, pc));
        assert(rt(a, b, d) == turns_left_exactly(pa, pb, pd));
        assert(rt(a, c, d) == turns_left_exactly(pa, pc, pd));
        assert(rt(b, c, d) == turns_left_exactly(pb, pc, pd));
    }
    assert forall|a: i32, b: i32, c: i32| 0 <= a < b < c < n implies !(#[trigger] t(a, b, c) && t(c, b, a)) by {
        lemma_mirror_cross(points[a as int], points[b as int], points[c as int]);
    }
}

/// For points with integer coordinates, sorted by x then y without repeats,
/// the hull scan with the exact left-turn test finds the hull: its lower chain
/// holds exactly the strict vertices of the lower hull, its upper chain
/// exactly those of the upper hull.
pub proof fn lemma_integer_hull_chains(points: Seq<(int, int)>)
    requires
        lex_sorted(points),
        3 <= points.len() <= i32::MAX,
    ensures
        ({
            let t = turn_on(points, exact_left_turn());
            let n = points.len() as int;
            &&& forall|b: i32| 0 <= b < n ==> #[trigger] lower_scan(t, n).contains(b) == lower_hull_vertex(t, n, b)
            &&& forall|b: i32|
                0 <= b < n ==> #[trigger] upper_scan(t, n, lower_scan(t, n), 0).contains(b) == upper_hull_vertex(
                    t,
                    n,
                    b,
                )
        }),
{
    lemma_exact_orientation_rules(points);
    lemma_scan_chains_are_hull(turn_on(points, exact_left_turn()), points.len() as int);
}

/// For points with integer coordinates, the hull of a hull is itself: with
/// `points` sorted by x then y without repeats, and `vertices` the points of
/// their hull polygon sorted the same way, the scan with the exact left-turn
/// test finds the same polygon over `vertices`: as many vertices, the same
/// points, from the same start and in the same order.
pub proof fn lemma_integer_hull_of_hull(points: Seq<(int, int)>, vertices: Seq<(int, int)>)
    requires
        lex_sorted(points),
        points.len() <= i32::MAX,
        lex_sorted(vertices),
        forall|x: (int, int)|
            #![trigger vertices.contains(x)]
            vertices.contains(x) == exists|k: int|
                0 <= k < monotone_hull(turn_on(points, exact_left_turn()), points.len() as int).len()
                    && points[monotone_hull(turn_on(points, exact_left_turn()), points.len() as int)[k] as int]
                    == x,
    ensures
        monotone_hull(turn_on(vertices, exact_left_turn()), vertices.len() as int).map_values(
            |k: i32| vertices[k as int],
        ) == monotone_hull(turn_on(points, exact_left_turn()), points.len() as int).map_values(
            |k: i32| points[k as int],
        ),
{
    lemma_exact_orientation_rules(points);
    let less = lex_order();
    assert forall|k: int, j: int| 0 <= k < j < points.len() implies less(#[trigger] points[k], #[trigger] points[j]) by {}
    assert forall|k: int, j: int| 0 <= k < j < vertices.len() implies less(
        #[trigger] vertices[k],
        #[trigger] vertices[j],
    ) by {}
    lemma_hull_of_hull(points, vertices, less, exact_left_turn());
}

/// The cross product is unchanged when its points are rotated, changes sign
/// when two are swapped, and vanishes when a point repeats.
proof fn lemma_cross_symmetries(a: (int, int), b: (int, int), c: (int, int))
    ensures
        cross(a, b, c) == cross(b, c, a),
        cross(a, c, b) == -cross(a, b, c),
        cross(a, b, a) == 0,
        cross(a, b, b) == 0,
{
    assert((b.0 - a.0) * (c.1 - a.1) - (b.1 - a.1) * (c.0 - a.0) == (c.0 - b.0) * (a.1 - b.1) - (c.1 - b.1) * (
    a.0 - b.0)) by (nonlinear_arith);
    assert((c.0 - a.0) * (b.1 - a.1) - (c.1 - a.1) * (b.0 - a.0) == -((b.0 - a.0) * (c.1 - a.1) - (b.1 - a.1)
        * (c.0 - a.0))) by (nonlinear_arith);
    assert((b.0 - a.0) * (a.1 - a.1) - (b.1 - a.1) * (a.0 - a.0) == 0) by (nonlinear_arith);
    assert((b.0 - a.0) * (b.1 - a.1) - (b.1 - a.1) * (b.0 - a.0) == 0) by (nonlinear_arith);
}

/// Every point lies on or to the left of the edge from `points[a]` to
/// `points[b]`, given which side of that edge each point was shown to be on.
proof fn lemma_edge_holds_point(points: Seq<(int, int)>, a: i32, b: i32, p: i32)
    requires
        0 <= a < points.len(),
        0 <= b < points.len(),
        0 <= p < points.len(),
        a != b,
        (a < p < b || b < p < a) ==> !turns_left_exactly(points[a as int], points[p as int], points[b as int]),
        !(a < p < b || b < p < a) && p != a && p != b ==> (turns_left_exactly(
            points[p as int],
            points[a as int],
            points[b as int],
        ) || turns_left_exactly(points[a as int], points[b as int], points[p as int])),
    ensures
        cross(points[a as int], points[b as int], points[p as int]) >= 0,
{
    let (pa, pb, pp) = (points[a as int], points[b as int], points[p as int]);
    lemma_cross_symmetries(pa, pb, pp);
    lemma_cross_symmetries(pp, pa, pb);
    lemma_cross_symmetries(pa, pp, pb);
}

/// For points with integer coordinates, sorted by x then y without repeats,
/// the hull polygon the scan finds with the exact left-turn test is the
/// convex hull, gone round counter-clockwise: every point lies on or to the
/// left of every edge, and when the polygon has three vertices or more, it
/// turns strictly left at each of them. (With two vertices, every point lies
/// on the line through them, as both edges hold every point.)
pub proof fn lemma_integer_hull_is_convex_hull(points: Seq<(int, int)>)
    requires
        lex_sorted(points),
        3 <= points.len() <= i32::MAX,
    ensures
        ({
            let n = points.len() as int;
            let hull = monotone_hull(turn_on(points, exact_left_turn()), n);
            let m = hull.len();
            &&& 2 <= m
            &&& forall|k: int| 0 <= k < m ==> 0 <= #[trigger] hull[k] < n
            &&& forall|k: int, p: int|
                #![trigger hull[k], points[p]]
                0 <= k < m && 0 <= p < n ==> cross(
                    points[hull[k] as int],
                    points[hull[(k + 1) % (m as int)] as int],
                    points[p],
                ) >= 0
            &&& m >= 3 ==> forall|k: int|
                0 <= k < m ==> #[trigger] cross(
                    points[hull[k] as int],
                    points[hull[(k + 1) % (m as int)] as int],
                    points[hull[(k + 2) % (m as int)] as int],
                ) > 0
        }),
{
    let n = points.len() as int;
    let t = turn_on(points, exact_left_turn());
    let hull = monotone_hull(t, n);
    let m = hull.len() as int;
    lemma_hull_shape(points);
    assert forall|k: int, p: int|
        #![trigger hull[k], points[p]]
        0 <= k < m && 0 <= p < n implies cross(
        points[hull[k] as int],
        points[hull[(k + 1) % (m as int)] as int],
        points[p],
    ) >= 0 by {
        lemma_hull_edge(points, k, p);
    }
    if m >= 3 {
        assert forall|k: int| 0 <= k < m implies #[trigger] cross(
            points[hull[k] as int],
            points[hull[(k + 1) % (m as int)] as int],
            points[hull[(k + 2) % (m as int)] as int],
        ) > 0 by {
            lemma_hull_turn(points, k);
        }
    }
}

/// The hull polygon has at least two vertices, each a point of the list.
proof fn lemma_hull_shape(points: Seq<(int, int)>)
    requires
        lex_sorted(points),
        3 <= points.len() <= i32::MAX,
    ensures
        ({
            let hull = monotone_hull(turn_on(points, exact_left_turn()), points.len() as int);
            &&& hull.len() >= 2
            &&& forall|k: int| 0 <= k < hull.len() ==> 0 <= #[trigger] hull[k] < points.len()
        }),
{
    let n = points.len() as int;
    let t = turn_on(points, exact_left_turn());
    lemma_exact_orientation_rules(points);
    lemma_first_scan(t, n);
    let lower = lower_scan(t, n);
    let upper = upper_scan(t, n, lower, 0);
    let hull = monotone_hull(t, n);
    let l = lower.len() as int;
    assert(hull == lower.drop_last() + upper.drop_last());
    assert forall|k: int| 0 <= k < hull.len() implies 0 <= #[trigger] hull[k] < n by {
        if k < l - 1 {
            assert(hull[k] == lower[k]);
        } else {
            assert(hull[k] == upper[k - (l - 1)]);
        }
    }
}

/// Every point lies on or to the left of edge `k` of the hull polygon.
proof fn lemma_hull_edge(points: Seq<(int, int)>, k: int, p: int)
    requires
        lex_sorted(points),
        3 <= points.len() <= i32::MAX,
        0 <= k < monotone_hull(turn_on(points, exact_left_turn()), points.len() as int).len(),
        0 <= p < points.len(),
    ensures
        ({
            let hull = monotone_hull(turn_on(points, exact_left_turn()), points.len() as int);
            let m = hull.len() as int;
            cross(points[hull[k] as int], points[hull[(k + 1) % m] as int], points[p]) >= 0
        }),
{
    let n = points.len() as int;
    let t = turn_on(points, exact_left_turn());
    lemma_exact_orientation_rules(points);
    lemma_first_scan(t, n);
    lemma_upper_mirrored_convex(t, n);
    let lower = lower_scan(t, n);
    let upper = upper_scan(t, n, lower, 0);
    let hull = monotone_hull(t, n);
    let l = lower.len() as int;
    let u = upper.len() as int;
    let m = hull.len() as int;
    let rev = reversed(t, n);
    let mirrored = upper.map_values(|x: i32| (n - 1 - x) as i32);
    assert(hull == lower.drop_last() + upper.drop_last());
    assert(m == l + u - 2);
    lemma_around(m);
    assert(lower[l - 1] == n - 1 && upper[0] == n - 1 && upper[u - 1] == 0 && lower[0] == 0);
    let pi = p as i32;
    if k < l - 1 {
        assert(hull[k] == lower[k]);
        assert((k + 1) % m == k + 1);
        assert(hull[k + 1] == lower[k + 1]) by {
            if k + 1 == l - 1 {
                assert(hull[k + 1] == upper[0]);
            }
        }
        lemma_chain_edge_sides(t, n, lower, k, pi);
        lemma_edge_holds_point(points, lower[k], lower[k + 1], pi);
    } else {
        let j = k - (l - 1);
        assert(hull[k] == upper[j]);
        assert(hull[(k + 1) % m] == upper[j + 1]) by {
            if j + 1 == u - 1 {
                assert((k + 1) % m == 0);
                assert(hull[0] == lower[0]);
            } else {
                assert((k + 1) % m == k + 1);
            }
        }
        let pm = (n - 1 - p) as i32;
        lemma_chain_edge_sides(rev, n, mirrored, j, pm);
        assert(mirrored[j] == n - 1 - upper[j] && mirrored[j + 1] == n - 1 - upper[j + 1]);
        assert(rev(mirrored[j], pm, mirrored[j + 1]) == t(upper[j], pi, upper[j + 1]));
        assert(rev(pm, mirrored[j], mirrored[j + 1]) == t(pi, upper[j], upper[j + 1]));
        assert(rev(mirrored[j], mirrored[j + 1], pm) == t(upper[j], upper[j + 1], pi));
        assert(upper[j] > upper[j + 1]);
        lemma_edge_holds_point(points, upper[j], upper[j + 1], pi);
    }
}

/// The hull polygon of integer points turns strictly left at each vertex,
/// when it has three vertices or more.
proof fn lemma_hull_turn(points: Seq<(int, int)>, k: int)
    requires
        lex_sorted(points),
        3 <= points.len() <= i32::MAX,
        monotone_hull(turn_on(points, exact_left_turn()), points.len() as int).len() >= 3,
        0 <= k < monotone_hull(turn_on(points, exact_left_turn()), points.len() as int).len(),
    ensures
        ({
            let hull = monotone_hull(turn_on(points, exact_left_turn()), points.len() as int);
            let m = hull.len() as int;
            cross(points[hull[k] as int], points[hull[(k + 1) % m] as int], points[hull[(k + 2) % m] as int]) > 0
        }),
{
    let n = points.len() as int;
    let t = turn_on(points, exact_left_turn());
    lemma_exact_orientation_rules(points);
    lemma_first_scan(t, n);
    lemma_scan_chains_are_hull(t, n);
    let lower = lower_scan(t, n);
    let upper = upper_scan(t, n, lower, 0);
    let hull = monotone_hull(t, n);
    let l = lower.len() as int;
    let u = upper.len() as int;
    let m = hull.len() as int;
    assert(hull == lower.drop_last() + upper.drop_last());
    assert(m == l + u - 2);
    assert(forall|i: int| 0 <= i < l - 1 ==> hull[i] == lower[i]);
    assert(forall|i: int| l - 1 <= i < m ==> hull[i] == upper[i - (l - 1)]);
    lemma_around(m);
    assert(lower[l - 1] == n - 1 && upper[0] == n - 1 && upper[u - 1] == 0 && lower[0] == 0);
    assert(forall|i: int, j: int| 0 <= i < j < l ==> lower[i] < lower[j]);
    let pt = |i: i32| points[i as int];
    if k + 2 <= l - 1 {
        // three points of the lower chain
        assert((k + 1) % m == k + 1 && (k + 2) % m == k + 2);
        assert(hull[k + 1] == lower[k + 1]) by {
            if k + 1 == l - 1 {
                assert(hull[k + 1] == upper[0]);
            }
        }
        assert(hull[k + 2] == lower[k + 2]) by {
            if k + 2 == l - 1 {
                assert(hull[k + 2] == upper[0]);
            }
        }
        assert(t(lower[k], lower[k + 1], lower[k + 2]));
    } else if k == l - 2 {
        // the turn at the last point
        let a = lower[l - 2];
        let c = upper[1];
        assert((k + 1) % m == l - 1);
        assert(hull[l - 1] == upper[0]);
        assert(hull[(k + 2) % m] == c) by {
            if u >= 3 {
                assert((k + 2) % m == l);
                assert(hull[l] == upper[1]);
            } else {
                assert((k + 2) % m == 0);
                assert(hull[0] == lower[0]);
            }
        }
        assert(lower.contains(a));
        assert(upper.contains(c));
        assert(a != c) by {
            if a == c {
                if a != 0 {
                    assert(!passed_over(lower, upper[1]));
                } else {
                    assert(l == 2) by {
                        if l > 2 {
                            assert(lower[0] < lower[l - 2]);
                        }
                    }
                    assert(u == 2) by {
                        if u > 2 {
                            assert(upper[1] > upper[u - 1]);
                        }
                    }
                }
            }
        }
        lemma_cross_symmetries(pt(a), pt((n - 1) as i32), pt(c));
        lemma_cross_symmetries(pt(c), pt(a), pt((n - 1) as i32));
        lemma_cross_symmetries(pt((n - 1) as i32), pt(c), pt(a));
        assert(upper[1] < n - 1);
        if c > a {
            assert(0 < c < n - 1);
            assert(upper_hull_vertex(t, n, c));
            assert(t((n - 1) as i32, c, a));
        } else {
            assert(0 < a) by {
                if a == 0 {
                    assert(c < 0);
                }
            }
            assert(a < n - 1);
            assert(lower_hull_vertex(t, n, a));
            assert(t(c, a, (n - 1) as i32));
        }
    } else if k <= m - 2 {
        // three points of the upper chain
        let j = k - (l - 1);
        assert(0 <= j && j + 2 <= u - 1);
        assert((k + 1) % m == k + 1);
        assert(hull[k] == upper[j] && hull[k + 1] == upper[j + 1]);
        assert(hull[(k + 2) % m] == upper[j + 2]) by {
            if k + 2 == m {
                assert((k + 2) % m == 0);
                assert(hull[0] == lower[0]);
            } else {
                assert((k + 2) % m == k + 2);
            }
        }
        assert(t(upper[j], upper[j + 1], upper[j + 2]));
    } else {
        // the turn at the first point
        assert(k == m - 1);
        let a = upper[u - 2];
        let c = lower[1];
        assert(hull[m - 1] == a);
        assert((k + 1) % m == 0);
        assert(hull[0] == lower[0]);
        assert((k + 2) % m == 1);
        assert(hull[1] == c) by {
            if l == 2 {
                assert(hull[1] == upper[0]);
            }
        }
        assert(lower.contains(c));
        assert(upper.contains(a));
        assert(a > 0) by {
            assert(upper[u - 2] > upper[u - 1]);
        }
        assert(c > 0);
        assert(a != c) by {
            if a == c {
                if c != n - 1 {
                    assert(passed_over(lower, c));
                    assert(!passed_over(lower, upper[u - 2]));
                } else {
                    assert(l == 2) by {
                        if l > 2 {
                            assert(lower[1] < lower[l - 1]);
                        }
                    }
                    assert(u == 2) by {
                        if u > 2 {
                            assert(upper[0] > upper[u - 2]);
                        }
                    }
                }
            }
        }
        lemma_cross_symmetries(pt(a), pt(0), pt(c));
        lemma_cross_symmetries(pt(0), pt(c), pt(a));
        lemma_cross_symmetries(pt(c), pt(a), pt(0));
        if c < a {
            assert(c < n - 1);
            assert(lower_hull_vertex(t, n, c));
            assert(t(0, c, a));
        } else {
            assert(a < n - 1);
            assert(upper_hull_vertex(t, n, a));
            assert(t(c, a, 0));
        }
    }
}

/// Positions around a polygon of `m >= 2` vertices.
proof fn lemma_around(m: int)
    requires
        m >= 2,
    ensures
        forall|x: int| 0 <= x < m ==> #[trigger] (x % m) == x,
        m % m == 0,
        (m + 1) % m == 1,
{
    assert forall|x: int| 0 <= x < m implies #[trigger] (x % m) == x by {
        vstd::arithmetic::div_mod::lemma_small_mod(x as nat, m as nat);
    }
    vstd::arithmetic::div_mod::lemma_mod_self_0(m);
    vstd::arithmetic::div_mod::lemma_mod_add_multiples_vanish(1, m);
}

} // verus!
