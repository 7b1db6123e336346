//! Node layout of Bézier triangles.
//!
//! The control points of a triangle of degree `d` are stored row by row:
//! row `r` (for `r` from `0` to `d`) holds `d + 1 - r` points, and the point
//! at position `j` of row `r` has index `node_index(d, r, j)`.

use vstd::prelude::*;

verus! {

/// Classification of a triangle-triangle intersection point: not yet set.
pub const INTERSECTION_CLASSIFICATION_UNSET: i32 = -99;

/// The boundary of the first triangle is the interior one at the point.
pub const INTERSECTION_CLASSIFICATION_FIRST: i32 = 0;

/// The boundary of the second triangle is the interior one at the point.
pub const INTERSECTION_CLASSIFICATION_SECOND: i32 = 1;

/// The edges meet with opposed orientations.
pub const INTERSECTION_CLASSIFICATION_OPPOSED: i32 = 2;

/// Tangent intersection, with the first triangle's edge inside.
pub const INTERSECTION_CLASSIFICATION_TANGENT_FIRST: i32 = 3;

/// Tangent intersection, with the second triangle's edge inside.
pub const INTERSECTION_CLASSIFICATION_TANGENT_SECOND: i32 = 4;

/// A corner point that does not take part in the intersection.
pub const INTERSECTION_CLASSIFICATION_IGNORED_CORNER: i32 = 5;

/// Tangent intersection with neither edge inside.
pub const INTERSECTION_CLASSIFICATION_TANGENT_BOTH: i32 = 6;

/// The edges coincide at the point.
pub const INTERSECTION_CLASSIFICATION_COINCIDENT: i32 = 7;

/// The edges coincide, but the point is not used.
pub const INTERSECTION_CLASSIFICATION_COINCIDENT_UNUSED: i32 = 8;

/// Neither triangle contains the other.
pub const TRIANGLE_CONTAINED_NEITHER: i32 = 0;

/// The first triangle is contained in the second.
pub const TRIANGLE_CONTAINED_FIRST: i32 = 1;

/// The second triangle is contained in the first.
pub const TRIANGLE_CONTAINED_SECOND: i32 = 2;

/// Number of subdivision rounds when locating a point on a triangle.
pub const MAX_LOCATE_SUBDIVISIONS_TRIANGLE: i32 = 20;

/// Largest number of edges of a curved polygon.
pub const MAX_EDGES: i32 = 10;

/// Index of the first point of row `row` in a triangle of degree `degree`.
pub open spec fn row_start(degree: int, row: int) -> int
    decreases row,
{
    if row <= 0 {
        0
    } else {
        row_start(degree, row - 1) + (degree + 2 - row)
    }
}

/// Index of the point at position `pos` of row `row`.
pub open spec fn node_index(degree: int, row: int, pos: int) -> int {
    row_start(degree, row) + pos
}

/// Number of control points of a triangle of degree `degree`
/// (zero for degree `-1`).
pub open spec fn triangle_node_count(degree: int) -> int {
    row_start(degree, degree + 1)
}

/// Rows start further along as the row number grows, as long as rows are
/// non-empty.
pub proof fn lemma_row_start_monotone(degree: int, r1: int, r2: int)
    requires
        0 <= r1 <= r2 <= degree + 1,
    ensures
        row_start(degree, r1) <= row_start(degree, r2),
        r1 < r2 ==> row_start(degree, r1) + (degree + 1 - r1) <= row_start(degree, r2),
    decreases r2 - r1,
{
    if r1 < r2 {
        lemma_row_start_monotone(degree, r1, r2 - 1);
        assert(row_start(degree, r2) == row_start(degree, r2 - 1) + (degree + 2 - r2));
    }
}

/// Closed form of the row starts.
pub proof fn lemma_row_start_closed_form(degree: int, row: int)
    requires
        0 <= row,
    ensures
        2 * row_start(degree, row) == 2 * row * (degree + 1) - row * (row - 1),
    decreases row,
{
    if row > 0 {
        lemma_row_start_closed_form(degree, row - 1);
        let prev = row_start(degree, row - 1);
        assert(row_start(degree, row) == prev + (degree + 2 - row));
        assert(2 * (prev + (degree + 2 - row)) == 2 * row * (degree + 1) - row * (row - 1))
            by (nonlinear_arith)
            requires
                2 * prev == 2 * (row - 1) * (degree + 1) - (row - 1) * (row - 1 - 1),
        ;
    } else {
        assert(2 * row * (degree + 1) - row * (row - 1) == 0) by (nonlinear_arith)
            requires
                row == 0,
        ;
    }
}

/// A triangle of degree `d` has `(d + 1)(d + 2) / 2` control points.
pub proof fn lemma_triangle_node_count(degree: int)
    requires
        degree >= -1,
    ensures
        2 * triangle_node_count(degree) == (degree + 1) * (degree + 2),
{
    lemma_row_start_closed_form(degree, degree + 1);
    assert(2 * (degree + 1) * (degree + 1) - (degree + 1) * degree == (degree + 1) * (degree + 2))
        by (nonlinear_arith);
}

/// Number of control points of a triangle of degree `degree`.
pub fn triangle_num_nodes(degree: usize) -> (count: usize)
    requires
        (degree + 1) * (degree + 2) <= usize::MAX,
    ensures
        count == triangle_node_count(degree as int),
        2 * count == (degree + 1) * (degree + 2),
{
    proof {
        lemma_triangle_node_count(degree as int);
        assert((degree + 1) * (degree + 2) >= degree + 2) by (nonlinear_arith);
    }
    let product = (degree + 1) * (degree + 2);
    product / 2
}

/// Closed forms of the index of the point at position `j` of row `r`, in a
/// triangle of degree `degree` and in one of degree `degree - 1`; the point
/// at the same position one row up is `degree + 1 - r` places further on.
pub proof fn lemma_node_index_closed(degree: int, r: int, j: int)
    requires
        0 <= r,
    ensures
        2 * node_index(degree - 1, r, j) == 2 * r * degree - r * (r - 1) + 2 * j,
        2 * node_index(degree, r, j) == 2 * r * (degree + 1) - r * (r - 1) + 2 * j,
        node_index(degree, r + 1, j) == node_index(degree, r, j) + (degree + 1 - r),
{
    lemma_row_start_closed_form(degree - 1, r);
    lemma_row_start_closed_form(degree, r);
}

/// Index of the first control point of row `row` (row `degree` is the apex)
/// in a triangle of degree `degree`; row `row` holds the next
/// `degree + 1 - row` points.
pub fn row_start_index(degree: usize, row: usize) -> (start: usize)
    requires
        row <= degree,
        (degree + 1) * (degree + 2) <= usize::MAX,
    ensures
        start == row_start(degree as int, row as int),
        start + (degree + 1 - row) <= triangle_node_count(degree as int),
        2 * start == 2 * row * (degree + 1) - row * (row - 1),
{
    proof {
        lemma_row_start_closed_form(degree as int, row as int);
        lemma_triangle_node_count(degree as int);
        lemma_row_start_monotone(degree as int, row as int, degree as int + 1);
        assert((degree + 1) * (degree + 2) >= degree + 2) by (nonlinear_arith);
    }
    let mut start: usize = 0;
    let mut r: usize = 0;
    while r < row
        invariant
            r <= row <= degree,
            degree + 2 <= (degree + 1) * (degree + 2) <= usize::MAX,
            2 * triangle_node_count(degree as int) == (degree + 1) * (degree + 2),
            start == row_start(degree as int, r as int),
        decreases row - r,
    {
        proof {
            lemma_row_start_monotone(degree as int, r as int + 1, degree as int + 1);
        }
        start = start + (degree + 1 - r);
        r = r + 1;
    }
    start
}

/// For every control point of the degree-`degree - 1` triangle produced by a
/// round of de Casteljau's algorithm (and for every control point of the
/// two-sided derivative), the three neighbouring points of the degree-`degree`
/// triangle it is formed from: the point in the same row and position, the
/// next point in that row, and the point at the same position one row up.
///
/// Entry `node_index(degree - 1, r, j)` of the result is that triple for the
/// point at position `j` of row `r`.
pub fn neighbor_triples(degree: usize) -> (triples: Vec<(usize, usize, usize)>)
    requires
        (degree + 1) * (degree + 2) <= usize::MAX,
    ensures
        triples.len() == triangle_node_count(degree - 1),
        forall|r: int, j: int|
            0 <= r < degree && 0 <= j < degree - r ==> #[trigger] triples@[node_index(degree - 1, r, j)] == (
                node_index(degree as int, r, j) as usize,
                (node_index(degree as int, r, j) + 1) as usize,
                node_index(degree as int, r + 1, j) as usize,
            ),
        forall|w: int|
            0 <= w < triples.len() ==> {
                &&& (#[trigger] triples@[w]).0 < triangle_node_count(degree as int)
                &&& triples@[w].1 < triangle_node_count(degree as int)
                &&& triples@[w].2 < triangle_node_count(degree as int)
            },
        2 * triples.len() == degree * (degree + 1),
        forall|r: int, j: int|
            0 <= r < degree && 0 <= j < degree - r ==> {
                let w = node_index(degree - 1, r, j);
                &&& 2 * (#[trigger] triples@[node_index(degree - 1, r, j)]).0 == 2 * r * (degree + 1) - r * (r - 1)
                    + 2 * j
                &&& triples@[w].1 == triples@[w].0 + 1
                &&& triples@[w].2 == triples@[w].0 + (degree + 1 - r)
            },
{
    let ghost d = degree as int;
    proof {
        lemma_triangle_node_count(d);
        assert((degree + 1) * (degree + 2) >= degree + 2) by (nonlinear_arith);
        assert(row_start(d, 0) == 0 && row_start(d - 1, 0) == 0);
        assert(row_start(d, 1) == d + 1);
    }
    let mut triples: Vec<(usize, usize, usize)> = Vec::new();
    let mut p1: usize = 0;
    let mut p3: usize = degree + 1;
    let mut k: usize = 0;
    while k < degree
        invariant
            d == degree,
            2 * triangle_node_count(d) == (d + 1) * (d + 2),
            (degree + 1) * (degree + 2) <= usize::MAX,
            0 <= k <= degree,
            triples.len() == row_start(d - 1, k as int),
            p1 == row_start(d, k as int),
            p3 == row_start(d, k as int + 1),
            forall|r: int, j: int|
                0 <= r < k && 0 <= j < d - r ==> #[trigger] triples@[node_index(d - 1, r, j)] == (
                    node_index(d, r, j) as usize,
                    (node_index(d, r, j) + 1) as usize,
                    node_index(d, r + 1, j) as usize,
                ),
            forall|w: int|
                0 <= w < triples.len() ==> {
                    &&& (#[trigger] triples@[w]).0 < triangle_node_count(d)
                    &&& triples@[w].1 < triangle_node_count(d)
                    &&& triples@[w].2 < triangle_node_count(d)
                },
        decreases degree - k,
    {
        proof {
            lemma_row_start_monotone(d, k as int + 1, d + 1);
            lemma_row_start_monotone(d, k as int + 2, d + 1);
            assert(row_start(d, k as int + 2) == row_start(d, k as int + 1) + (d - k));
        }
        let mut j: usize = 0;
        while j < degree - k
            invariant
                d == degree,
                2 * triangle_node_count(d) == (d + 1) * (d + 2),
                0 <= k < degree,
                0 <= j <= degree - k,
                row_start(d, k as int + 2) <= triangle_node_count(d),
                row_start(d, k as int + 2) == row_start(d, k as int + 1) + (d - k),
                triangle_node_count(d) <= usize::MAX,
                triples.len() == row_start(d - 1, k as int) + j,
                p1 == row_start(d, k as int) + j,
                p3 == row_start(d, k as int + 1) + j,
                forall|r: int, jj: int|
                    0 <= r < k && 0 <= jj < d - r ==> #[trigger] triples@[node_index(d - 1, r, jj)] == (
                        node_index(d, r, jj) as usize,
                        (node_index(d, r, jj) + 1) as usize,
                        node_index(d, r + 1, jj) as usize,
                    ),
                forall|jj: int|
                    0 <= jj < j ==> #[trigger] triples@[node_index(d - 1, k as int, jj)] == (
                        node_index(d, k as int, jj) as usize,
                        (node_index(d, k as int, jj) + 1) as usize,
                        node_index(d, k as int + 1, jj) as usize,
                    ),
                forall|w: int|
                    0 <= w < triples.len() ==> {
                        &&& (#[trigger] triples@[w]).0 < triangle_node_count(d)
                        &&& triples@[w].1 < triangle_node_count(d)
                        &&& triples@[w].2 < triangle_node_count(d)
                    },
            decreases degree - k - j,
        {
            let ghost before = triples@;
            triples.push((p1, p1 + 1, p3));
            proof {
                assert(triples@ == before.push((p1, (p1 + 1) as usize, p3)));
                assert forall|r: int, jj: int|
                    0 <= r < k && 0 <= jj < d - r implies #[trigger] triples@[node_index(d - 1, r, jj)]
                        == (
                        node_index(d, r, jj) as usize,
                        (node_index(d, r, jj) + 1) as usize,
                        node_index(d, r + 1, jj) as usize,
                    ) by {
                    lemma_row_start_monotone(d - 1, r + 1, k as int);
                    assert(row_start(d - 1, r + 1) == row_start(d - 1, r) + (d - 1 + 2 - (r + 1)));
                    let idx = node_index(d - 1, r, jj);
                    assert(0 <= row_start(d - 1, r)) by {
                        lemma_row_start_monotone(d - 1, 0, r);
                    }
                    assert(0 <= idx < before.len());
                    assert(triples@[idx] == before[idx]);
                }
                assert forall|jj: int|
                    0 <= jj < j + 1 implies #[trigger] triples@[node_index(d - 1, k as int, jj)] == (
                        node_index(d, k as int, jj) as usize,
                        (node_index(d, k as int, jj) + 1) as usize,
                        node_index(d, k as int + 1, jj) as usize,
                    ) by {
                    let idx = node_index(d - 1, k as int, jj);
                    assert(0 <= row_start(d - 1, k as int)) by {
                        lemma_row_start_monotone(d - 1, 0, k as int);
                    }
                    if jj < j {
                        assert(0 <= idx < before.len());
                        assert(triples@[idx] == before[idx]);
                    }
                }
            }
            p1 = p1 + 1;
            p3 = p3 + 1;
            j = j + 1;
        }
        proof {
            assert(row_start(d - 1, k as int + 1) == row_start(d - 1, k as int) + (d - 1 + 2 - (k + 1)));
            assert(row_start(d, k as int + 1) == row_start(d, k as int) + (d + 2 - (k + 1)));
        }
        p1 = p1 + 1;
        k = k + 1;
    }
    proof {
        if d == 0 {
            assert(triangle_node_count(d - 1) == 0);
        } else {
            assert(triangle_node_count(d - 1) == row_start(d - 1, d));
        }
        assert forall|r: int, j: int| 0 <= r < degree && 0 <= j < degree - r implies {
            let w = node_index(degree - 1, r, j);
            &&& 2 * (#[trigger] triples@[node_index(degree - 1, r, j)]).0 == 2 * r * (degree + 1) - r * (r - 1)
                + 2 * j
            &&& triples@[w].1 == triples@[w].0 + 1
            &&& triples@[w].2 == triples@[w].0 + (degree + 1 - r)
        } by {
            lemma_node_index_closed(d, r, j);
            lemma_row_start_monotone(d, 0, r);
            lemma_row_start_monotone(d, r, d + 1);
            lemma_row_start_monotone(d, r + 1, d + 1);
            assert(triples@[node_index(d - 1, r, j)] == (
                node_index(d, r, j) as usize,
                (node_index(d, r, j) + 1) as usize,
                node_index(d, r + 1, j) as usize,
            ));
        }
        lemma_triangle_node_count(d - 1);
    }
    triples
}

} // verus!
