//! Status codes reported by the numeric routines.

use vstd::prelude::*;

verus! {

/// The procedure finished without error.
pub const STATUS_SUCCESS: i32 = 0;

/// An iterative method stopped because the observed rate of convergence
/// points at a root of multiplicity three or more.
pub const STATUS_BAD_MULTIPLICITY: i32 = 1;

/// An iterative method did not converge within its iteration budget.
pub const STATUS_NO_CONVERGE: i32 = 2;

/// The caller did not provide enough room for the output values.
pub const STATUS_INSUFFICIENT_SPACE: i32 = 3;

/// Two curves have the same curvature at a tangent intersection, so the
/// intersection cannot be classified.
pub const STATUS_SAME_CURVATURE: i32 = 4;

/// The corners and edge-edge intersections of two triangles could not be
/// assembled into curved polygons.
pub const STATUS_BAD_INTERIOR: i32 = 5;

/// A triangle-triangle intersection point lies at the end of an edge.
pub const STATUS_EDGE_END: i32 = 6;

/// A linear system that had to be solved was singular.
pub const STATUS_SINGULAR: i32 = 7;

/// A block of code reached a state that should be impossible.
pub const STATUS_UNKNOWN: i32 = 999;

/// Every status code, in order of its value.
pub open spec fn status_codes() -> Seq<i32> {
    seq![
        STATUS_SUCCESS,
        STATUS_BAD_MULTIPLICITY,
        STATUS_NO_CONVERGE,
        STATUS_INSUFFICIENT_SPACE,
        STATUS_SAME_CURVATURE,
        STATUS_BAD_INTERIOR,
        STATUS_EDGE_END,
        STATUS_SINGULAR,
        STATUS_UNKNOWN,
    ]
}

/// The codes name pairwise different outcomes, so a caller can tell every
/// outcome apart from every other one by its code alone: any two codes at
/// different places of the list differ.
pub proof fn status_codes_distinct()
    ensures
        status_codes().len() == 9,
        forall|i: int, j: int|
            0 <= i < status_codes().len() && 0 <= j < status_codes().len() && i != j ==> status_codes()[i]
                != status_codes()[j],
{
    let codes = status_codes();
    assert forall|i: int, j: int| 0 <= i < codes.len() && 0 <= j < codes.len() && i != j implies codes[i]
        != codes[j] by {
        assert(forall|k: int| 0 <= k < 8 ==> codes[k] == k);
        assert(codes[8] == 999);
    }
}

} // verus!
