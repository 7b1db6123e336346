//! Decision logic of the curve routines.

use vstd::prelude::*;
use crate::status::{STATUS_NO_CONVERGE, STATUS_SUCCESS, STATUS_UNKNOWN};

verus! {

/// Number of halving rounds when locating a point on a curve.
pub const MAX_LOCATE_SUBDIVISIONS: i32 = 20;

/// Number of subintervals the arc-length quadrature is allowed.
pub const LENGTH_QUADRATURE_LIMIT: i32 = 50;

/// Degree reduction (and the test whether a curve is degree-elevated) is
/// available for curves with two to five control points.
pub fn reduction_supported(num_nodes: usize) -> (supported: bool)
    ensures
        supported == (2 <= num_nodes <= 5),
{
    2 <= num_nodes && num_nodes <= 5
}

/// Status of an arc-length request that needs no quadrature: a curve with no
/// control point has no length to speak of (unknown status), one with a
/// single control point is a point of length zero (success). For two or more
/// control points the length has to be computed (`None`).
pub fn trivial_length_status(num_nodes: usize) -> (status: Option<i32>)
    ensures
        status == if num_nodes == 0 {
            Some(STATUS_UNKNOWN)
        } else if num_nodes == 1 {
            Some(STATUS_SUCCESS)
        } else {
            None::<i32>
        },
{
    if num_nodes == 0 {
        Some(STATUS_UNKNOWN)
    } else if num_nodes == 1 {
        Some(STATUS_SUCCESS)
    } else {
        None
    }
}

/// Status of a quadrature request with subinterval limit `limit` whose error
/// estimate did (`tolerance_met`) or did not meet the requested tolerance: a
/// limit below one is an invalid request.
pub fn integration_status(limit: i32, tolerance_met: bool) -> (status: i32)
    ensures
        status == if limit <= 0 {
            STATUS_UNKNOWN
        } else if tolerance_met {
            STATUS_SUCCESS
        } else {
            STATUS_NO_CONVERGE
        },
{
    if limit <= 0 {
        STATUS_UNKNOWN
    } else if tolerance_met {
        STATUS_SUCCESS
    } else {
        STATUS_NO_CONVERGE
    }
}

} // verus!
