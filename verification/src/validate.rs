//! Checks on the arguments handed in from Python, before any numeric work.
//!
//! Each check returns the first problem found, in the order the arguments
//! are examined.

use vstd::prelude::*;

verus! {

/// What is wrong with the arguments of a request.
#[derive(Clone, Copy, PartialEq, Eq, Structural, Debug)]
pub enum InputError {
    /// A curve to evaluate needs at least one control point.
    TooFewNodes,
    /// Each curve needs at least one control point.
    TooFewNodesEach,
    /// The number of control points is negative.
    NegativeNodeCount,
    /// The dimension is zero or negative.
    NonPositiveDimension,
    /// The flat node list does not hold `num_nodes * dimension` values.
    NodesLengthMismatch,
    /// The first curve's flat node list does not hold two values per node.
    FirstNodesLengthMismatch { length: usize },
    /// The second curve's flat node list does not hold two values per node.
    SecondNodesLengthMismatch { length: usize },
    /// A planar node list does not hold two values per node.
    PlanarNodesLengthMismatch,
    /// The node list is empty although nodes were announced.
    EmptyNodes,
    /// The degree is negative.
    NegativeDegree,
    /// A triangle of positive degree was given no nodes.
    MissingNodes,
    /// The parameter list does not consist of triples.
    ParamsNotTriples,
    /// No edges were given.
    NoEdges,
    /// An edge is empty or does not hold two values per node.
    BadEdgeLength { length: usize },
    /// The room for intersections is negative.
    NegativeCapacity,
}

/// Arguments of evaluating a curve with `num_nodes` control points in
/// `dimension` dimensions, given as a flat list of `nodes_len` values.
pub fn check_curve_evaluation(num_nodes: i32, dimension: i32, nodes_len: usize) -> (result: Result<(), InputError>)
    requires
        num_nodes >= 1 && dimension >= 1 ==> num_nodes * dimension <= i32::MAX,
    ensures
        result == if num_nodes < 1 {
            Err(InputError::TooFewNodes)
        } else if dimension <= 0 {
            Err(InputError::NonPositiveDimension)
        } else if nodes_len != num_nodes * dimension {
            Err(InputError::NodesLengthMismatch)
        } else {
            Ok(())
        },
{
    if num_nodes < 1 {
        return Err(InputError::TooFewNodes);
    }
    if dimension <= 0 {
        return Err(InputError::NonPositiveDimension);
    }
    if nodes_len != (num_nodes * dimension) as usize {
        return Err(InputError::NodesLengthMismatch);
    }
    Ok(())
}

/// Arguments of computing the length of a curve. `Ok(true)` means the curve
/// has fewer than two control points, so its length is zero without looking
/// at the nodes; `Ok(false)` means the length has to be computed.
pub fn check_curve_length(num_nodes: i32, dimension: i32, nodes_len: usize) -> (result: Result<bool, InputError>)
    requires
        num_nodes >= 2 && dimension >= 1 ==> num_nodes * dimension <= i32::MAX,
    ensures
        result == if num_nodes < 0 {
            Err(InputError::NegativeNodeCount)
        } else if num_nodes <= 1 {
            Ok(true)
        } else if dimension <= 0 {
            Err(InputError::NonPositiveDimension)
        } else if nodes_len != num_nodes * dimension {
            Err(InputError::NodesLengthMismatch)
        } else {
            Ok(false)
        },
{
    if num_nodes < 0 {
        return Err(InputError::NegativeNodeCount);
    }
    if num_nodes == 0 || num_nodes == 1 {
        return Ok(true);
    }
    if dimension <= 0 {
        return Err(InputError::NonPositiveDimension);
    }
    if nodes_len != (num_nodes * dimension) as usize {
        return Err(InputError::NodesLengthMismatch);
    }
    Ok(false)
}

/// Arguments of evaluating a triangle of degree `degree` with `num_nodes`
/// control points at barycentric triples given as a flat list of
/// `params_len` values. On success, the number of triples.
pub fn check_triangle_evaluation(num_nodes: i32, degree: i32, params_len: usize) -> (result: Result<usize, InputError>)
    ensures
        result == if degree < 0 {
            Err(InputError::NegativeDegree)
        } else if num_nodes <= 0 && degree > 0 {
            Err(InputError::MissingNodes)
        } else if params_len % 3 != 0 {
            Err(InputError::ParamsNotTriples)
        } else {
            Ok((params_len / 3) as usize)
        },
{
    if degree < 0 {
        return Err(InputError::NegativeDegree);
    }
    if num_nodes <= 0 && degree > 0 {
        return Err(InputError::MissingNodes);
    }
    let num_params = params_len / 3;
    if params_len % 3 != 0 {
        return Err(InputError::ParamsNotTriples);
    }
    Ok(num_params)
}

/// Arguments of subdividing a triangle of degree `degree`.
pub fn check_triangle_subdivision(degree: i32) -> (result: Result<(), InputError>)
    ensures
        result == if degree < 0 {
            Err(InputError::NegativeDegree)
        } else {
            Ok(())
        },
{
    if degree < 0 {
        return Err(InputError::NegativeDegree);
    }
    Ok(())
}

/// Arguments of computing the area enclosed by planar edges given as flat
/// lists of `edge_lengths[k]` values. On success, the number of nodes of
/// each edge; the first empty or odd-length edge is reported otherwise.
pub fn check_area_edges(edge_lengths: &[usize]) -> (result: Result<Vec<i32>, InputError>)
    ensures
        edge_lengths.len() == 0 ==> result == Err::<Vec<i32>, InputError>(InputError::NoEdges),
        edge_lengths.len() > 0 ==> match result {
            Ok(sizes) => {
                &&& forall|k: int|
                    0 <= k < edge_lengths.len() ==> #[trigger] edge_lengths[k] > 0 && edge_lengths[k]
                        % 2 == 0
                &&& sizes.len() == edge_lengths.len()
                &&& forall|k: int|
                    0 <= k < sizes.len() ==> #[trigger] sizes[k] == (edge_lengths[k] / 2) as i32
            },
            Err(e) => exists|k: int|
                0 <= k < edge_lengths.len() && e == InputError::BadEdgeLength { length: edge_lengths[k] }
                    && (edge_lengths[k] == 0 || edge_lengths[k] % 2 != 0) && forall|m: int|
                    0 <= m < k ==> #[trigger] edge_lengths[m] > 0 && edge_lengths[m] % 2 == 0,
        },
{
    if edge_lengths.len() == 0 {
        return Err(InputError::NoEdges);
    }
    let mut sizes: Vec<i32> = Vec::new();
    let mut k: usize = 0;
    while k < edge_lengths.len()
        invariant
            0 <= k <= edge_lengths.len(),
            sizes.len() == k,
            forall|m: int| 0 <= m < k ==> #[trigger] edge_lengths[m] > 0 && edge_lengths[m] % 2 == 0,
            forall|m: int| 0 <= m < k ==> #[trigger] sizes[m] == (edge_lengths[m] / 2) as i32,
        decreases edge_lengths.len() - k,
    {
        let length = edge_lengths[k];
        if length == 0 || length % 2 != 0 {
            return Err(InputError::BadEdgeLength { length });
        }
        sizes.push((length / 2) as i32);
        k = k + 1;
    }
    Ok(sizes)
}

/// Arguments of intersecting two planar curves with `num_nodes1` and
/// `num_nodes2` control points, given as flat lists of `len1` and `len2`
/// values, with room for `capacity` intersections.
pub fn check_curve_intersections(
    num_nodes1: i32,
    len1: usize,
    num_nodes2: i32,
    len2: usize,
    capacity: i32,
) -> (result: Result<(), InputError>)
    requires
        num_nodes1 >= 1 && num_nodes2 >= 1 ==> num_nodes1 * 2 <= i32::MAX,
        num_nodes1 >= 1 && num_nodes2 >= 1 && len1 == num_nodes1 * 2 ==> num_nodes2 * 2 <= i32::MAX,
    ensures
        result == if num_nodes1 < 1 || num_nodes2 < 1 {
            Err(InputError::TooFewNodesEach)
        } else if len1 != num_nodes1 * 2 {
            Err(InputError::FirstNodesLengthMismatch { length: len1 })
        } else if len2 != num_nodes2 * 2 {
            Err(InputError::SecondNodesLengthMismatch { length: len2 })
        } else if capacity < 0 {
            Err(InputError::NegativeCapacity)
        } else {
            Ok(())
        },
{
    if num_nodes1 < 1 || num_nodes2 < 1 {
        return Err(InputError::TooFewNodesEach);
    }
    if len1 != (num_nodes1 * 2) as usize {
        return Err(InputError::FirstNodesLengthMismatch { length: len1 });
    }
    if len2 != (num_nodes2 * 2) as usize {
        return Err(InputError::SecondNodesLengthMismatch { length: len2 });
    }
    if capacity < 0 {
        return Err(InputError::NegativeCapacity);
    }
    Ok(())
}

/// Arguments of a Newton step towards a point on a planar triangle with
/// `num_nodes` control points given as a flat list of `nodes_len` values.
pub fn check_triangle_newton(num_nodes: i32, nodes_len: usize) -> (result: Result<(), InputError>)
    requires
        num_nodes > 0 && nodes_len != 0 ==> num_nodes * 2 <= i32::MAX,
    ensures
        result == if num_nodes > 0 && nodes_len == 0 {
            Err(InputError::EmptyNodes)
        } else if num_nodes > 0 && nodes_len != num_nodes * 2 {
            Err(InputError::PlanarNodesLengthMismatch)
        } else {
            Ok(())
        },
{
    if num_nodes > 0 && nodes_len == 0 {
        return Err(InputError::EmptyNodes);
    }
    if num_nodes > 0 && nodes_len != (num_nodes * 2) as usize {
        return Err(InputError::PlanarNodesLengthMismatch);
    }
    Ok(())
}

} // verus!
