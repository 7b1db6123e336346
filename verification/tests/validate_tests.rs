use bezier::validate::{
    check_area_edges, check_curve_evaluation, check_curve_intersections, check_curve_length,
    check_triangle_evaluation, check_triangle_newton, check_triangle_subdivision, InputError,
};

#[test]
fn curve_evaluation_checks_in_order() {
    assert_eq!(check_curve_evaluation(0, 0, 5), Err(InputError::TooFewNodes));
    assert_eq!(check_curve_evaluation(3, 0, 6), Err(InputError::NonPositiveDimension));
    assert_eq!(check_curve_evaluation(3, 2, 5), Err(InputError::NodesLengthMismatch));
    assert_eq!(check_curve_evaluation(3, 2, 6), Ok(()));
    assert_eq!(check_curve_evaluation(1, 1, 1), Ok(()));
}

#[test]
fn curve_length_short_curves_are_trivial() {
    assert_eq!(check_curve_length(-1, 2, 0), Err(InputError::NegativeNodeCount));
    assert_eq!(check_curve_length(0, -4, 17), Ok(true));
    assert_eq!(check_curve_length(1, 2, 0), Ok(true));
    assert_eq!(check_curve_length(2, 0, 4), Err(InputError::NonPositiveDimension));
    assert_eq!(check_curve_length(2, 2, 3), Err(InputError::NodesLengthMismatch));
    assert_eq!(check_curve_length(2, 2, 4), Ok(false));
}

#[test]
fn triangle_evaluation_counts_triples() {
    assert_eq!(check_triangle_evaluation(3, -1, 3), Err(InputError::NegativeDegree));
    assert_eq!(check_triangle_evaluation(0, 1, 3), Err(InputError::MissingNodes));
    assert_eq!(check_triangle_evaluation(0, 0, 3), Ok(1));
    assert_eq!(check_triangle_evaluation(3, 1, 7), Err(InputError::ParamsNotTriples));
    assert_eq!(check_triangle_evaluation(3, 1, 9), Ok(3));
    assert_eq!(check_triangle_evaluation(3, 1, 0), Ok(0));
}

#[test]
fn triangle_subdivision_needs_nonnegative_degree() {
    assert_eq!(check_triangle_subdivision(-2), Err(InputError::NegativeDegree));
    assert_eq!(check_triangle_subdivision(0), Ok(()));
    assert_eq!(check_triangle_subdivision(4), Ok(()));
}

#[test]
fn area_edges_sizes() {
    assert_eq!(check_area_edges(&[]), Err(InputError::NoEdges));
    assert_eq!(check_area_edges(&[4, 6, 2]), Ok(vec![2, 3, 1]));
    assert_eq!(check_area_edges(&[4, 5, 0]), Err(InputError::BadEdgeLength { length: 5 }));
    assert_eq!(check_area_edges(&[4, 0, 3]), Err(InputError::BadEdgeLength { length: 0 }));
}

#[test]
fn curve_intersections_checks() {
    assert_eq!(check_curve_intersections(0, 0, 2, 4, 1), Err(InputError::TooFewNodesEach));
    assert_eq!(check_curve_intersections(2, 4, 0, 0, 1), Err(InputError::TooFewNodesEach));
    assert_eq!(
        check_curve_intersections(2, 5, 2, 4, 1),
        Err(InputError::FirstNodesLengthMismatch { length: 5 })
    );
    assert_eq!(
        check_curve_intersections(2, 4, 3, 4, 1),
        Err(InputError::SecondNodesLengthMismatch { length: 4 })
    );
    assert_eq!(check_curve_intersections(2, 4, 3, 6, -1), Err(InputError::NegativeCapacity));
    assert_eq!(check_curve_intersections(2, 4, 3, 6, 0), Ok(()));
}

#[test]
fn triangle_newton_checks() {
    assert_eq!(check_triangle_newton(3, 0), Err(InputError::EmptyNodes));
    assert_eq!(check_triangle_newton(3, 5), Err(InputError::PlanarNodesLengthMismatch));
    assert_eq!(check_triangle_newton(3, 6), Ok(()));
    assert_eq!(check_triangle_newton(0, 0), Ok(()));
    assert_eq!(check_triangle_newton(-2, 7), Ok(()));
}
