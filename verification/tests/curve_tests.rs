use bezier::curve::{
    integration_status, reduction_supported, trivial_length_status, MAX_LOCATE_SUBDIVISIONS,
};
use bezier::status::{
    STATUS_BAD_INTERIOR, STATUS_BAD_MULTIPLICITY, STATUS_EDGE_END, STATUS_INSUFFICIENT_SPACE,
    STATUS_NO_CONVERGE, STATUS_SAME_CURVATURE, STATUS_SINGULAR, STATUS_SUCCESS, STATUS_UNKNOWN,
};

#[test]
fn reduction_is_supported_for_two_to_five_nodes() {
    for n in 0..10 {
        assert_eq!(reduction_supported(n), (2..=5).contains(&n));
    }
}

#[test]
fn integration_status_values() {
    assert_eq!(integration_status(0, true), STATUS_UNKNOWN);
    assert_eq!(integration_status(-3, false), STATUS_UNKNOWN);
    assert_eq!(integration_status(50, true), STATUS_SUCCESS);
    assert_eq!(integration_status(50, false), STATUS_NO_CONVERGE);
}

#[test]
fn status_codes_are_distinct() {
    let codes = [
        STATUS_SUCCESS,
        STATUS_BAD_MULTIPLICITY,
        STATUS_NO_CONVERGE,
        STATUS_INSUFFICIENT_SPACE,
        STATUS_SAME_CURVATURE,
        STATUS_BAD_INTERIOR,
        STATUS_EDGE_END,
        STATUS_SINGULAR,
        STATUS_UNKNOWN,
    ];
    for (i, a) in codes.iter().enumerate() {
        for b in &codes[i + 1..] {
            assert_ne!(a, b);
        }
    }
    assert_eq!(STATUS_UNKNOWN, 999);
    assert_eq!(MAX_LOCATE_SUBDIVISIONS, 20);
}

#[test]
fn length_of_fewer_than_two_nodes_needs_no_quadrature() {
    assert_eq!(trivial_length_status(0), Some(STATUS_UNKNOWN));
    assert_eq!(trivial_length_status(1), Some(STATUS_SUCCESS));
    assert_eq!(trivial_length_status(2), None);
    assert_eq!(trivial_length_status(7), None);
}
