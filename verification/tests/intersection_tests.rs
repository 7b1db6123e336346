use bezier::intersection::{
    candidate_action, candidate_pieces, finish_intersections, record_newton_step, round_outcome,
    subdivision_choice, too_many_candidates_status, CandidateAction, Piece, RoundOutcome,
    BOX_INTERSECTION_TYPE_DISJOINT, BOX_INTERSECTION_TYPE_INTERSECTION,
    BOX_INTERSECTION_TYPE_TANGENT, MAX_CANDIDATES, SUBDIVIDE_BOTH, SUBDIVIDE_FIRST,
    SUBDIVIDE_NEITHER, SUBDIVIDE_SECOND,
};
use bezier::status::{
    STATUS_BAD_MULTIPLICITY, STATUS_INSUFFICIENT_SPACE, STATUS_NO_CONVERGE, STATUS_SINGULAR,
    STATUS_SUCCESS,
};

#[test]
fn subdivision_splits_the_curved_ones() {
    assert_eq!(subdivision_choice(true, true), SUBDIVIDE_NEITHER);
    assert_eq!(subdivision_choice(true, false), SUBDIVIDE_SECOND);
    assert_eq!(subdivision_choice(false, true), SUBDIVIDE_FIRST);
    assert_eq!(subdivision_choice(false, false), SUBDIVIDE_BOTH);
}

#[test]
fn disjoint_boxes_are_discarded() {
    for sub in [SUBDIVIDE_NEITHER, SUBDIVIDE_FIRST, SUBDIVIDE_SECOND, SUBDIVIDE_BOTH] {
        assert_eq!(candidate_action(sub, BOX_INTERSECTION_TYPE_DISJOINT), CandidateAction::Discard);
    }
}

#[test]
fn touching_boxes_check_endpoints_unless_linear() {
    assert_eq!(
        candidate_action(SUBDIVIDE_BOTH, BOX_INTERSECTION_TYPE_TANGENT),
        CandidateAction::CheckEndpoints
    );
    assert_eq!(
        candidate_action(SUBDIVIDE_FIRST, BOX_INTERSECTION_TYPE_TANGENT),
        CandidateAction::CheckEndpoints
    );
    assert_eq!(
        candidate_action(SUBDIVIDE_NEITHER, BOX_INTERSECTION_TYPE_TANGENT),
        CandidateAction::RefineLinearized
    );
}

#[test]
fn overlapping_boxes_refine_or_subdivide() {
    assert_eq!(
        candidate_action(SUBDIVIDE_NEITHER, BOX_INTERSECTION_TYPE_INTERSECTION),
        CandidateAction::RefineLinearized
    );
    assert_eq!(
        candidate_action(SUBDIVIDE_SECOND, BOX_INTERSECTION_TYPE_INTERSECTION),
        CandidateAction::Subdivide
    );
}

#[test]
fn pieces_of_each_subdivision() {
    assert_eq!(
        candidate_pieces(SUBDIVIDE_FIRST),
        vec![(Piece::Left, Piece::Whole), (Piece::Right, Piece::Whole)]
    );
    assert_eq!(
        candidate_pieces(SUBDIVIDE_SECOND),
        vec![(Piece::Whole, Piece::Left), (Piece::Whole, Piece::Right)]
    );
    assert_eq!(
        candidate_pieces(SUBDIVIDE_BOTH),
        vec![
            (Piece::Left, Piece::Left),
            (Piece::Left, Piece::Right),
            (Piece::Right, Piece::Left),
            (Piece::Right, Piece::Right)
        ]
    );
    assert!(candidate_pieces(SUBDIVIDE_NEITHER).is_empty());
}

#[test]
fn round_outcomes() {
    let max = MAX_CANDIDATES as usize;
    assert_eq!(round_outcome(0, false), RoundOutcome::Finished);
    assert_eq!(round_outcome(0, true), RoundOutcome::Finished);
    assert_eq!(round_outcome(4, false), RoundOutcome::Continue);
    assert_eq!(round_outcome(max, false), RoundOutcome::Continue);
    assert_eq!(round_outcome(max + 1, false), RoundOutcome::Prune);
    assert_eq!(round_outcome(max + 1, true), RoundOutcome::CheckCoincident);
}

#[test]
fn status_after_too_many_candidates() {
    assert_eq!(too_many_candidates_status(true, 80), STATUS_SUCCESS);
    assert_eq!(too_many_candidates_status(false, 80), 80);
}

#[test]
fn finish_copies_when_room() {
    assert_eq!(finish_intersections(STATUS_SUCCESS, false, 2, 4), (STATUS_SUCCESS, true));
    assert_eq!(finish_intersections(STATUS_SUCCESS, false, 4, 4), (STATUS_SUCCESS, true));
    assert_eq!(finish_intersections(STATUS_SUCCESS, false, 0, 4), (STATUS_SUCCESS, false));
}

#[test]
fn finish_reports_insufficient_space() {
    assert_eq!(finish_intersections(STATUS_SUCCESS, false, 5, 4), (STATUS_INSUFFICIENT_SPACE, false));
    assert_eq!(finish_intersections(STATUS_SUCCESS, true, 1, 0), (STATUS_INSUFFICIENT_SPACE, false));
}

#[test]
fn finish_keeps_failures() {
    assert_eq!(finish_intersections(STATUS_NO_CONVERGE, false, 3, 4), (STATUS_NO_CONVERGE, false));
    assert_eq!(finish_intersections(STATUS_BAD_MULTIPLICITY, true, 3, 4), (STATUS_BAD_MULTIPLICITY, false));
    assert_eq!(finish_intersections(80, false, 3, 4), (80, false));
}

#[test]
fn finish_tolerates_coincident_candidate_counts() {
    assert_eq!(finish_intersections(80, true, 2, 4), (STATUS_SUCCESS, true));
    assert_eq!(finish_intersections(80, true, 0, 4), (80, false));
    assert_eq!(finish_intersections(80, true, 5, 4), (STATUS_INSUFFICIENT_SPACE, false));
    assert_ne!(STATUS_SINGULAR, STATUS_SUCCESS);
}

#[test]
fn newton_counts_slow_steps_after_the_first() {
    assert_eq!(record_newton_step(1, 0, true), (0, false));
    assert_eq!(record_newton_step(2, 0, true), (1, false));
    assert_eq!(record_newton_step(3, 1, false), (1, false));
}

#[test]
fn newton_gives_up_on_linear_convergence() {
    // Steps two to five all slow: four of five steps, at least two thirds.
    assert_eq!(record_newton_step(5, 3, true), (4, true));
    // Only three of five slow: not yet two thirds.
    assert_eq!(record_newton_step(5, 2, true), (3, false));
    // Never before the fifth step.
    assert_eq!(record_newton_step(4, 2, true), (3, false));
    assert_eq!(record_newton_step(6, 3, true), (4, true));
}

use bezier::intersection::{
    first_coincidence_step, second_coincidence_step, FirstCoincidenceStep, Located, Param,
    SecondCoincidenceStep,
};

#[test]
fn first_coincidence_steps() {
    assert_eq!(first_coincidence_step(Located::Invalid, Located::Found), FirstCoincidenceStep::NotCoincident);
    assert_eq!(first_coincidence_step(Located::Found, Located::Invalid), FirstCoincidenceStep::NotCoincident);
    assert_eq!(first_coincidence_step(Located::Found, Located::Found), FirstCoincidenceStep::CompareFirstRestricted);
    assert_eq!(first_coincidence_step(Located::Miss, Located::Found), FirstCoincidenceStep::LocateFirstOnSecond);
    assert_eq!(first_coincidence_step(Located::Miss, Located::Miss), FirstCoincidenceStep::LocateFirstOnSecond);
}

#[test]
fn second_coincidence_steps_without_overlap() {
    assert_eq!(second_coincidence_step(Located::Miss, Located::Found, Located::Invalid, Located::Found), SecondCoincidenceStep::NotCoincident);
    assert_eq!(second_coincidence_step(Located::Miss, Located::Found, Located::Miss, Located::Miss), SecondCoincidenceStep::NotCoincident);
    assert_eq!(second_coincidence_step(Located::Miss, Located::Miss, Located::Found, Located::Found), SecondCoincidenceStep::CompareSecondRestricted);
    assert_eq!(second_coincidence_step(Located::Miss, Located::Miss, Located::Found, Located::Miss), SecondCoincidenceStep::NotCoincident);
}

#[test]
fn second_coincidence_step_overlaps() {
    // The second curve's end lies on the first; the first curve's end lies on
    // the second: overlap from the located parameters to the ends.
    assert_eq!(
        second_coincidence_step(Located::Miss, Located::Found, Located::Miss, Located::Found),
        SecondCoincidenceStep::CompareBothRestricted {
            s_start: Param::SFinal,
            s_end: Param::One,
            t_start: Param::One,
            t_end: Param::TFinal,
        }
    );
    assert_eq!(
        second_coincidence_step(Located::Miss, Located::Found, Located::Found, Located::Miss),
        SecondCoincidenceStep::CompareBothRestricted {
            s_start: Param::SFinal,
            s_end: Param::One,
            t_start: Param::TInitial,
            t_end: Param::One,
        }
    );
    assert_eq!(
        second_coincidence_step(Located::Found, Located::Miss, Located::Miss, Located::Found),
        SecondCoincidenceStep::CompareBothRestricted {
            s_start: Param::Zero,
            s_end: Param::SInitial,
            t_start: Param::Zero,
            t_end: Param::TFinal,
        }
    );
    assert_eq!(
        second_coincidence_step(Located::Found, Located::Miss, Located::Found, Located::Miss),
        SecondCoincidenceStep::CompareBothRestricted {
            s_start: Param::Zero,
            s_end: Param::SInitial,
            t_start: Param::TInitial,
            t_end: Param::Zero,
        }
    );
}

#[test]
fn split_keeps_linear_curves_whole() {
    for &(a, b, expected) in &[(true, true, 0usize), (true, false, 2), (false, true, 2), (false, false, 4)] {
        let pieces = candidate_pieces(subdivision_choice(a, b));
        assert_eq!(pieces.len(), expected);
        for &(p, q) in &pieces {
            assert_eq!(p == Piece::Whole, a);
            assert_eq!(q == Piece::Whole, b);
        }
        for i in 0..pieces.len() {
            for j in (i + 1)..pieces.len() {
                assert_ne!(pieces[i], pieces[j]);
            }
        }
    }
    assert_eq!(
        candidate_action(subdivision_choice(true, true), BOX_INTERSECTION_TYPE_TANGENT),
        CandidateAction::RefineLinearized
    );
    assert_eq!(
        candidate_action(subdivision_choice(true, false), BOX_INTERSECTION_TYPE_INTERSECTION),
        CandidateAction::Subdivide
    );
}
