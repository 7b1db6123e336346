//! Decision logic of curve-curve intersection by subdivision.
//!
//! Each round looks at every candidate pair of sub-curves, decides from
//! numeric tests (how close each curve is to a line, how their bounding boxes
//! meet) what to do with it, and collects the next round's candidates.

use vstd::prelude::*;
use crate::status::{STATUS_INSUFFICIENT_SPACE, STATUS_SUCCESS};

verus! {

/// The bounding boxes overlap in an open region.
pub const BOX_INTERSECTION_TYPE_INTERSECTION: i32 = 0;

/// The bounding boxes only touch.
pub const BOX_INTERSECTION_TYPE_TANGENT: i32 = 1;

/// The bounding boxes are apart.
pub const BOX_INTERSECTION_TYPE_DISJOINT: i32 = 2;

/// Split the first curve of the pair.
pub const SUBDIVIDE_FIRST: i32 = 0;

/// Split the second curve of the pair.
pub const SUBDIVIDE_SECOND: i32 = 1;

/// Split both curves of the pair.
pub const SUBDIVIDE_BOTH: i32 = 2;

/// Split neither curve: both are close enough to lines.
pub const SUBDIVIDE_NEITHER: i32 = -1;

/// Number of subdivision rounds before giving up.
pub const MAX_INTERSECT_SUBDIVISIONS: i32 = 20;

/// Largest number of candidate pairs a round may hand on.
pub const MAX_CANDIDATES: i32 = 64;

/// Largest number of Newton steps in one refinement.
pub const MAX_NEWTON_ITERATIONS: i32 = 10;

/// The subdivision choice for a pair whose curves are, or are not, already
/// close enough to lines: a curve is split exactly when it is not.
pub open spec fn choice_for(first_is_linear: bool, second_is_linear: bool) -> i32 {
    if first_is_linear && second_is_linear {
        SUBDIVIDE_NEITHER
    } else if first_is_linear {
        SUBDIVIDE_SECOND
    } else if second_is_linear {
        SUBDIVIDE_FIRST
    } else {
        SUBDIVIDE_BOTH
    }
}

/// Which curves of a candidate pair to split, given whether each of them is
/// already close enough to a line.
pub fn subdivision_choice(first_is_linear: bool, second_is_linear: bool) -> (choice: i32)
    ensures
        choice == choice_for(first_is_linear, second_is_linear),
        choice == SUBDIVIDE_NEITHER || choice == SUBDIVIDE_FIRST || choice == SUBDIVIDE_SECOND || choice
            == SUBDIVIDE_BOTH,
        (choice == SUBDIVIDE_FIRST || choice == SUBDIVIDE_BOTH) == !first_is_linear,
        (choice == SUBDIVIDE_SECOND || choice == SUBDIVIDE_BOTH) == !second_is_linear,
{
    if first_is_linear {
        if second_is_linear {
            SUBDIVIDE_NEITHER
        } else {
            SUBDIVIDE_SECOND
        }
    } else {
        if second_is_linear {
            SUBDIVIDE_FIRST
        } else {
            SUBDIVIDE_BOTH
        }
    }
}

/// What a round does with one candidate pair.
#[derive(Clone, Copy, PartialEq, Eq, Structural, Debug)]
pub enum CandidateAction {
    /// The pair cannot meet; drop it.
    Discard,
    /// The boxes only touch: test the four pairs of curve endpoints.
    CheckEndpoints,
    /// Both curves are lines: intersect the lines and refine with Newton.
    RefineLinearized,
    /// Split the curves named by the subdivision choice.
    Subdivide,
}

/// The action for a candidate pair, from the subdivision choice and the
/// bounding-box test of the pair.
pub open spec fn action_for(subdivision: i32, box_type: i32) -> CandidateAction {
    if box_type == BOX_INTERSECTION_TYPE_DISJOINT {
        CandidateAction::Discard
    } else if box_type == BOX_INTERSECTION_TYPE_TANGENT && subdivision != SUBDIVIDE_NEITHER {
        CandidateAction::CheckEndpoints
    } else if subdivision == SUBDIVIDE_NEITHER {
        CandidateAction::RefineLinearized
    } else {
        CandidateAction::Subdivide
    }
}

/// The action for a candidate pair, from the subdivision choice and the
/// bounding-box test of the pair.
pub fn candidate_action(subdivision: i32, box_type: i32) -> (action: CandidateAction)
    ensures
        action == action_for(subdivision, box_type),
        (action == CandidateAction::Discard) == (box_type == BOX_INTERSECTION_TYPE_DISJOINT),
        (action == CandidateAction::CheckEndpoints) == (box_type == BOX_INTERSECTION_TYPE_TANGENT && subdivision
            != SUBDIVIDE_NEITHER),
        (action == CandidateAction::RefineLinearized) == (box_type != BOX_INTERSECTION_TYPE_DISJOINT
            && subdivision == SUBDIVIDE_NEITHER),
        (action == CandidateAction::Subdivide) == (box_type != BOX_INTERSECTION_TYPE_DISJOINT && box_type
            != BOX_INTERSECTION_TYPE_TANGENT && subdivision != SUBDIVIDE_NEITHER),
{
    if box_type == BOX_INTERSECTION_TYPE_DISJOINT {
        CandidateAction::Discard
    } else if box_type == BOX_INTERSECTION_TYPE_TANGENT && subdivision != SUBDIVIDE_NEITHER {
        CandidateAction::CheckEndpoints
    } else if subdivision == SUBDIVIDE_NEITHER {
        CandidateAction::RefineLinearized
    } else {
        CandidateAction::Subdivide
    }
}

/// A curve of a candidate pair, or one of its two halves.
#[derive(Clone, Copy, PartialEq, Eq, Structural, Debug)]
pub enum Piece {
    Whole,
    Left,
    Right,
}

/// The new candidate pairs made from a pair when the curves named by
/// `subdivision` are split, in the order in which they are queued.
pub open spec fn pieces_for(subdivision: i32) -> Seq<(Piece, Piece)> {
    if subdivision == SUBDIVIDE_FIRST {
        seq![(Piece::Left, Piece::Whole), (Piece::Right, Piece::Whole)]
    } else if subdivision == SUBDIVIDE_SECOND {
        seq![(Piece::Whole, Piece::Left), (Piece::Whole, Piece::Right)]
    } else if subdivision == SUBDIVIDE_BOTH {
        seq![
            (Piece::Left, Piece::Left),
            (Piece::Left, Piece::Right),
            (Piece::Right, Piece::Left),
            (Piece::Right, Piece::Right),
        ]
    } else {
        Seq::empty()
    }
}

/// The new candidate pairs made from a pair when the curves named by
/// `subdivision` are split, in the order in which they are queued.
pub fn candidate_pieces(subdivision: i32) -> (pairs: Vec<(Piece, Piece)>)
    ensures
        pairs@ == pieces_for(subdivision),
        subdivision == SUBDIVIDE_FIRST ==> pairs@ == seq![
            (Piece::Left, Piece::Whole),
            (Piece::Right, Piece::Whole),
        ],
        subdivision == SUBDIVIDE_SECOND ==> pairs@ == seq![
            (Piece::Whole, Piece::Left),
            (Piece::Whole, Piece::Right),
        ],
        subdivision == SUBDIVIDE_BOTH ==> pairs@ == seq![
            (Piece::Left, Piece::Left),
            (Piece::Left, Piece::Right),
            (Piece::Right, Piece::Left),
            (Piece::Right, Piece::Right),
        ],
        subdivision != SUBDIVIDE_FIRST && subdivision != SUBDIVIDE_SECOND && subdivision != SUBDIVIDE_BOTH
            ==> pairs@.len() == 0,
{
    let mut pairs: Vec<(Piece, Piece)> = Vec::new();
    if subdivision == SUBDIVIDE_FIRST {
        pairs.push((Piece::Left, Piece::Whole));
        pairs.push((Piece::Right, Piece::Whole));
    } else if subdivision == SUBDIVIDE_SECOND {
        pairs.push((Piece::Whole, Piece::Left));
        pairs.push((Piece::Whole, Piece::Right));
    } else if subdivision == SUBDIVIDE_BOTH {
        pairs.push((Piece::Left, Piece::Left));
        pairs.push((Piece::Left, Piece::Right));
        pairs.push((Piece::Right, Piece::Left));
        pairs.push((Piece::Right, Piece::Right));
    }
    pairs
}

/// Splitting a pair keeps each curve that is already close enough to a line
/// whole and halves each other one, queueing every combination of the pieces
/// once: two pairs when one curve is split, four when both are, and none for
/// a pair of lines, which is refined instead whenever its boxes meet.
pub proof fn lemma_split_only_curved(first_is_linear: bool, second_is_linear: bool, box_type: i32)
    ensures
        ({
            let pieces = pieces_for(choice_for(first_is_linear, second_is_linear));
            &&& pieces.len() == if first_is_linear && second_is_linear {
                0
            } else {
                (if first_is_linear { 1int } else { 2int }) * (if second_is_linear { 1int } else { 2int })
            }
            &&& forall|i: int|
                0 <= i < pieces.len() ==> {
                    &&& (pieces[i].0 == Piece::Whole) == first_is_linear
                    &&& (pieces[i].1 == Piece::Whole) == second_is_linear
                }
            &&& forall|i: int, j: int| 0 <= i < j < pieces.len() ==> pieces[i] != pieces[j]
        }),
        (first_is_linear && second_is_linear && box_type != BOX_INTERSECTION_TYPE_DISJOINT) ==> (
        action_for(choice_for(first_is_linear, second_is_linear), box_type)
            == CandidateAction::RefineLinearized),
        !(first_is_linear && second_is_linear) ==> action_for(
            choice_for(first_is_linear, second_is_linear),
            box_type,
        ) != CandidateAction::RefineLinearized,
{
}

/// The subdivision choice splits a curve exactly when it is not yet close
/// enough to a line, and names one of the four choices: the first curve is
/// split (alone or with the second) exactly when it is curved, likewise the
/// second, and neither is split exactly when both are lines.
pub proof fn lemma_subdivision_choice_rules(first_is_linear: bool, second_is_linear: bool)
    ensures
        ({
            let choice = choice_for(first_is_linear, second_is_linear);
            &&& choice == SUBDIVIDE_NEITHER || choice == SUBDIVIDE_FIRST || choice == SUBDIVIDE_SECOND || choice
                == SUBDIVIDE_BOTH
            &&& (choice == SUBDIVIDE_FIRST || choice == SUBDIVIDE_BOTH) == !first_is_linear
            &&& (choice == SUBDIVIDE_SECOND || choice == SUBDIVIDE_BOTH) == !second_is_linear
            &&& (choice == SUBDIVIDE_NEITHER) == (first_is_linear && second_is_linear)
        }),
{
}

/// What a round does with a candidate pair, by the bounding-box test: a pair
/// is dropped exactly when its boxes are disjoint; it goes to the endpoint
/// check exactly when its boxes merely touch and some curve is still to be
/// split; a pair of lines whose boxes meet is always refined; and a pair
/// whose boxes overlap (or give any other answer than disjoint or touching)
/// is subdivided whenever some curve is still to be split.
pub proof fn lemma_candidate_action_rules(subdivision: i32, box_type: i32)
    ensures
        (action_for(subdivision, box_type) == CandidateAction::Discard) == (box_type
            == BOX_INTERSECTION_TYPE_DISJOINT),
        (action_for(subdivision, box_type) == CandidateAction::CheckEndpoints) == (box_type
            == BOX_INTERSECTION_TYPE_TANGENT && subdivision != SUBDIVIDE_NEITHER),
        (action_for(subdivision, box_type) == CandidateAction::RefineLinearized) == (box_type
            != BOX_INTERSECTION_TYPE_DISJOINT && subdivision == SUBDIVIDE_NEITHER),
        (action_for(subdivision, box_type) == CandidateAction::Subdivide) == (box_type
            != BOX_INTERSECTION_TYPE_DISJOINT && box_type != BOX_INTERSECTION_TYPE_TANGENT && subdivision
            != SUBDIVIDE_NEITHER),
        box_type == BOX_INTERSECTION_TYPE_INTERSECTION && subdivision != SUBDIVIDE_NEITHER ==> action_for(
            subdivision,
            box_type,
        ) == CandidateAction::Subdivide,
{
}

/// For a pair with overlapping boxes, the round subdivides exactly when some
/// curve is not yet close enough to a line, and refines the pair of lines
/// otherwise; boxes that only touch send a pair with a curved member to the
/// endpoint check.
pub proof fn lemma_overlapping_pair_action(first_is_linear: bool, second_is_linear: bool)
    ensures
        (action_for(choice_for(first_is_linear, second_is_linear), BOX_INTERSECTION_TYPE_INTERSECTION)
            == CandidateAction::Subdivide) == !(first_is_linear && second_is_linear),
        (action_for(choice_for(first_is_linear, second_is_linear), BOX_INTERSECTION_TYPE_INTERSECTION)
            == CandidateAction::RefineLinearized) == (first_is_linear && second_is_linear),
        (action_for(choice_for(first_is_linear, second_is_linear), BOX_INTERSECTION_TYPE_TANGENT)
            == CandidateAction::CheckEndpoints) == !(first_is_linear && second_is_linear),
{
    lemma_subdivision_choice_rules(first_is_linear, second_is_linear);
    lemma_candidate_action_rules(
        choice_for(first_is_linear, second_is_linear),
        BOX_INTERSECTION_TYPE_INTERSECTION,
    );
    lemma_candidate_action_rules(choice_for(first_is_linear, second_is_linear), BOX_INTERSECTION_TYPE_TANGENT);
}

/// Order of a half along its curve: the left half comes first.
pub open spec fn half_rank(piece: Piece) -> int {
    if piece == Piece::Right {
        1
    } else {
        0
    }
}

/// The pairs queued for a subdivision choice: the first curve is split
/// exactly when the choice names it, likewise the second; every combination
/// of the pieces is queued once (two pairs when one curve is split, four when
/// both are, none otherwise), left halves before right ones, the first
/// curve's half deciding before the second's.
pub proof fn lemma_candidate_pieces_rules(subdivision: i32)
    ensures
        ({
            let pieces = pieces_for(subdivision);
            let first = subdivision == SUBDIVIDE_FIRST || subdivision == SUBDIVIDE_BOTH;
            let second = subdivision == SUBDIVIDE_SECOND || subdivision == SUBDIVIDE_BOTH;
            &&& pieces.len() == (if first { 2int } else { 1int }) * (if second { 2int } else { 1int }) - (if !first
                && !second { 1int } else { 0int })
            &&& forall|i: int|
                0 <= i < pieces.len() ==> {
                    &&& (pieces[i].0 == Piece::Whole) == !first
                    &&& (pieces[i].1 == Piece::Whole) == !second
                }
            &&& forall|i: int, j: int|
                0 <= i < j < pieces.len() ==> (half_rank(pieces[i].0) < half_rank(pieces[j].0) || (half_rank(
                    pieces[i].0,
                ) == half_rank(pieces[j].0) && half_rank(pieces[i].1) < half_rank(pieces[j].1)))
        }),
{
}

/// What happens after a round, from the number of candidates it handed on.
#[derive(Clone, Copy, PartialEq, Eq, Structural, Debug)]
pub enum RoundOutcome {
    /// No candidates are left: every intersection has been found.
    Finished,
    /// Too many candidates: drop those whose convex hulls do not collide.
    Prune,
    /// Still too many after pruning: the curves may coincide.
    CheckCoincident,
    /// Go on with the next round.
    Continue,
}

/// The outcome of a round that handed on `num_candidates` pairs, before
/// (`pruned == false`) or after pruning.
pub fn round_outcome(num_candidates: usize, pruned: bool) -> (outcome: RoundOutcome)
    ensures
        outcome == if num_candidates > MAX_CANDIDATES {
            if pruned {
                RoundOutcome::CheckCoincident
            } else {
                RoundOutcome::Prune
            }
        } else if num_candidates == 0 {
            RoundOutcome::Finished
        } else {
            RoundOutcome::Continue
        },
{
    if num_candidates > MAX_CANDIDATES as usize {
        if pruned {
            RoundOutcome::CheckCoincident
        } else {
            RoundOutcome::Prune
        }
    } else if num_candidates == 0 {
        RoundOutcome::Finished
    } else {
        RoundOutcome::Continue
    }
}

/// The status when pruning left too many candidates: success if the curves
/// turned out to coincide, and otherwise the number of candidates itself,
/// which is larger than every named status code but the unknown one.
pub fn too_many_candidates_status(coincident: bool, num_candidates: usize) -> (status: i32)
    requires
        num_candidates <= i32::MAX,
    ensures
        status == if coincident {
            STATUS_SUCCESS
        } else {
            num_candidates as i32
        },
{
    if coincident {
        STATUS_SUCCESS
    } else {
        num_candidates as i32
    }
}

/// Final status of an intersection search that found `found` parameter
/// pairs for a caller with room for `capacity` of them, and whether the
/// pairs are to be copied out.
///
/// A failed search keeps its status and copies nothing, unless its status is
/// a candidate count of at least `MAX_CANDIDATES` for coinciding curves. If
/// more pairs were found than fit, the status is `STATUS_INSUFFICIENT_SPACE`
/// and nothing is copied. Otherwise the pairs, if any, are copied, and such a
/// candidate count for coinciding curves turns into success.
pub fn finish_intersections(status: i32, coincident: bool, found: i32, capacity: i32) -> (result: (
    i32,
    bool,
))
    ensures
        ({
            let tolerated = status >= MAX_CANDIDATES && coincident;
            if status != STATUS_SUCCESS && !tolerated {
                result == (status, false)
            } else if found > capacity {
                result == (STATUS_INSUFFICIENT_SPACE, false)
            } else if found > 0 {
                result == (if tolerated {
                    STATUS_SUCCESS
                } else {
                    status
                }, true)
            } else {
                result == (status, false)
            }
        }),
{
    let tolerated = status >= MAX_CANDIDATES && coincident;
    if status != STATUS_SUCCESS && !tolerated {
        (status, false)
    } else if found > capacity {
        (STATUS_INSUFFICIENT_SPACE, false)
    } else if found > 0 {
        if tolerated {
            (STATUS_SUCCESS, true)
        } else {
            (status, true)
        }
    } else {
        (status, false)
    }
}

/// Book-keeping of one Newton step: `iteration` counts from one, and
/// `linear_updates` is how many of the earlier steps (from the second on)
/// shrank the update by less than a factor four. Returns the new count, with
/// this step counted if it is not the first and `slow` holds, and whether to
/// give up: from the fifth step on, once at least two thirds of the steps
/// were slow, convergence is linear and the root is taken to be of higher
/// multiplicity.
pub fn record_newton_step(iteration: i32, linear_updates: i32, slow: bool) -> (result: (i32, bool))
    requires
        1 <= iteration <= MAX_NEWTON_ITERATIONS,
        0 <= linear_updates,
        linear_updates <= if iteration >= 2 {
            iteration - 2
        } else {
            0
        },
    ensures
        result.0 == if iteration > 1 && slow {
            linear_updates + 1
        } else {
            linear_updates as int
        },
        result.1 == (iteration >= 5 && 3 * result.0 >= 2 * iteration),
        0 <= result.0 <= iteration - 1,
{
    let updates = if iteration > 1 && slow {
        linear_updates + 1
    } else {
        linear_updates
    };
    (updates, iteration >= 5 && 3 * updates >= 2 * iteration)
}


/// The outcome of locating an endpoint of one curve on the other curve.
#[derive(Clone, Copy, PartialEq, Eq, Structural, Debug)]
pub enum Located {
    /// The point is not on the curve.
    Miss,
    /// The search could not settle on one parameter.
    Invalid,
    /// The point is on the curve, at a parameter in `[0, 1]`.
    Found,
}

/// Where a parameter of a coincidence test comes from.
#[derive(Clone, Copy, PartialEq, Eq, Structural, Debug)]
pub enum Param {
    /// Where the second curve's start lies on the first curve.
    SInitial,
    /// Where the second curve's end lies on the first curve.
    SFinal,
    /// Where the first curve's start lies on the second curve.
    TInitial,
    /// Where the first curve's end lies on the second curve.
    TFinal,
    /// The parameter zero.
    Zero,
    /// The parameter one.
    One,
}

/// How two curves (of the same degree) are tested for coinciding on a
/// stretch, once the endpoints of the second curve have been located on the
/// first one.
#[derive(Clone, Copy, PartialEq, Eq, Structural, Debug)]
pub enum FirstCoincidenceStep {
    /// The curves do not coincide on any stretch.
    NotCoincident,
    /// The second curve lies within the first: compare it with the first
    /// curve restricted to `[SInitial, SFinal]`.
    CompareFirstRestricted,
    /// Locate the endpoints of the first curve on the second one.
    LocateFirstOnSecond,
}

/// The step after locating the second curve's start (`s_initial`) and end
/// (`s_final`) on the first curve.
pub fn first_coincidence_step(s_initial: Located, s_final: Located) -> (step: FirstCoincidenceStep)
    ensures
        step == if s_initial == Located::Invalid || s_final == Located::Invalid {
            FirstCoincidenceStep::NotCoincident
        } else if s_initial == Located::Found && s_final == Located::Found {
            FirstCoincidenceStep::CompareFirstRestricted
        } else {
            FirstCoincidenceStep::LocateFirstOnSecond
        },
{
    if s_initial == Located::Invalid || s_final == Located::Invalid {
        FirstCoincidenceStep::NotCoincident
    } else if s_initial == Located::Found && s_final == Located::Found {
        FirstCoincidenceStep::CompareFirstRestricted
    } else {
        FirstCoincidenceStep::LocateFirstOnSecond
    }
}

/// How to finish the coincidence test once all four endpoints are located.
#[derive(Clone, Copy, PartialEq, Eq, Structural, Debug)]
pub enum SecondCoincidenceStep {
    /// The curves do not coincide on any stretch.
    NotCoincident,
    /// The first curve lies within the second: compare it with the second
    /// curve restricted to `[TInitial, TFinal]`.
    CompareSecondRestricted,
    /// The curves overlap on a stretch: compare the first curve restricted
    /// to `[s_start, s_end]` with the second restricted to
    /// `[t_start, t_end]`.
    CompareBothRestricted { s_start: Param, s_end: Param, t_start: Param, t_end: Param },
}

/// The step after the endpoints of the first curve were also located on the
/// second (`t_initial`, `t_final`), for the cases where `first_coincidence_step`
/// asks for that. On an overlap, the stretch of each curve runs from the located
/// endpoint of the other curve to its own end that lies on the other curve.
pub fn second_coincidence_step(
    s_initial: Located,
    s_final: Located,
    t_initial: Located,
    t_final: Located,
) -> (step: SecondCoincidenceStep)
    requires
        s_initial != Located::Invalid,
        s_final != Located::Invalid,
        !(s_initial == Located::Found && s_final == Located::Found),
    ensures
        step == if t_initial == Located::Invalid || t_final == Located::Invalid {
            SecondCoincidenceStep::NotCoincident
        } else if t_initial == Located::Miss && t_final == Located::Miss {
            SecondCoincidenceStep::NotCoincident
        } else if t_initial == Located::Found && t_final == Located::Found {
            SecondCoincidenceStep::CompareSecondRestricted
        } else if s_initial == Located::Miss && s_final == Located::Miss {
            SecondCoincidenceStep::NotCoincident
        } else if s_initial == Located::Miss {
            SecondCoincidenceStep::CompareBothRestricted {
                s_start: Param::SFinal,
                s_end: Param::One,
                t_start: if t_initial == Located::Miss {
                    Param::One
                } else {
                    Param::TInitial
                },
                t_end: if t_initial == Located::Miss {
                    Param::TFinal
                } else {
                    Param::One
                },
            }
        } else {
            SecondCoincidenceStep::CompareBothRestricted {
                s_start: Param::Zero,
                s_end: Param::SInitial,
                t_start: if t_initial == Located::Miss {
                    Param::Zero
                } else {
                    Param::TInitial
                },
                t_end: if t_initial == Located::Miss {
                    Param::TFinal
                } else {
                    Param::Zero
                },
            }
        },
        // On an overlap exactly one endpoint of each curve lies on the other.
        step matches SecondCoincidenceStep::CompareBothRestricted { .. } ==> {
            &&& (s_initial == Located::Found) != (s_final == Located::Found)
            &&& (t_initial == Located::Found) != (t_final == Located::Found)
        },
{
    if t_initial == Located::Invalid || t_final == Located::Invalid {
        return SecondCoincidenceStep::NotCoincident;
    }
    if t_initial == Located::Miss && t_final == Located::Miss {
        return SecondCoincidenceStep::NotCoincident;
    }
    if t_initial == Located::Found && t_final == Located::Found {
        return SecondCoincidenceStep::CompareSecondRestricted;
    }
    if s_initial == Located::Miss && s_final == Located::Miss {
        return SecondCoincidenceStep::NotCoincident;
    }
    let mut s_start = Param::SInitial;
    let mut s_end = Param::SFinal;
    let mut t_start = Param::TInitial;
    let mut t_end = Param::TFinal;
    if s_initial == Located::Miss {
        s_start = s_end;
        s_end = Param::One;
        if t_initial == Located::Miss {
            t_start = Param::One;
        } else {
            t_end = Param::One;
        }
    } else {
        s_end = s_start;
        s_start = Param::Zero;
        if t_initial == Located::Miss {
            t_start = Param::Zero;
        } else {
            t_end = Param::Zero;
        }
    }
    SecondCoincidenceStep::CompareBothRestricted { s_start, s_end, t_start, t_end }
}

} // verus!
