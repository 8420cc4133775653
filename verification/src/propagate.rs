//! The propagation engine: repeatedly settles every square whose candidates
//! have collapsed to exactly one value, until no forced move is left, the
//! board completes, or a contradiction surfaces.

use vstd::prelude::*;

use crate::board::State;
use crate::board::Square;
use crate::board::admits;
use crate::board::full_solution;
use crate::board::lemma_count_true_all_false;
use crate::board::lemma_count_unsettled_bounds;
use crate::board::lemma_count_unsettled_member;
use crate::board::lemma_index_decomp;
use crate::board::lemma_invalid_square_admits_none;
use crate::board::lemma_lone_candidate_forced;
use crate::board::lemma_settle_keeps_admitted;
use crate::board::lemma_settle_narrows;
use crate::board::narrows;
use crate::board::settled_preserved;

verus! {

/// Outcome of running the engine to saturation.
#[derive(Clone, Copy, PartialEq, Eq, Structural, Debug)]
pub enum PropagateResult {
    /// No more lone candidates; unsettled squares remain.
    ProgressExhausted,
    /// Every square is settled.
    BoardComplete,
    /// Some square was left unsettled with no candidates.
    Contradiction,
}

enum PassResult {
    Settled,
    NoChange,
    Contradiction,
}

/// First remaining candidate of a square, as a value 1..9.
fn first_candidate(sq: &Square) -> (v: i8)
    requires
        sq.wf(),
        sq.num_possible >= 1,
    ensures
        1 <= v <= 9,
        sq.possible@[v - 1],
{
    let mut i: usize = 0;
    while i < 9
        invariant
            i <= 9,
            sq.wf(),
            sq.num_possible >= 1,
            forall|t: int| 0 <= t < i ==> !sq.possible@[t],
        decreases 9 - i,
    {
        if sq.possible[i] {
            return (i + 1) as i8;
        }
        i += 1;
    }
    proof {
        lemma_count_true_all_false(sq.possible@);
        assert(false);
    }
    1
}

/// One scan over the 81 squares, settling every lone candidate met; aborts
/// with a contradiction as soon as a settle reports one.
fn single_pass(state: &mut State) -> (r: PassResult)
    requires
        old(state).wf(),
    ensures
        final(state).wf(),
        settled_preserved(*old(state), *final(state)),
        final(state).unsolved_squares <= old(state).unsolved_squares,
        old(state).consistent() ==> final(state).consistent(),
        old(state).consistent() && old(state).no_conflict() ==> final(state).no_conflict(),
        r is Settled ==> final(state).unsolved_squares < old(state).unsolved_squares,
        r is NoChange ==> *final(state) == *old(state) && (forall|k: int|
            0 <= k < 81 && !(#[trigger] final(state).sq(k)).settled() ==> final(state).sq(
                k,
            ).num_possible != 1),
        r is Contradiction ==> exists|k: int| 0 <= k < 81 && !final(state).sq(k).spec_valid(),
        forall|s: State|
            full_solution(s) && #[trigger] admits(*old(state), s) ==> admits(*final(state), s),
        narrows(*old(state), *final(state)),
        r is Contradiction ==> forall|s: State|
            full_solution(s) ==> !(#[trigger] admits(*old(state), s)),
{
    let mut progress = false;
    let mut k: usize = 0;
    while k < 81
        invariant
            state.wf(),
            k <= 81,
            settled_preserved(*old(state), *state),
            state.unsolved_squares <= old(state).unsolved_squares,
            old(state).consistent() ==> state.consistent(),
            (old(state).consistent() && old(state).no_conflict()) ==> state.no_conflict(),
            progress ==> state.unsolved_squares < old(state).unsolved_squares,
            !progress ==> *state == *old(state),
            !progress ==> forall|t: int|
                0 <= t < k && !(#[trigger] state.sq(t)).settled() ==> state.sq(t).num_possible
                    != 1,
            forall|s: State|
                full_solution(s) && #[trigger] admits(*old(state), s) ==> admits(*state, s),
            narrows(*old(state), *state),
        decreases 81 - k,
    {
        let sq = state.board[k];
        proof {
            assert(state.sq(k as int).wf());
        }
        if sq.solution == 0 && sq.num_possible == 1 {
            let v = first_candidate(&sq);
            proof {
                lemma_index_decomp(k as int);
            }
            let ghost before = *state;
            let ok = state.propagate_solution(k / 9, k % 9, v);
            proof {
                assert forall|t: int|
                    0 <= t < 81 && (#[trigger] old(state).sq(t)).settled() implies state.sq(
                    t,
                ).solution == old(state).sq(t).solution by {
                    assert(before.sq(t).solution == old(state).sq(t).solution);
                    assert(before.sq(t).settled());
                }
                assert forall|s: State|
                    full_solution(s) && #[trigger] admits(*old(state), s) implies admits(
                    *state,
                    s,
                ) by {
                    assert(admits(before, s));
                    lemma_lone_candidate_forced(before, k as int, v as int, s);
                    lemma_settle_keeps_admitted(before, *state, k as int, v as int, s);
                }
                lemma_settle_narrows(before, *state, k as int, v as int);
                assert forall|s: State| #[trigger] admits(*state, s) implies admits(
                    *old(state),
                    s,
                ) by {
                    assert(admits(before, s));
                }
            }
            progress = true;
            if !ok {
                proof {
                    assert(exists|i: int|
                        0 <= i < 81 && !state.sq(i).spec_valid());
                    let bad = choose|i: int| 0 <= i < 81 && !state.sq(i).spec_valid();
                    assert forall|s: State|
                        full_solution(s) implies !(#[trigger] admits(*old(state), s)) by {
                        if admits(*old(state), s) {
                            lemma_invalid_square_admits_none(*state, bad, s);
                        }
                    }
                }
                return PassResult::Contradiction;
            }
        }
        k += 1;
    }
    if progress {
        PassResult::Settled
    } else {
        PassResult::NoChange
    }
}

/// Runs single passes until no pass settles anything, the board completes,
/// or a contradiction surfaces. A pass that settles nothing leaves the board
/// untouched, so the engine converges; every productive pass settles at
/// least one square.
pub fn saturate(state: &mut State) -> (r: PropagateResult)
    requires
        old(state).wf(),
    ensures
        final(state).wf(),
        settled_preserved(*old(state), *final(state)),
        final(state).unsolved_squares <= old(state).unsolved_squares,
        old(state).consistent() ==> final(state).consistent(),
        old(state).consistent() && old(state).no_conflict() ==> final(state).no_conflict(),
        (r is BoardComplete) <==> final(state).unsolved_squares == 0,
        r is ProgressExhausted ==> final(state).unsolved_squares > 0 && (forall|k: int|
            0 <= k < 81 && !(#[trigger] final(state).sq(k)).settled() ==> final(state).sq(
                k,
            ).num_possible != 1),
        r is Contradiction ==> final(state).unsolved_squares > 0 && (exists|k: int|
            0 <= k < 81 && !final(state).sq(k).spec_valid()),
        forall|s: State|
            full_solution(s) && #[trigger] admits(*old(state), s) ==> admits(*final(state), s),
        narrows(*old(state), *final(state)),
        r is Contradiction ==> forall|s: State|
            full_solution(s) ==> !(#[trigger] admits(*old(state), s)),
{
    loop
        invariant
            state.wf(),
            settled_preserved(*old(state), *state),
            state.unsolved_squares <= old(state).unsolved_squares,
            old(state).consistent() ==> state.consistent(),
            (old(state).consistent() && old(state).no_conflict()) ==> state.no_conflict(),
            forall|s: State|
                full_solution(s) && #[trigger] admits(*old(state), s) ==> admits(*state, s),
            narrows(*old(state), *state),
        decreases state.unsolved_squares as int,
    {
        proof {
            lemma_count_unsettled_bounds(state.board@);
        }
        if state.unsolved_squares == 0 {
            return PropagateResult::BoardComplete;
        }
        let ghost entry = *state;
        let pr = single_pass(state);
        proof {
            assert forall|t: int|
                0 <= t < 81 && (#[trigger] old(state).sq(t)).settled() implies state.sq(
                t,
            ).solution == old(state).sq(t).solution by {
                assert(entry.sq(t).solution == old(state).sq(t).solution);
                assert(entry.sq(t).settled());
            }
            assert forall|s: State|
                full_solution(s) && #[trigger] admits(*old(state), s) implies admits(
                *state,
                s,
            ) by {
                assert(admits(entry, s));
            }
            assert forall|s: State| #[trigger] admits(*state, s) implies admits(
                *old(state),
                s,
            ) by {
                assert(admits(entry, s));
            }
        }
        match pr {
            PassResult::Contradiction => {
                proof {
                    let i = choose|i: int| 0 <= i < 81 && !state.sq(i).spec_valid();
                    lemma_count_unsettled_member(state.board@, i);
                    assert forall|s: State|
                        full_solution(s) implies !(#[trigger] admits(*old(state), s)) by {
                        if admits(*old(state), s) {
                            assert(admits(entry, s));
                            assert(!admits(entry, s));
                        }
                    }
                }
                return PropagateResult::Contradiction;
            },
            PassResult::NoChange => {
                return PropagateResult::ProgressExhausted;
            },
            PassResult::Settled => {},
        }
        proof {
            lemma_count_unsettled_bounds(state.board@);
        }
    }
}

} // verus!
