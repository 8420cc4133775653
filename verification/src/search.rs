//! The concurrent backtracking search: worker coordination state, the
//! thread-budget allocator, and the recursive solver that interleaves
//! propagation with hypothesis branching. Branch points dispatch as many
//! hypotheses as the budget grants to freshly spawned scoped workers and
//! explore the rest sequentially in the calling worker.

use vstd::prelude::*;

use core::sync::atomic::AtomicBool;
use core::sync::atomic::AtomicIsize;
use core::sync::atomic::Ordering;
use std::sync::Arc;

use crate::board::State;
use crate::board::admits;
use crate::board::lemma_complete_admits_itself;
use crate::board::lemma_count_true_bounds;
use crate::board::lemma_count_unsettled_some;
use crate::board::lemma_index_compose;
use crate::board::lemma_index_decomp;
use crate::board::lemma_settle_narrows;
use crate::board::narrows;
use crate::board::settled_preserved;
use crate::propagate::PropagateResult;
use crate::propagate::saturate;

verus! {

/// Process-wide coordination between workers: the flag set once a solution
/// is found, and the count of live or reserved workers. Values read back
/// come from races with other workers, so nothing is assumed of them; every
/// correctness property of the search holds whatever they are.
#[derive(Clone)]
pub struct Coordination {
    pub solution_found: Arc<AtomicBool>,
    pub active_worker_budget: Arc<AtomicIsize>,
}

impl Coordination {
    /// Fresh coordination state: no solution found, one worker (the caller).
    pub fn new() -> Coordination {
        Coordination {
            solution_found: Arc::new(AtomicBool::new(false)),
            active_worker_budget: Arc::new(AtomicIsize::new(1)),
        }
    }
}

/// A completed, conflict-free assignment that keeps every settled value of
/// `start`.
pub open spec fn is_solution(start: State, s: State) -> bool {
    &&& s.wf()
    &&& s.unsolved_squares == 0
    &&& s.no_conflict()
    &&& settled_preserved(start, s)
}

/// What the search promises of its answer: any reported board is a
/// well-formed completed extension of the start, and it is conflict-free
/// whenever the start was.
pub open spec fn search_ok(start: State, r: Option<State>) -> bool {
    r matches Some(s) ==> {
        &&& s.wf()
        &&& s.unsolved_squares == 0
        &&& s.consistent()
        &&& settled_preserved(start, s)
        &&& admits(start, s)
        &&& (start.no_conflict() ==> s.no_conflict())
    }
}

/// A search answer sound for a child board settled from `start` is sound for
/// `start` itself.
proof fn lemma_search_ok_step(start: State, step: State, r: Option<State>)
    requires
        search_ok(step, r),
        settled_preserved(start, step),
        narrows(start, step),
        start.no_conflict() ==> step.no_conflict(),
    ensures
        search_ok(start, r),
{
    match r {
        Some(s) => {
            assert forall|k: int|
                0 <= k < 81 && (#[trigger] start.sq(k)).settled() implies s.sq(k).solution
                == start.sq(k).solution by {
                assert(step.sq(k).solution == start.sq(k).solution);
                assert(step.sq(k).settled());
            }
        },
        None => {},
    }
}

/// How many of `requested` extra workers fit under `max_threads`, given the
/// pre-reservation reading `pre` of the budget counter.
pub open spec fn spec_extra_workers(pre: int, requested: int, max_threads: int) -> int {
    let room = max_threads - pre;
    if room <= 0 {
        0
    } else if room < requested {
        room
    } else {
        requested
    }
}

/// Thread-budget allocation at one branch point: grants as many of the
/// requested extra reservations as fit under `max_threads`, never more.
pub fn plan_extra_workers(pre: isize, requested: isize, max_threads: isize) -> (extra: isize)
    requires
        0 <= requested <= 8,
    ensures
        extra as int == spec_extra_workers(pre as int, requested as int, max_threads as int),
        0 <= extra <= requested,
{
    let room: i128 = (max_threads as i128) - (pre as i128);
    let req: i128 = requested as i128;
    let grant: i128 = if room <= 0 {
        0
    } else if room < req {
        room
    } else {
        req
    };
    grant as isize
}

/// Thread-budget bound: once the overshoot is released, a branch point's
/// grant never lifts the worker count above the configured maximum, and a
/// counter already at or over the maximum grants nothing, so the branch
/// degrades to sequential exploration.
pub proof fn lemma_budget_bound(pre: int, requested: int, max_threads: int)
    requires
        0 <= requested,
    ensures
        pre <= max_threads ==> pre + spec_extra_workers(pre, requested, max_threads)
            <= max_threads,
        pre >= max_threads ==> spec_extra_workers(pre, requested, max_threads) == 0,
{
}

/// The body of one spawned worker: searches its own board copy, then gives
/// its budget reservation back whatever the outcome.
pub fn worker_entry(state: State, row: usize, col: usize, max_threads: isize, coordination:
    &Coordination) -> (r: Option<State>)
    requires
        state.wf(),
        state.consistent(),
        row < 9,
        col <= 9,
        state.prefix_settled(row as int * 9 + col as int),
        max_threads >= 1,
    ensures
        search_ok(state, r),
{
    let r = parallel_solve(state, row, col, max_threads, coordination);
    (&*coordination.active_worker_budget).fetch_add(-1, Ordering::SeqCst);
    r
}

/// Runs one branch point's granted hypotheses concurrently and its remaining
/// hypotheses sequentially. Each board of `children` is searched by a
/// freshly spawned worker running `worker_entry` from `row`, `child_col`;
/// meanwhile the calling worker runs `explore_rest` on `rest` for the
/// candidates of its square `row`, `col` from index `from` on. Every worker
/// is joined before the call returns.
///
/// Relies on `crossbeam_utils::thread::scope` and `Scope::spawn`: each
/// spawned closure runs once on its own thread, `ScopedJoinHandle::join`
/// returns that closure's result, and the scope joins every spawned thread
/// before it ends. The closures only call the two verified functions named
/// above, so each answer satisfies those functions' contracts.
#[verifier::external_body]
fn run_branch(
    children: Vec<State>,
    rest: State,
    row: usize,
    col: usize,
    child_col: usize,
    from: usize,
    max_threads: isize,
    coordination: &Coordination,
) -> (out: (Vec<Option<State>>, Option<State>))
    requires
        forall|i: int|
            0 <= i < children@.len() ==> ((#[trigger] children@[i]).wf()
                && children@[i].consistent() && children@[i].prefix_settled(
                row as int * 9 + child_col as int,
            )),
        rest.wf(),
        rest.consistent(),
        !rest.sq(row as int * 9 + col).settled(),
        rest.prefix_settled(row as int * 9 + col),
        row < 9,
        col < 9,
        child_col <= 9,
        from <= 9,
        max_threads >= 1,
    ensures
        out.0@.len() == children@.len(),
        forall|i: int|
            0 <= i < children@.len() ==> search_ok(children@[i], #[trigger] out.0@[i]),
        search_ok(rest, out.1),
{
    crossbeam_utils::thread::scope(|s| {
        let handles: Vec<_> = children.into_iter().map(|child| {
            let c = coordination.clone();
            s.spawn(move |_| worker_entry(child, row, child_col, max_threads, &c))
        }).collect();
        let mine = explore_rest(rest, row, col, from, max_threads, coordination);
        let theirs = handles.into_iter().map(|h| h.join().unwrap_or(None)).collect();
        (theirs, mine)
    }).unwrap_or((Vec::new(), None))
}

/// One unit of search work: checks the cancellation flag, saturates the
/// board by propagation, and either reports the completed board, abandons a
/// contradicted branch, or branches on the first unsettled square at or
/// after `row`, `col` (every square before that point is already settled).
pub fn parallel_solve(state: State, row: usize, col: usize, max_threads: isize, coordination:
    &Coordination) -> (r: Option<State>)
    requires
        state.wf(),
        state.consistent(),
        row < 9,
        col <= 9,
        state.prefix_settled(row as int * 9 + col as int),
        max_threads >= 1,
    ensures
        search_ok(state, r),
    decreases state.unsolved_squares as int, 2int,
{
    let cancelled = (&*coordination.solution_found).load(Ordering::Relaxed);
    if cancelled {
        return None;
    }
    let mut st = state;
    match saturate(&mut st) {
        PropagateResult::Contradiction => None,
        PropagateResult::BoardComplete => {
            (&*coordination.solution_found).store(true, Ordering::Relaxed);
            proof {
                lemma_complete_admits_itself(st);
            }
            Some(st)
        },
        PropagateResult::ProgressExhausted => {
            let mut k: usize = row * 9 + col;
            proof {
                assert forall|t: int| 0 <= t < k implies (#[trigger] st.sq(t)).settled() by {
                    assert(state.sq(t).settled());
                    assert(st.sq(t).solution == state.sq(t).solution);
                }
            }
            while k < 81
                invariant
                    st.wf(),
                    st.consistent(),
                    st.unsolved_squares > 0,
                    st.unsolved_squares <= state.unsolved_squares,
                    st.prefix_settled(k as int),
                    settled_preserved(state, st),
                    narrows(state, st),
                    state.no_conflict() ==> st.no_conflict(),
                    state.wf(),
                    max_threads >= 1,
                    k <= 81,
                decreases 81 - k,
            {
                let sq = st.board[k];
                if sq.solution == 0 {
                    proof {
                        assert(st.sq(k as int).wf());
                    }
                    if sq.num_possible == 0 {
                        return None;
                    }
                    proof {
                        lemma_index_decomp(k as int);
                        lemma_count_true_bounds(st.sq(k as int).possible@);
                    }
                    let res = parallel_solve_impl(st, k / 9, k % 9, max_threads, coordination);
                    proof {
                        lemma_search_ok_step(state, st, res);
                    }
                    return res;
                }
                k += 1;
            }
            proof {
                lemma_count_unsettled_some(st.board@);
                let i = choose|i: int| 0 <= i < st.board@.len() && !st.board@[i].settled();
                assert(st.sq(i).settled());
                assert(false);
            }
            None
        },
    }
}

/// Branch point at the unsettled square `row`, `col`: reserves thread budget
/// for the candidate hypotheses, settles one child board per granted
/// hypothesis in ascending candidate order, dispatches those children to
/// spawned workers while the remaining candidates are explored sequentially
/// in this worker, joins every child, and merges the answers.
pub fn parallel_solve_impl(state: State, row: usize, col: usize, max_threads: isize, coordination:
    &Coordination) -> (r: Option<State>)
    requires
        state.wf(),
        state.consistent(),
        row < 9,
        col < 9,
        !state.sq(row as int * 9 + col).settled(),
        state.sq(row as int * 9 + col).num_possible >= 1,
        state.prefix_settled(row as int * 9 + col),
        max_threads >= 1,
    ensures
        search_ok(state, r),
    decreases state.unsolved_squares as int, 1int,
{
    let idx: usize = row * 9 + col;
    proof {
        lemma_index_compose(row as int, col as int);
        assert(state.sq(idx as int).wf());
        lemma_count_true_bounds(state.sq(idx as int).possible@);
    }
    let sq = state.board[idx];
    let extra_to_request: isize = (sq.num_possible - 1) as isize;
    let pre = (&*coordination.active_worker_budget).fetch_add(extra_to_request, Ordering::SeqCst);
    let extra_available = plan_extra_workers(pre, extra_to_request, max_threads);
    let overflow = extra_to_request - extra_available;
    if overflow > 0 {
        (&*coordination.active_worker_budget).fetch_add(-overflow, Ordering::SeqCst);
    }
    let mut children: Vec<State> = Vec::new();
    let mut granted = extra_available;
    let mut sln_idx: usize = 0;
    while sln_idx < 9 && granted > 0
        invariant
            state.wf(),
            state.consistent(),
            row < 9,
            col < 9,
            idx == row * 9 + col,
            idx < 81,
            !state.sq(idx as int).settled(),
            state.prefix_settled(idx as int),
            max_threads >= 1,
            sln_idx <= 9,
            0 <= granted,
            forall|i: int|
                0 <= i < children@.len() ==> ((#[trigger] children@[i]).wf()
                    && children@[i].consistent() && children@[i].prefix_settled(idx as int + 1)
                    && settled_preserved(state, children@[i]) && narrows(state, children@[i])
                    && (state.no_conflict() ==> children@[i].no_conflict())),
        decreases 9 - sln_idx,
    {
        if state.board[idx].possible[sln_idx] {
            let mut child = state;
            let v = (sln_idx + 1) as i8;
            let _child_viable = child.propagate_solution(row, col, v);
            proof {
                lemma_settle_narrows(state, child, idx as int, v as int);
                assert forall|t: int| 0 <= t < idx + 1 implies (#[trigger] child.sq(t)).settled()
                    by {
                    if t < idx {
                        assert(state.sq(t).settled());
                    }
                }
            }
            children.push(child);
            granted = granted - 1;
        }
        sln_idx += 1;
    }
    if children.len() == 0 {
        explore_rest(state, row, col, sln_idx, max_threads, coordination)
    } else {
        let ghost settled_children = children@;
        let next_col = col + 1;
        let branch_out = run_branch(children, state, row, col, next_col, sln_idx, max_threads,
            coordination);
        let child_results = branch_out.0;
        let mut out = branch_out.1;
        let mut i: usize = 0;
        while i < child_results.len()
            invariant
                search_ok(state, out),
                child_results@.len() == settled_children.len(),
                i <= child_results@.len(),
                forall|t: int|
                    0 <= t < settled_children.len() ==> ((#[trigger] settled_children[t]).wf()
                        && settled_preserved(state, settled_children[t]) && narrows(state,
                        settled_children[t]) && (state.no_conflict()
                        ==> settled_children[t].no_conflict())),
                forall|t: int|
                    0 <= t < settled_children.len() ==> search_ok(settled_children[t],
                        #[trigger] child_results@[t]),
            decreases child_results@.len() - i,
        {
            if out.is_none() {
                let cr = child_results[i];
                proof {
                    lemma_search_ok_step(state, settled_children[i as int], cr);
                }
                out = cr;
            }
            i += 1;
        }
        out
    }
}

/// Sequential exploration of the candidates of the unsettled square at
/// `row`, `col`, starting at candidate index `from`: settles each remaining
/// candidate on a copy of the board and searches onward, short-circuiting on
/// the first success.
pub fn explore_rest(state: State, row: usize, col: usize, from: usize, max_threads: isize,
    coordination: &Coordination) -> (r: Option<State>)
    requires
        state.wf(),
        state.consistent(),
        row < 9,
        col < 9,
        !state.sq(row as int * 9 + col).settled(),
        state.prefix_settled(row as int * 9 + col),
        from <= 9,
        max_threads >= 1,
    ensures
        search_ok(state, r),
    decreases state.unsolved_squares as int, 0int,
{
    let idx: usize = row * 9 + col;
    proof {
        lemma_index_compose(row as int, col as int);
        assert(state.sq(idx as int).wf());
    }
    let mut found: Option<State> = None;
    let mut sln_idx: usize = from;
    while sln_idx < 9
        invariant
            state.wf(),
            state.consistent(),
            row < 9,
            col < 9,
            idx == row * 9 + col,
            idx < 81,
            !state.sq(idx as int).settled(),
            state.prefix_settled(idx as int),
            max_threads >= 1,
            sln_idx <= 9,
            search_ok(state, found),
        decreases 9 - sln_idx,
    {
        if state.board[idx].possible[sln_idx] {
            if found.is_none() {
                let mut child = state;
                let v = (sln_idx + 1) as i8;
                let _child_viable = child.propagate_solution(row, col, v);
                proof {
                    lemma_settle_narrows(state, child, idx as int, v as int);
                    assert forall|t: int|
                        0 <= t < idx + 1 implies (#[trigger] child.sq(t)).settled() by {
                        if t < idx {
                            assert(state.sq(t).settled());
                        }
                    }
                }
                let res = parallel_solve(child, row, col + 1, max_threads, coordination);
                proof {
                    lemma_search_ok_step(state, child, res);
                }
                found = res;
            }
        }
        sln_idx += 1;
    }
    found
}

/// Solves a populated board: fresh coordination state, then the search from
/// the first square under the given worker maximum.
pub fn solve(state: State, max_threads: isize) -> (r: Option<State>)
    requires
        state.wf(),
        state.consistent(),
        max_threads >= 1,
    ensures
        search_ok(state, r),
{
    let coordination = Coordination::new();
    parallel_solve(state, 0, 0, max_threads, &coordination)
}

/// Two boards that agree on every settled value.
pub open spec fn same_solutions(a: State, b: State) -> bool {
    forall|k: int| 0 <= k < 81 ==> (#[trigger] a.sq(k)).solution == b.sq(k).solution
}

/// Unique-solution agreement: when a conflict-free start board admits
/// exactly one solution, any successful search returns exactly its values.
pub proof fn lemma_unique_solution_returned(start: State, unique: State, r: Option<State>)
    requires
        search_ok(start, r),
        start.no_conflict(),
        is_solution(start, unique),
        forall|s: State| is_solution(start, s) ==> same_solutions(s, unique),
    ensures
        r matches Some(s) ==> same_solutions(s, unique),
{
    match r {
        Some(s) => {
            assert(is_solution(start, s));
            assert(same_solutions(s, unique));
        },
        None => {},
    }
}

/// Concurrency equivalence: two runs of the search over the same uniquely
/// solvable start, whatever their worker budgets, agree on every settled
/// value whenever both succeed; only timing may differ.
pub proof fn lemma_concurrency_equivalence(
    start: State,
    unique: State,
    r1: Option<State>,
    r2: Option<State>,
)
    requires
        search_ok(start, r1),
        search_ok(start, r2),
        start.no_conflict(),
        is_solution(start, unique),
        forall|s: State| is_solution(start, s) ==> same_solutions(s, unique),
    ensures
        r1 matches Some(a) ==> r2 matches Some(b) ==> same_solutions(a, b),
{
    lemma_unique_solution_returned(start, unique, r1);
    lemma_unique_solution_returned(start, unique, r2);
}

} // verus!
