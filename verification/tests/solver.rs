use core::sync::atomic::Ordering;

use sudoku::board::State;
use sudoku::propagate::PropagateResult;
use sudoku::propagate::saturate;
use sudoku::search::Coordination;
use sudoku::search::parallel_solve;
use sudoku::search::plan_extra_workers;
use sudoku::search::solve;
use sudoku::search::worker_entry;

const PUZZLE: &str = "53..7....6..195....98....6.8...6...34..8.3..17...2...6.6....28....419..5....8..79";
const SOLUTION: &str = "534678912672195348198342567859761423426853791713924856961537284287419635345286179";

// The full solution grid with two 5s given in row 0 (columns 0 and 3) and the
// square that should hold the displaced 5 (row 6, column 3) left blank.
const ROW_CONFLICT: &str = "534578912672195348198342567859761423426853791713924856961.37284287419635345286179";

fn populated(input: &str) -> (State, bool) {
    assert_eq!(input.len(), 81);
    let mut state = State::new();
    let ok = state.populate_board_using_input(input.as_bytes());
    (state, ok)
}

fn line_of(state: &State) -> String {
    String::from_utf8(state.solution_line()).unwrap()
}

#[test]
fn t_fresh_board() {
    let state = State::new();
    assert_eq!(state.unsolved_squares, 81);
    for row in 0..9 {
        for col in 0..9 {
            let sq = state.square_at(row, col);
            assert_eq!(sq.solution, 0);
            assert_eq!(sq.num_possible, 9);
            assert_eq!(sq.possible, [true; 9]);
        }
    }
}

#[test]
fn t_settle_updates_peers_and_count() {
    let mut state = State::new();
    let ok = state.propagate_solution(0, 0, 5);
    assert!(ok);
    assert_eq!(state.unsolved_squares, 80);
    let target = state.square_at(0, 0);
    assert_eq!(target.solution, 5);
    // Row, column and sub-board peers all lost candidate 5.
    assert!(!state.square_at(0, 7).possible[4]);
    assert!(!state.square_at(6, 0).possible[4]);
    assert!(!state.square_at(2, 2).possible[4]);
    assert_eq!(state.square_at(2, 2).num_possible, 8);
    // A square sharing no unit keeps all nine candidates.
    assert!(state.square_at(5, 5).possible[4]);
    assert_eq!(state.square_at(5, 5).num_possible, 9);
}

#[test]
fn t_settled_square_has_empty_candidate_set() {
    // After any settle, no square is settled while keeping candidates.
    let (state, ok) = populated(PUZZLE);
    assert!(ok);
    for row in 0..9 {
        for col in 0..9 {
            let sq = state.square_at(row, col);
            if sq.solution > 0 {
                assert_eq!(sq.num_possible, 0);
                assert_eq!(sq.possible, [false; 9]);
            }
        }
    }
}

#[test]
fn t_unsettled_count_matches_board() {
    let (state, ok) = populated(PUZZLE);
    assert!(ok);
    let mut unsettled = 0;
    for row in 0..9 {
        for col in 0..9 {
            if state.square_at(row, col).solution == 0 {
                unsettled += 1;
            }
        }
    }
    assert_eq!(state.unsolved_squares as i32, unsettled);
    let clues = PUZZLE.bytes().filter(|b| (b'1'..=b'9').contains(b)).count() as i32;
    assert_eq!(unsettled, 81 - clues);
}

#[test]
fn t_validity_check_idempotent() {
    let (state, ok) = populated(PUZZLE);
    assert!(ok);
    for row in 0..9 {
        for col in 0..9 {
            let sq = state.square_at(row, col);
            assert_eq!(sq.is_valid(), sq.is_valid());
        }
    }
}

#[test]
fn t_remove_possibility_reports_contradiction() {
    let mut state = State::new();
    for v in 1..=8 {
        assert!(state.remove_possibility(4, 4, v));
    }
    assert_eq!(state.square_at(4, 4).num_possible, 1);
    // Removing the last candidate leaves the square unsettled and empty.
    assert!(!state.remove_possibility(4, 4, 9));
    assert!(!state.square_at(4, 4).is_valid());
}

#[test]
fn t_sub_board_offset() {
    assert_eq!(State::sub_board_offset(0), 0);
    assert_eq!(State::sub_board_offset(2), 0);
    assert_eq!(State::sub_board_offset(3), 1);
    assert_eq!(State::sub_board_offset(5), 1);
    assert_eq!(State::sub_board_offset(6), 2);
    assert_eq!(State::sub_board_offset(8), 2);
}

#[test]
fn t_saturate_settles_naked_single() {
    let mut state = State::new();
    for v in 1..=8 {
        assert!(state.propagate_solution(0, (v - 1) as usize, v as i8));
    }
    // Square (0, 8) has exactly one candidate left: 9.
    assert_eq!(state.square_at(0, 8).num_possible, 1);
    let r = saturate(&mut state);
    assert_eq!(r, PropagateResult::ProgressExhausted);
    assert_eq!(state.square_at(0, 8).solution, 9);
}

#[test]
fn t_propagation_never_duplicates_a_settled_peer() {
    let (mut state, ok) = populated(PUZZLE);
    assert!(ok);
    let r = saturate(&mut state);
    assert_ne!(r, PropagateResult::Contradiction);
    // No settled square shares its value with a settled peer.
    for a in 0..81usize {
        for b in 0..81usize {
            let (ar, ac) = (a / 9, a % 9);
            let (br, bc) = (b / 9, b % 9);
            let peers = a != b && (ar == br || ac == bc || (ar / 3 == br / 3 && ac / 3 == bc / 3));
            if peers {
                let sa = state.square_at(ar, ac);
                let sb = state.square_at(br, bc);
                if sa.solution > 0 && sb.solution > 0 {
                    assert_ne!(sa.solution, sb.solution);
                }
            }
        }
    }
}

#[test]
fn t_unique_solution_sequential() {
    let (state, ok) = populated(PUZZLE);
    assert!(ok);
    let solved = solve(state, 1).expect("the example puzzle is solvable");
    assert_eq!(line_of(&solved), SOLUTION);
    assert_eq!(solved.unsolved_squares, 0);
}

#[test]
fn t_concurrency_equivalence() {
    for workers in [1isize, 2, 4, 16] {
        let (state, ok) = populated(PUZZLE);
        assert!(ok);
        let solved = solve(state, workers).expect("the example puzzle is solvable");
        assert_eq!(line_of(&solved), SOLUTION, "workers = {}", workers);
    }
}

#[test]
fn t_budget_planner() {
    // Room for all requested workers.
    assert_eq!(plan_extra_workers(1, 3, 4), 3);
    // Counter already at the maximum: everything sequential.
    assert_eq!(plan_extra_workers(4, 5, 4), 0);
    // Partial grant.
    assert_eq!(plan_extra_workers(2, 8, 4), 2);
    // Nothing requested.
    assert_eq!(plan_extra_workers(1, 0, 8), 0);
    // A single worker never grants an extra one.
    assert_eq!(plan_extra_workers(1, 8, 1), 0);
}

#[test]
fn t_budget_balances_after_search() {
    let (state, ok) = populated(PUZZLE);
    assert!(ok);
    let coordination = Coordination::new();
    let solved = parallel_solve(state, 0, 0, 4, &coordination);
    assert!(solved.is_some());
    // Every spawned worker gave its reservation back; only the caller's own
    // slot is left.
    assert_eq!(coordination.active_worker_budget.load(Ordering::SeqCst), 1);
    assert!(coordination.solution_found.load(Ordering::SeqCst));
}

#[test]
fn t_worker_entry_releases_budget() {
    let (state, ok) = populated(SOLUTION);
    assert!(ok);
    let coordination = Coordination::new();
    let solved = worker_entry(state, 0, 0, 1, &coordination);
    assert_eq!(line_of(&solved.unwrap()), SOLUTION);
    assert_eq!(coordination.active_worker_budget.load(Ordering::SeqCst), 0);
}

#[test]
fn t_example_puzzle_with_four_workers() {
    let (state, ok) = populated(PUZZLE);
    assert!(ok);
    let solved = solve(state, 4).expect("the example puzzle is solvable");
    assert_eq!(solved.unsolved_squares, 0);
    let line = line_of(&solved);
    assert!(!line.contains('.'));
    assert_eq!(line, SOLUTION);
}

#[test]
fn t_complete_input_short_circuits() {
    let (state, ok) = populated(SOLUTION);
    assert!(ok);
    assert_eq!(state.unsolved_squares, 0);
    let mut saturated = state;
    assert_eq!(saturate(&mut saturated), PropagateResult::BoardComplete);
    let solved = solve(state, 1).expect("a complete board solves immediately");
    assert_eq!(line_of(&solved), SOLUTION);
    let solved_parallel = solve(state, 4).expect("a complete board solves immediately");
    assert_eq!(line_of(&solved_parallel), SOLUTION);
}

#[test]
fn t_conflicting_clues_fail() {
    let (state, ok) = populated(ROW_CONFLICT);
    // The duplicated 5 in row 0 empties the candidates of square (6, 3), so
    // a settle reports the contradiction while the givens are applied.
    assert!(!ok);
    // Searching anyway terminates with overall failure.
    assert!(solve(state, 1).is_none());
}

#[test]
fn t_solved_units_carry_every_value() {
    let (state, ok) = populated(PUZZLE);
    assert!(ok);
    let solved = solve(state, 2).expect("the example puzzle is solvable");
    // Each row, column and 3x3 sub-board holds every value 1..9 exactly once.
    for unit in 0..27usize {
        let mut seen = [false; 10];
        for j in 0..9usize {
            let (row, col) = match unit {
                0..=8 => (unit, j),
                9..=17 => (j, unit - 9),
                _ => ((unit - 18) / 3 * 3 + j / 3, (unit - 18) % 3 * 3 + j % 3),
            };
            let v = solved.square_at(row, col).solution;
            assert!((1..=9).contains(&v));
            assert!(!seen[v as usize], "value {} twice in unit {}", v, unit);
            seen[v as usize] = true;
        }
    }
}

#[test]
fn t_solution_line_marks_unsettled_squares() {
    let mut state = State::new();
    assert_eq!(line_of(&state), ".".repeat(81));
    assert!(state.propagate_solution(0, 0, 5));
    let line = line_of(&state);
    assert!(line.starts_with('5'));
    assert_eq!(&line[1..], &".".repeat(80));
}

#[test]
fn t_populate_sets_clues() {
    let (state, ok) = populated(PUZZLE);
    assert!(ok);
    let bytes = PUZZLE.as_bytes();
    for row in 0..9 {
        for col in 0..9 {
            let b = bytes[row * 9 + col];
            let expected = if b.is_ascii_digit() { (b - b'0') as i8 } else { 0 };
            assert_eq!(state.square_at(row, col).solution, expected);
        }
    }
}
