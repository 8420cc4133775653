//! The nine rows, nine columns and nine 3x3 sub-boards, each a group of
//! nine squares, and the proof that a full solution carries every value
//! 1..9 exactly once in each group: the squares of a group are pairwise
//! peers, so their nine values are pairwise distinct, and nine distinct
//! values drawn from 1..9 leave none out.

use vstd::prelude::*;
use vstd::seq_lib::*;
use vstd::set_lib::*;

use crate::board::State;
use crate::board::full_solution;
use crate::board::is_peer;
use crate::board::lemma_complete_all_settled;
use crate::board::lemma_index_compose;

verus! {

/// Flat index of the `j`-th square of group `u`: groups 0..9 are the rows,
/// 9..18 the columns, 18..27 the 3x3 sub-boards.
pub open spec fn unit_cell(u: int, j: int) -> int {
    if u < 9 {
        u * 9 + j
    } else if u < 18 {
        j * 9 + (u - 9)
    } else {
        ((u - 18) / 3 * 3 + j / 3) * 9 + ((u - 18) % 3 * 3 + j % 3)
    }
}

pub proof fn lemma_unit_cell_in_range(u: int, j: int)
    requires
        0 <= u < 27,
        0 <= j < 9,
    ensures
        0 <= unit_cell(u, j) < 81,
{
    if u < 9 {
        lemma_index_compose(u, j);
    } else if u < 18 {
        lemma_index_compose(j, u - 9);
    } else {
        lemma_index_compose((u - 18) / 3 * 3 + j / 3, (u - 18) % 3 * 3 + j % 3);
    }
}

/// Distinct squares of one group are peers: they share the group's row,
/// column, or sub-board.
pub proof fn lemma_unit_cells_are_peers(u: int, j1: int, j2: int)
    requires
        0 <= u < 27,
        0 <= j1 < 9,
        0 <= j2 < 9,
        j1 != j2,
    ensures
        is_peer(unit_cell(u, j1), unit_cell(u, j2)),
{
    if u < 9 {
        lemma_index_compose(u, j1);
        lemma_index_compose(u, j2);
    } else if u < 18 {
        lemma_index_compose(j1, u - 9);
        lemma_index_compose(j2, u - 9);
    } else {
        let b = u - 18;
        let r1 = b / 3 * 3 + j1 / 3;
        let c1 = b % 3 * 3 + j1 % 3;
        let r2 = b / 3 * 3 + j2 / 3;
        let c2 = b % 3 * 3 + j2 % 3;
        lemma_index_compose(r1, c1);
        lemma_index_compose(r2, c2);
        assert(r1 / 3 == b / 3 && r2 / 3 == b / 3 && c1 / 3 == b % 3 && c2 / 3 == b % 3)
            by (nonlinear_arith)
            requires
                0 <= b < 9,
                0 <= j1 < 9,
                0 <= j2 < 9,
                r1 == b / 3 * 3 + j1 / 3,
                c1 == b % 3 * 3 + j1 % 3,
                r2 == b / 3 * 3 + j2 / 3,
                c2 == b % 3 * 3 + j2 % 3,
        ;
        if r1 == r2 && c1 == c2 {
            assert(j1 / 3 == j2 / 3 && j1 % 3 == j2 % 3);
            assert(j1 == 3 * (j1 / 3) + j1 % 3 && j2 == 3 * (j2 / 3) + j2 % 3) by (nonlinear_arith)
                requires
                    0 <= j1 < 9,
                    0 <= j2 < 9,
            ;
        }
    }
}

/// In a full solution, every group carries each value 1..9 exactly once:
/// here, that each value appears somewhere in the group; that it appears at
/// most once is `no_conflict` itself, since the group's squares are peers.
pub proof fn lemma_full_solution_units_complete(s: State, u: int, v: int)
    requires
        full_solution(s),
        0 <= u < 27,
        1 <= v <= 9,
    ensures
        exists|j: int| 0 <= j < 9 && s.sq(#[trigger] unit_cell(u, j)).solution == v,
{
    lemma_complete_all_settled(s);
    let vals = Seq::new(9, |j: int| s.sq(unit_cell(u, j)).solution as int);
    assert forall|i: int, j: int|
        0 <= i < 9 && 0 <= j < 9 && i != j implies vals[i] != vals[j] by {
        lemma_unit_cells_are_peers(u, i, j);
        lemma_unit_cell_in_range(u, i);
        lemma_unit_cell_in_range(u, j);
        assert(s.sq(unit_cell(u, i)).settled() && s.sq(unit_cell(u, j)).settled());
    }
    assert(vals.no_duplicates());
    vals.unique_seq_to_set();
    seq_to_set_is_finite(vals);
    assert forall|x: int| vals.to_set().contains(x) implies set_int_range(1, 10).contains(
        x,
    ) by {
        let j = choose|j: int| 0 <= j < vals.len() && vals[j] == x;
        lemma_unit_cell_in_range(u, j);
        assert(s.sq(unit_cell(u, j)).wf());
        assert(s.sq(unit_cell(u, j)).settled());
    }
    lemma_int_range(1, 10);
    lemma_subset_equality(vals.to_set(), set_int_range(1, 10));
    assert(vals.to_set().contains(v));
    let j = choose|j: int| 0 <= j < vals.len() && vals[j] == v;
    assert(s.sq(unit_cell(u, j)).solution == v);
}

} // verus!
