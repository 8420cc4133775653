//! The board model: squares, candidate bookkeeping, and the settle operation
//! that fixes a square's value and clears that value from every peer.

use vstd::prelude::*;

verus! {

/// One of the 81 board positions: a settled value (0 while unsettled) together
/// with the set of values 1..9 still possible for the cell.
#[derive(Clone, Copy)]
pub struct Square {
    pub solution: i8,
    pub num_possible: i8,
    pub possible: [bool; 9],
}

/// Number of `true` entries in a candidate sequence.
pub open spec fn count_true(s: Seq<bool>) -> int
    decreases s.len(),
{
    if s.len() == 0 {
        0
    } else {
        count_true(s.drop_last()) + if s.last() {
            1int
        } else {
            0int
        }
    }
}

impl Square {
    pub open spec fn settled(self) -> bool {
        self.solution >= 1
    }

    pub open spec fn wf(self) -> bool {
        &&& 0 <= self.solution <= 9
        &&& self.num_possible == count_true(self.possible@)
        &&& (self.settled() ==> self.num_possible == 0)
    }

    pub open spec fn spec_valid(self) -> bool {
        self.settled() || self.num_possible > 0
    }

    /// A square is viable while it is settled or still has candidate values.
    pub fn is_valid(&self) -> (r: bool)
        ensures
            r == self.spec_valid(),
    {
        self.solution > 0 || self.num_possible > 0
    }
}

pub proof fn lemma_count_true_bounds(s: Seq<bool>)
    ensures
        0 <= count_true(s) <= s.len(),
    decreases s.len(),
{
    if s.len() > 0 {
        lemma_count_true_bounds(s.drop_last());
    }
}

pub proof fn lemma_count_true_update(s: Seq<bool>, i: int, b: bool)
    requires
        0 <= i < s.len(),
    ensures
        count_true(s.update(i, b)) == count_true(s) - (if s[i] {
            1int
        } else {
            0int
        }) + (if b {
            1int
        } else {
            0int
        }),
    decreases s.len(),
{
    let t = s.update(i, b);
    if i == s.len() - 1 {
        assert(t.drop_last() =~= s.drop_last());
    } else {
        lemma_count_true_update(s.drop_last(), i, b);
        assert(t.drop_last() =~= s.drop_last().update(i, b));
    }
}

pub proof fn lemma_count_true_all_false(s: Seq<bool>)
    requires
        forall|i: int| 0 <= i < s.len() ==> !s[i],
    ensures
        count_true(s) == 0,
    decreases s.len(),
{
    if s.len() > 0 {
        lemma_count_true_all_false(s.drop_last());
    }
}

pub proof fn lemma_count_true_all_true(s: Seq<bool>)
    requires
        forall|i: int| 0 <= i < s.len() ==> s[i],
    ensures
        count_true(s) == s.len(),
    decreases s.len(),
{
    if s.len() > 0 {
        lemma_count_true_all_true(s.drop_last());
    }
}

pub proof fn lemma_count_true_member(s: Seq<bool>, i: int)
    requires
        0 <= i < s.len(),
        s[i],
    ensures
        count_true(s) >= 1,
{
    lemma_count_true_update(s, i, false);
    lemma_count_true_bounds(s.update(i, false));
}

/// Number of unsettled squares in a sequence.
pub open spec fn count_unsettled(s: Seq<Square>) -> int
    decreases s.len(),
{
    if s.len() == 0 {
        0
    } else {
        count_unsettled(s.drop_last()) + if s.last().settled() {
            0int
        } else {
            1int
        }
    }
}

pub proof fn lemma_count_unsettled_bounds(s: Seq<Square>)
    ensures
        0 <= count_unsettled(s) <= s.len(),
    decreases s.len(),
{
    if s.len() > 0 {
        lemma_count_unsettled_bounds(s.drop_last());
    }
}

pub proof fn lemma_count_unsettled_update(s: Seq<Square>, i: int, sq: Square)
    requires
        0 <= i < s.len(),
    ensures
        count_unsettled(s.update(i, sq)) == count_unsettled(s) - (if s[i].settled() {
            0int
        } else {
            1int
        }) + (if sq.settled() {
            0int
        } else {
            1int
        }),
    decreases s.len(),
{
    let t = s.update(i, sq);
    if i == s.len() - 1 {
        assert(t.drop_last() =~= s.drop_last());
    } else {
        lemma_count_unsettled_update(s.drop_last(), i, sq);
        assert(t.drop_last() =~= s.drop_last().update(i, sq));
    }
}

pub proof fn lemma_count_unsettled_all_unsettled(s: Seq<Square>)
    requires
        forall|i: int| 0 <= i < s.len() ==> !s[i].settled(),
    ensures
        count_unsettled(s) == s.len(),
    decreases s.len(),
{
    if s.len() > 0 {
        lemma_count_unsettled_all_unsettled(s.drop_last());
    }
}

pub proof fn lemma_count_unsettled_member(s: Seq<Square>, i: int)
    requires
        0 <= i < s.len(),
        !s[i].settled(),
    ensures
        count_unsettled(s) >= 1,
{
    let settled_there = Square { solution: 1, num_possible: 0, possible: s[i].possible };
    lemma_count_unsettled_update(s, i, settled_there);
    lemma_count_unsettled_bounds(s.update(i, settled_there));
}

pub proof fn lemma_count_unsettled_some(s: Seq<Square>)
    requires
        count_unsettled(s) > 0,
    ensures
        exists|i: int| 0 <= i < s.len() && !s[i].settled(),
    decreases s.len(),
{
    if s.len() > 0 {
        if s.last().settled() {
            lemma_count_unsettled_some(s.drop_last());
            let i = choose|i: int| 0 <= i < s.drop_last().len() && !s.drop_last()[i].settled();
            assert(!s[i].settled());
        } else {
            assert(!s[s.len() - 1].settled());
        }
    }
}

/// Row of a flat board index.
pub open spec fn row_of(k: int) -> int {
    k / 9
}

/// Column of a flat board index.
pub open spec fn col_of(k: int) -> int {
    k % 9
}

/// Two distinct positions share a row, a column, or a 3x3 sub-board.
pub open spec fn is_peer(a: int, b: int) -> bool {
    a != b && (row_of(a) == row_of(b) || col_of(a) == col_of(b) || (row_of(a) / 3 == row_of(b) / 3
        && col_of(a) / 3 == col_of(b) / 3))
}

pub proof fn lemma_index_compose(r: int, c: int)
    requires
        0 <= r < 9,
        0 <= c < 9,
    ensures
        row_of(r * 9 + c) == r,
        col_of(r * 9 + c) == c,
        0 <= r * 9 + c < 81,
{
    assert(row_of(r * 9 + c) == r && col_of(r * 9 + c) == c) by (nonlinear_arith)
        requires
            0 <= r < 9,
            0 <= c < 9,
    ;
}

pub proof fn lemma_index_decomp(k: int)
    requires
        0 <= k < 81,
    ensures
        k == row_of(k) * 9 + col_of(k),
        0 <= row_of(k) < 9,
        0 <= col_of(k) < 9,
{
    assert(k == (k / 9) * 9 + k % 9 && 0 <= k / 9 < 9 && 0 <= k % 9 < 9) by (nonlinear_arith)
        requires
            0 <= k < 81,
    ;
}

/// The relation between a square before and after the candidate `v` was
/// removed from it.
pub open spec fn cleared(before: Square, after: Square, v: int) -> bool {
    &&& after.solution == before.solution
    &&& after.possible@ == before.possible@.update(v - 1, false)
    &&& after.num_possible == before.num_possible - (if before.possible@[v - 1] {
        1int
    } else {
        0int
    })
}

/// A full solution of the puzzle: complete, well-formed, and with no two
/// peers sharing a value.
pub open spec fn full_solution(s: State) -> bool {
    &&& s.wf()
    &&& s.unsolved_squares == 0
    &&& s.no_conflict()
}

/// At position `k`, the full assignment `s` respects the board `st`: it
/// keeps a settled value, and picks a remaining candidate elsewhere.
pub open spec fn admits_at(st: State, s: State, k: int) -> bool {
    if st.sq(k).settled() {
        s.sq(k).solution == st.sq(k).solution
    } else {
        1 <= s.sq(k).solution <= 9 && st.sq(k).possible@[s.sq(k).solution - 1]
    }
}

/// The board `st` admits the full assignment `s`: every settled value is
/// kept and every other value is among the remaining candidates.
pub open spec fn admits(st: State, s: State) -> bool {
    forall|k: int| 0 <= k < 81 ==> #[trigger] admits_at(st, s, k)
}

/// Whatever assignment the narrowed board `post` admits, the wider board
/// `pre` admitted already.
pub open spec fn narrows(pre: State, post: State) -> bool {
    forall|s: State| #[trigger] admits(post, s) ==> admits(pre, s)
}

/// Every settled square of `pre` keeps its value in `post`.
pub open spec fn settled_preserved(pre: State, post: State) -> bool {
    forall|k: int|
        0 <= k < 81 && (#[trigger] pre.sq(k)).settled() ==> post.sq(k).solution == pre.sq(
            k,
        ).solution
}

/// How one settle call rewrites the board: the target square takes `v` with
/// no candidates left, every peer loses candidate `v`, and every other square
/// is untouched.
pub open spec fn settle_rel(pre: State, post: State, idx: int, v: int) -> bool {
    &&& post.sq(idx).solution == v
    &&& post.sq(idx).num_possible == 0
    &&& (forall|i: int| 0 <= i < 9 ==> !post.sq(idx).possible@[i])
    &&& (forall|k: int|
        0 <= k < 81 && is_peer(k, idx) ==> cleared(pre.sq(k), #[trigger] post.sq(k), v))
    &&& (forall|k: int|
        0 <= k < 81 && k != idx && !is_peer(k, idx) ==> #[trigger] post.sq(k) == pre.sq(k))
}

/// The 9x9 grid, stored row-major, plus the count of unsettled squares.
#[derive(Clone, Copy)]
pub struct State {
    pub unsolved_squares: i8,
    pub board: [Square; 81],
}

impl State {
    /// The square at flat index `k`.
    pub open spec fn sq(self, k: int) -> Square {
        self.board@[k]
    }

    pub open spec fn wf(self) -> bool {
        &&& self.unsolved_squares == count_unsettled(self.board@)
        &&& forall|k: int| 0 <= k < 81 ==> self.sq(k).wf()
    }

    /// No square keeps a candidate that a settled peer already owns.
    pub open spec fn consistent(self) -> bool {
        forall|a: int, b: int|
            0 <= a < 81 && 0 <= b < 81 && is_peer(a, b) && self.sq(a).settled()
                ==> !self.sq(b).possible@[self.sq(a).solution - 1]
    }

    /// No two settled peers carry the same value.
    pub open spec fn no_conflict(self) -> bool {
        forall|a: int, b: int|
            0 <= a < 81 && 0 <= b < 81 && is_peer(a, b) && self.sq(a).settled()
                && self.sq(b).settled() ==> self.sq(a).solution != self.sq(b).solution
    }

    /// Every square with flat index below `n` is settled.
    pub open spec fn prefix_settled(self, n: int) -> bool {
        forall|k: int| 0 <= k < n ==> self.sq(k).settled()
    }

    /// A fresh board: every square unsettled with all nine candidates.
    pub fn new() -> (s: State)
        ensures
            s.wf(),
            s.unsolved_squares == 81,
            forall|k: int| 0 <= k < 81 ==> !s.sq(k).settled() && s.sq(k).num_possible == 9,
            forall|k: int, i: int| 0 <= k < 81 && 0 <= i < 9 ==> s.sq(k).possible@[i],
            s.consistent(),
            s.no_conflict(),
    {
        let fresh = Square { solution: 0, num_possible: 9, possible: [true;9] };
        proof {
            lemma_count_true_all_true(fresh.possible@);
        }
        let s = State { unsolved_squares: 81, board: [fresh;81] };
        proof {
            lemma_count_unsettled_all_unsettled(s.board@);
        }
        s
    }

    /// Sub-board coordinate of a row or column coordinate.
    pub fn sub_board_offset(index: usize) -> (r: usize)
        ensures
            r == index as int / 3,
    {
        index / 3
    }

    /// Removes `solution` from the candidates of the square at `row`, `col`.
    /// Returns whether that square remains viable afterward.
    pub fn remove_possibility(&mut self, row: usize, col: usize, solution: i8) -> (r: bool)
        requires
            old(self).wf(),
            row < 9,
            col < 9,
            1 <= solution <= 9,
        ensures
            final(self).wf(),
            final(self).unsolved_squares == old(self).unsolved_squares,
            forall|k: int|
                0 <= k < 81 && k != row * 9 + col ==> final(self).sq(k) == old(self).sq(k),
            cleared(old(self).sq(row as int * 9 + col), final(self).sq(row as int * 9 + col),
                solution as int),
            r == final(self).sq(row as int * 9 + col).spec_valid(),
    {
        let idx: usize = row * 9 + col;
        let possibility_idx: usize = (solution - 1) as usize;
        let mut sq = self.board[idx];
        proof {
            assert(old(self).sq(idx as int).wf());
            assert(sq == old(self).sq(idx as int));
        }
        if sq.possible[possibility_idx] {
            proof {
                lemma_count_true_member(sq.possible@, possibility_idx as int);
                lemma_count_true_update(sq.possible@, possibility_idx as int, false);
            }
            sq.num_possible = sq.num_possible - 1;
            sq.possible[possibility_idx] = false;
            proof {
                assert(sq.possible@ == old(self).sq(idx as int).possible@.update(
                    possibility_idx as int, false));
                assert(sq.wf());
            }
            self.board[idx] = sq;
            proof {
                lemma_count_unsettled_update(old(self).board@, idx as int, sq);
                assert(forall|k: int|
                    0 <= k < 81 && k != idx as int ==> self.sq(k) == old(self).sq(k));
                assert(self.wf());
            }
        } else {
            proof {
                assert(sq.possible@.update(possibility_idx as int, false) =~= sq.possible@);
                assert(self.board@ =~= old(self).board@);
            }
        }
        self.board[idx].is_valid()
    }

    /// Applies `solution` to the square at `target_row`, `target_col` and
    /// removes it as a possibility from every peer (same row, same column,
    /// same 3x3 sub-board). Returns whether every peer is still viable
    /// afterward; a `false` answer means some peer was left unsettled with no
    /// candidates, a contradiction.
    pub fn propagate_solution(&mut self, target_row: usize, target_col: usize, solution: i8) -> (r:
        bool)
        requires
            old(self).wf(),
            target_row < 9,
            target_col < 9,
            1 <= solution <= 9,
            !old(self).sq(target_row as int * 9 + target_col).settled(),
        ensures
            final(self).wf(),
            old(self).unsolved_squares >= 1,
            final(self).unsolved_squares == old(self).unsolved_squares - 1,
            settle_rel(*old(self), *final(self), target_row as int * 9 + target_col,
                solution as int),
            r == (forall|k: int|
                0 <= k < 81 && is_peer(k, target_row as int * 9 + target_col)
                    ==> final(self).sq(k).spec_valid()),
            old(self).consistent() ==> final(self).consistent(),
            old(self).consistent() && old(self).no_conflict() && old(self).sq(
                target_row as int * 9 + target_col,
            ).possible@[solution - 1] ==> final(self).no_conflict(),
    {
        let idx: usize = target_row * 9 + target_col;
        proof {
            lemma_index_compose(target_row as int, target_col as int);
            assert(old(self).sq(idx as int).wf());
            lemma_count_unsettled_member(old(self).board@, idx as int);
            lemma_count_unsettled_bounds(old(self).board@);
        }
        self.unsolved_squares = self.unsolved_squares - 1;
        let settled_sq = Square { solution, num_possible: 0, possible: [false;9] };
        proof {
            lemma_count_true_all_false(settled_sq.possible@);
        }
        self.board[idx] = settled_sq;
        proof {
            lemma_count_unsettled_update(old(self).board@, idx as int, settled_sq);
            assert(forall|k: int|
                0 <= k < 81 && k != idx as int ==> self.sq(k) == old(self).sq(k));
            assert(self.wf());
        }
        let ghost mid = *self;
        let mut ok = true;
        let mut k: usize = 0;
        while k < 81
            invariant
                self.wf(),
                self.unsolved_squares == mid.unsolved_squares,
                idx == target_row * 9 + target_col,
                idx < 81,
                1 <= solution <= 9,
                k <= 81,
                mid.sq(idx as int) == settled_sq,
                settled_sq.solution == solution,
                settled_sq.num_possible == 0,
                forall|i: int| 0 <= i < 9 ==> !settled_sq.possible@[i],
                forall|t: int|
                    0 <= t < k && is_peer(t, idx as int) ==> cleared(mid.sq(t), #[trigger] self.sq(
                        t,
                    ), solution as int),
                forall|t: int|
                    0 <= t < 81 && (t >= k || !is_peer(t, idx as int)) ==> #[trigger] self.sq(t)
                        == mid.sq(t),
                ok == (forall|t: int|
                    0 <= t < k && is_peer(t, idx as int) ==> (#[trigger] self.sq(
                        t,
                    )).spec_valid()),
            decreases 81 - k,
        {
            if is_peer_cell(k, idx) {
                proof {
                    lemma_index_decomp(k as int);
                }
                let valid = self.remove_possibility(k / 9, k % 9, solution);
                if !valid {
                    ok = false;
                }
            }
            k += 1;
        }
        proof {
            assert(self.sq(idx as int) == settled_sq);
            assert(forall|t: int|
                0 <= t < 81 && t != idx as int && is_peer(t, idx as int)
                    ==> mid.sq(t) == old(self).sq(t));
            assert(settle_rel(*old(self), *self, idx as int, solution as int));
            assert(self.sq(idx as int).spec_valid());
            if old(self).consistent() {
                lemma_settle_preserves_consistent(*old(self), *self, idx as int, solution as int);
                if old(self).no_conflict() && old(self).sq(idx as int).possible@[solution - 1] {
                    lemma_settle_preserves_no_conflict(*old(self), *self, idx as int,
                        solution as int);
                }
            }
        }
        ok
    }

    /// Digit value of an input byte: 1..9 for the characters '1'..'9', 0 (no
    /// clue) for anything else.
    pub open spec fn clue_of(b: u8) -> int {
        if 49 <= b <= 57 {
            b as int - 48
        } else {
            0
        }
    }

    /// The full assignment `s` carries every clue of the input line.
    pub open spec fn matches_clues(input: Seq<u8>, s: State) -> bool {
        forall|k: int|
            0 <= k < 81 && Self::clue_of(#[trigger] input[k]) != 0 ==> s.sq(k).solution
                == Self::clue_of(input[k])
    }

    /// Settles every given clue of an 81-character row-major input line on a
    /// fresh board. Returns false as soon as a settle reports that some
    /// square was left unsettled without candidates, a contradiction among
    /// the givens; in that case no full solution both carries the clues and
    /// was admitted by the starting board.
    pub fn populate_board_using_input(&mut self, input: &[u8]) -> (ok: bool)
        requires
            old(self).wf(),
            forall|k: int| 0 <= k < 81 ==> !old(self).sq(k).settled(),
            forall|k: int| 0 <= k < 81 ==> old(self).sq(k).spec_valid(),
            input@.len() == 81,
        ensures
            final(self).wf(),
            final(self).consistent(),
            ok ==> forall|k: int|
                0 <= k < 81 ==> final(self).sq(k).solution == Self::clue_of(input@[k]),
            ok ==> forall|k: int| 0 <= k < 81 ==> final(self).sq(k).spec_valid(),
            !ok ==> exists|k: int| 0 <= k < 81 && !final(self).sq(k).spec_valid(),
            forall|s: State|
                full_solution(s) && Self::matches_clues(input@, s) && #[trigger] admits(
                    *old(self),
                    s,
                ) ==> admits(*final(self), s),
            !ok ==> forall|s: State|
                full_solution(s) && Self::matches_clues(input@, s) ==> !(#[trigger] admits(
                    *old(self),
                    s,
                )),
    {
        proof {
            assert(old(self).consistent());
        }
        let mut k: usize = 0;
        while k < 81
            invariant
                self.wf(),
                self.consistent(),
                k <= 81,
                input@.len() == 81,
                forall|t: int|
                    0 <= t < k ==> (#[trigger] self.sq(t)).solution == Self::clue_of(input@[t]),
                forall|t: int| k <= t < 81 ==> !(#[trigger] self.sq(t)).settled(),
                forall|t: int| 0 <= t < 81 ==> (#[trigger] self.sq(t)).spec_valid(),
                forall|s: State|
                    full_solution(s) && Self::matches_clues(input@, s) && #[trigger] admits(
                        *old(self),
                        s,
                    ) ==> admits(*self, s),
            decreases 81 - k,
        {
            let b = input[k];
            if b >= 49 && b <= 57 {
                let v = (b - 48) as i8;
                proof {
                    lemma_index_decomp(k as int);
                }
                let ghost before = *self;
                let r = self.propagate_solution(k / 9, k % 9, v);
                proof {
                    assert forall|s: State|
                        full_solution(s) && Self::matches_clues(input@, s) && #[trigger] admits(
                            *old(self),
                            s,
                        ) implies admits(*self, s) by {
                        assert(admits(before, s));
                        assert(s.sq(k as int).solution == Self::clue_of(input@[k as int]));
                        lemma_settle_keeps_admitted(before, *self, k as int, v as int, s);
                    }
                }
                if !r {
                    proof {
                        assert(exists|i: int| 0 <= i < 81 && !self.sq(i).spec_valid());
                        let bad = choose|i: int| 0 <= i < 81 && !self.sq(i).spec_valid();
                        assert forall|s: State|
                            full_solution(s) && Self::matches_clues(input@, s) implies !(
                        #[trigger] admits(*old(self), s)) by {
                            if admits(*old(self), s) {
                                lemma_invalid_square_admits_none(*self, bad, s);
                            }
                        }
                    }
                    return false;
                }
            }
            k += 1;
        }
        true
    }

    /// The square at `row`, `col`.
    pub fn square_at(&self, row: usize, col: usize) -> (sq: Square)
        requires
            row < 9,
            col < 9,
        ensures
            sq == self.sq(row as int * 9 + col),
    {
        proof {
            lemma_index_compose(row as int, col as int);
        }
        self.board[row * 9 + col]
    }

    /// The 81 settled values as bytes, row-major: '1'..'9' for a settled
    /// square, '.' for an unsettled one.
    pub fn solution_line(&self) -> (out: Vec<u8>)
        requires
            self.wf(),
        ensures
            out@.len() == 81,
            forall|k: int|
                0 <= k < 81 ==> out@[k] == (if self.sq(k).settled() {
                    (48 + self.sq(k).solution) as u8
                } else {
                    46u8
                }),
    {
        let mut out: Vec<u8> = Vec::new();
        let mut k: usize = 0;
        while k < 81
            invariant
                self.wf(),
                k <= 81,
                out@.len() == k,
                forall|t: int|
                    0 <= t < k ==> out@[t] == (if self.sq(t).settled() {
                        (48 + self.sq(t).solution) as u8
                    } else {
                        46u8
                    }),
            decreases 81 - k,
        {
            proof {
                assert(self.sq(k as int).wf());
            }
            let sq = self.board[k];
            if sq.solution > 0 {
                out.push((48 + sq.solution) as u8);
            } else {
                out.push(46u8);
            }
            k += 1;
        }
        out
    }
}

/// A settled square's candidate set is always empty: on a well-formed board,
/// being settled and keeping candidates never hold together.
pub proof fn lemma_settled_square_has_no_candidates(s: State, k: int)
    requires
        s.wf(),
        0 <= k < 81,
        s.sq(k).settled(),
    ensures
        s.sq(k).num_possible == 0,
        forall|i: int| 0 <= i < 9 ==> !s.sq(k).possible@[i],
{
    assert forall|i: int| 0 <= i < 9 implies !s.sq(k).possible@[i] by {
        if s.sq(k).possible@[i] {
            lemma_count_true_member(s.sq(k).possible@, i);
        }
    }
}

/// `unsolved_squares` always equals the number of unsettled squares.
pub proof fn lemma_unsolved_count_matches(s: State)
    requires
        s.wf(),
    ensures
        s.unsolved_squares == count_unsettled(s.board@),
        0 <= s.unsolved_squares <= 81,
{
    lemma_count_unsettled_bounds(s.board@);
}

/// The validity check is a pure function of the square: two checks of an
/// unchanged square give one answer.
pub proof fn lemma_validity_check_idempotent(sq: Square, r1: bool, r2: bool)
    requires
        r1 == sq.spec_valid(),
        r2 == sq.spec_valid(),
    ensures
        r1 == r2,
{
}

/// Propagation soundness: on a board whose candidate sets exclude every
/// settled peer's value, no candidate of any square duplicates a settled
/// peer — so the propagation engine, which only ever settles a square to a
/// remaining candidate, never settles a value already present among the
/// square's settled peers.
pub proof fn lemma_candidates_exclude_settled_peers(s: State, k: int, p: int)
    requires
        s.wf(),
        s.consistent(),
        0 <= k < 81,
        0 <= p < 81,
        is_peer(p, k),
        s.sq(p).settled(),
    ensures
        !s.sq(k).possible@[s.sq(p).solution - 1],
{
}

pub proof fn lemma_count_true_two_members(s: Seq<bool>, i: int, j: int)
    requires
        0 <= i < s.len(),
        0 <= j < s.len(),
        i != j,
        s[i],
        s[j],
    ensures
        count_true(s) >= 2,
{
    lemma_count_true_update(s, i, false);
    lemma_count_true_member(s.update(i, false), j);
}

/// A complete board has every square settled.
pub proof fn lemma_complete_all_settled(s: State)
    requires
        s.wf(),
        s.unsolved_squares == 0,
    ensures
        forall|k: int| 0 <= k < 81 ==> (#[trigger] s.sq(k)).settled(),
{
    assert forall|k: int| 0 <= k < 81 implies (#[trigger] s.sq(k)).settled() by {
        if !s.sq(k).settled() {
            lemma_count_unsettled_member(s.board@, k);
        }
    }
}

/// Settling a square to the value a full solution gives it never stops the
/// board from admitting that solution: the only candidates removed are `v`
/// at the peers, where the solution, being conflict-free, differs from `v`.
pub proof fn lemma_settle_keeps_admitted(pre: State, post: State, idx: int, v: int, s: State)
    requires
        pre.wf(),
        post.wf(),
        0 <= idx < 81,
        1 <= v <= 9,
        settle_rel(pre, post, idx, v),
        full_solution(s),
        admits(pre, s),
        s.sq(idx).solution == v,
    ensures
        admits(post, s),
{
    lemma_complete_all_settled(s);
    assert forall|k: int| 0 <= k < 81 implies #[trigger] admits_at(post, s, k) by {
        assert(admits_at(pre, s, k));
        if k == idx {
        } else if is_peer(k, idx) {
            assert(cleared(pre.sq(k), post.sq(k), v));
            if !pre.sq(k).settled() {
                assert(s.sq(k).settled() && s.sq(idx).settled());
                assert(s.sq(k).solution != s.sq(idx).solution);
                assert(post.sq(k).possible@[s.sq(k).solution - 1] == pre.sq(k).possible@[s.sq(
                    k,
                ).solution - 1]);
            }
        } else {
            assert(post.sq(k) == pre.sq(k));
        }
    }
}

/// Settling one of a square's own remaining candidates only narrows what
/// the board admits: every assignment the new board admits, the old board
/// admitted already.
pub proof fn lemma_settle_narrows(pre: State, post: State, idx: int, v: int)
    requires
        pre.wf(),
        post.wf(),
        0 <= idx < 81,
        1 <= v <= 9,
        settle_rel(pre, post, idx, v),
        !pre.sq(idx).settled(),
        pre.sq(idx).possible@[v - 1],
    ensures
        narrows(pre, post),
{
    assert forall|s: State| #[trigger] admits(post, s) implies admits(pre, s) by {
        assert forall|k: int| 0 <= k < 81 implies #[trigger] admits_at(pre, s, k) by {
            assert(admits_at(post, s, k));
            if k == idx {
            } else if is_peer(k, idx) {
                assert(cleared(pre.sq(k), post.sq(k), v));
                if !pre.sq(k).settled() {
                    assert(post.sq(k).possible@ == pre.sq(k).possible@.update(v - 1, false));
                }
            } else {
                assert(post.sq(k) == pre.sq(k));
            }
        }
    }
}

/// A complete board admits its own assignment.
pub proof fn lemma_complete_admits_itself(s: State)
    requires
        s.wf(),
        s.unsolved_squares == 0,
    ensures
        admits(s, s),
{
    lemma_complete_all_settled(s);
    assert forall|k: int| 0 <= k < 81 implies #[trigger] admits_at(s, s, k) by {}
}

/// A board whose squares are all unsettled with every candidate left admits
/// any full solution.
pub proof fn lemma_fresh_admits(st: State, s: State)
    requires
        forall|k: int| 0 <= k < 81 ==> !(#[trigger] st.sq(k)).settled(),
        forall|k: int, i: int| 0 <= k < 81 && 0 <= i < 9 ==> st.sq(k).possible@[i],
        full_solution(s),
    ensures
        admits(st, s),
{
    lemma_complete_all_settled(s);
    assert forall|k: int| 0 <= k < 81 implies #[trigger] admits_at(st, s, k) by {
        assert(s.sq(k).wf());
    }
}

/// A board with an unsettled square out of candidates admits no solution.
pub proof fn lemma_invalid_square_admits_none(st: State, k: int, s: State)
    requires
        st.wf(),
        0 <= k < 81,
        !st.sq(k).spec_valid(),
        full_solution(s),
    ensures
        !admits(st, s),
{
    if admits(st, s) {
        assert(admits_at(st, s, k));
        lemma_count_true_member(st.sq(k).possible@, s.sq(k).solution - 1);
    }
}

/// A lone candidate is forced: every solution the board admits settles that
/// square to the one remaining candidate.
pub proof fn lemma_lone_candidate_forced(st: State, k: int, v: int, s: State)
    requires
        st.wf(),
        0 <= k < 81,
        !st.sq(k).settled(),
        st.sq(k).num_possible == 1,
        1 <= v <= 9,
        st.sq(k).possible@[v - 1],
        full_solution(s),
        admits(st, s),
    ensures
        s.sq(k).solution == v,
{
    assert(admits_at(st, s, k));
    if s.sq(k).solution != v {
        lemma_count_true_two_members(st.sq(k).possible@, v - 1, s.sq(k).solution - 1);
    }
}

/// Peer test on flat indices.
fn is_peer_cell(a: usize, b: usize) -> (r: bool)
    requires
        a < 81,
        b < 81,
    ensures
        r == is_peer(a as int, b as int),
{
    let ar = a / 9;
    let ac = a % 9;
    let br = b / 9;
    let bc = b % 9;
    a != b && (ar == br || ac == bc || (ar / 3 == br / 3 && ac / 3 == bc / 3))
}

/// Settling a square never revives a candidate, so a board whose candidate
/// sets already exclude every settled peer's value keeps that shape.
pub proof fn lemma_settle_preserves_consistent(pre: State, post: State, idx: int, v: int)
    requires
        pre.wf(),
        post.wf(),
        0 <= idx < 81,
        1 <= v <= 9,
        settle_rel(pre, post, idx, v),
        pre.consistent(),
    ensures
        post.consistent(),
{
    assert forall|a: int, b: int|
        0 <= a < 81 && 0 <= b < 81 && is_peer(a, b) && post.sq(a).settled() implies !post.sq(
        b,
    ).possible@[post.sq(a).solution - 1] by {
        assert(pre.sq(a).wf() && pre.sq(b).wf());
        if a == idx {
            assert(cleared(pre.sq(b), post.sq(b), v));
        } else {
            let sol = pre.sq(a).solution;
            if is_peer(a, idx) {
                assert(cleared(pre.sq(a), post.sq(a), v));
            }
            assert(post.sq(a).solution == sol);
            assert(pre.sq(a).settled());
            assert(!pre.sq(b).possible@[sol - 1]);
            if b == idx {
                assert(!post.sq(b).possible@[sol - 1]);
            } else if is_peer(b, idx) {
                assert(cleared(pre.sq(b), post.sq(b), v));
                assert(post.sq(b).possible@ == pre.sq(b).possible@.update(v - 1, false));
            } else {
                assert(post.sq(b) == pre.sq(b));
            }
        }
    }
}

/// Settling a square to one of its own candidates never makes two peers share
/// a value, provided candidate sets already excluded every settled peer's
/// value.
pub proof fn lemma_settle_preserves_no_conflict(pre: State, post: State, idx: int, v: int)
    requires
        pre.wf(),
        post.wf(),
        0 <= idx < 81,
        1 <= v <= 9,
        settle_rel(pre, post, idx, v),
        pre.consistent(),
        pre.no_conflict(),
        pre.sq(idx).possible@[v - 1],
    ensures
        post.no_conflict(),
{
    assert forall|a: int, b: int|
        0 <= a < 81 && 0 <= b < 81 && is_peer(a, b) && post.sq(a).settled() && post.sq(
        b,
    ).settled() implies post.sq(a).solution != post.sq(b).solution by {
        assert(pre.sq(a).wf() && pre.sq(b).wf());
        if a != idx {
            if is_peer(a, idx) {
                assert(cleared(pre.sq(a), post.sq(a), v));
            } else {
                assert(post.sq(a) == pre.sq(a));
            }
            assert(post.sq(a).solution == pre.sq(a).solution);
            assert(pre.sq(a).settled());
        }
        if b != idx {
            if is_peer(b, idx) {
                assert(cleared(pre.sq(b), post.sq(b), v));
            } else {
                assert(post.sq(b) == pre.sq(b));
            }
            assert(post.sq(b).solution == pre.sq(b).solution);
            assert(pre.sq(b).settled());
        }
        if a == idx {
            assert(!pre.sq(idx).possible@[pre.sq(b).solution - 1]);
        } else if b == idx {
            assert(!pre.sq(idx).possible@[pre.sq(a).solution - 1]);
        } else {
            assert(pre.sq(a).solution != pre.sq(b).solution);
        }
    }
}

} // verus!
