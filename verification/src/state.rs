//! The board: 81 cells in row-major order plus the peer table, with the
//! fixpoint propagation algorithm that drives "naked singles"
//! elimination to a full grid, a stall, or a conflict.

use vstd::prelude::*;
use vstd::string::StrSliceExecFns;
use vstd::pervasive::VecAdditionalExecFns;

verus! {

use crate::cell::{
    candidate_count, fixed_to, has_digit, mask_wf, lemma_count_bounds, lemma_fixed_unique,
    GridCell, FULL_MASK,
};
use crate::constraints::{
    lemma_peer_table_laws, peer_rel, table_wf, Constraints,
};
use crate::errors::{BuildError, SolveError};
use crate::text::{digit_char, push_digit};

/// A well-formed board: exactly 81 cells, each with a well-formed,
/// never-empty candidate mask.
pub open spec fn board_wf(cells: Seq<GridCell>) -> bool {
    cells.len() == 81 && forall|i: int| 0 <= i < 81 ==> mask_wf(#[trigger] cells[i]@)
}

/// The decimal digit denoted by the character `c`, assuming `c` is one
/// of '0' through '9'.
pub open spec fn digit_of(c: char) -> int {
    c as int - 48
}

/// `c` is one of the characters '0' through '9'.
pub open spec fn is_digit_char(c: char) -> bool {
    48 <= c as int <= 57
}

/// The candidate mask a puzzle character denotes: '0' means an unknown
/// cell with all nine candidates, a digit means a collapsed cell.
pub open spec fn cell_for(c: char) -> u16 {
    if c as int == 48 {
        FULL_MASK
    } else {
        1u16 << (digit_of(c) as u16)
    }
}

/// The cells are exactly what the 81-character puzzle string denotes.
pub open spec fn parsed_from(s: Seq<char>, cells: Seq<GridCell>) -> bool {
    &&& s.len() == 81
    &&& cells.len() == 81
    &&& forall|k: int| 0 <= k < 81 ==> #[trigger] cells[k]@ == cell_for(s[k])
}

/// The exact failure that `State::from` reports for the input `s`.
pub open spec fn from_fails_with(s: Seq<char>, e: BuildError) -> bool {
    match e {
        BuildError::WrongLength(l) => l == s.len() && s.len() != 81,
        BuildError::InvalidChar(k) => {
            &&& s.len() == 81
            &&& 0 <= k < 81
            &&& !is_digit_char(s[k as int])
            &&& forall|k2: int| 0 <= k2 < k ==> is_digit_char(#[trigger] s[k2])
        },
        // the peer table is computed and proven well formed, so this
        // failure can never be reported
        BuildError::MalformedPeerTable => false,
    }
}

/// The total entropy of a board: the sum of its cells' candidate
/// counts.
pub open spec fn total_entropy_spec(cells: Seq<GridCell>) -> int
    decreases cells.len(),
{
    if cells.len() == 0 {
        0
    } else {
        total_entropy_spec(cells.drop_last()) + candidate_count(cells.last()@)
    }
}

/// The cell index at offset `k` of block `b`, in the block's row-major
/// order.
pub open spec fn block_cell(b: int, k: int) -> int {
    (b / 3) * 27 + (b % 3) * 3 + (k / 3) * 9 + k % 3
}

/// The digit a cell renders as: the unique digit it is fixed to, or 0
/// while it still holds several candidates.
pub open spec fn out_digit(m: u16) -> int {
    if exists|v: u8| fixed_to(m, v) {
        (choose|v: u8| fixed_to(m, v)) as int
    } else {
        0
    }
}

/// The 81-character rendering of a board: each cell's determined digit,
/// with '0' for cells still undetermined.
pub open spec fn render_spec(cells: Seq<GridCell>) -> Seq<char> {
    Seq::new(cells.len(), |k: int| digit_char(out_digit(cells[k]@)))
}

/// How many characters of the puzzle string are given clues, that is,
/// not '0'.
pub open spec fn given_count(s: Seq<char>) -> int
    decreases s.len(),
{
    if s.len() == 0 {
        0
    } else {
        given_count(s.drop_last()) + (if s.last() as int != 48 {
            1int
        } else {
            0int
        })
    }
}

/// `b` arises from `a` by eliminations alone: no cell ever regains a
/// candidate.
pub open spec fn only_eliminations(a: Seq<GridCell>, b: Seq<GridCell>) -> bool {
    &&& b.len() == a.len()
    &&& forall|i: int, v: u8|
        0 <= i < a.len() && #[trigger] has_digit(b[i]@, v) ==> has_digit(a[i]@, v)
}

/// Every cell of `a` that is already determined is untouched in `b`.
pub open spec fn determined_preserved(a: Seq<GridCell>, b: Seq<GridCell>) -> bool {
    forall|i: int| 0 <= i < a.len() && candidate_count(#[trigger] a[i]@) == 1 ==> b[i]@ == a[i]@
}

/// No peer of cell `i` still holds digit `v`.
pub open spec fn no_peer_has(cells: Seq<GridCell>, i: int, v: u8) -> bool {
    forall|j: int| #[trigger] peer_rel(i, j) ==> !has_digit(cells[j]@, v)
}

/// Every candidate missing from `b` but present in `a` was eliminated
/// for a reason: some peer of its cell is fixed to that digit in `b`.
pub open spec fn justified(a: Seq<GridCell>, b: Seq<GridCell>) -> bool {
    forall|i: int, v: u8|
        0 <= i < 81 && has_digit(a[i]@, v) && !(#[trigger] has_digit(b[i]@, v)) ==> exists|j: int|
            #[trigger] peer_rel(j, i) && fixed_to(b[j]@, v)
}

/// Every cell is determined.
pub open spec fn solved_board(cells: Seq<GridCell>) -> bool {
    forall|i: int| 0 <= i < 81 ==> candidate_count(#[trigger] cells[i]@) == 1
}

/// Every determined cell's digit has been excluded from all its peers;
/// in particular no two determined peers share a digit.
pub open spec fn propagated(cells: Seq<GridCell>) -> bool {
    forall|i: int, v: u8|
        0 <= i < 81 && #[trigger] fixed_to(cells[i]@, v) ==> no_peer_has(cells, i, v)
}

/// The indices already applied all hold determined cells whose digit
/// has been excluded from every peer.
pub open spec fn applied_inv(applied: Seq<bool>, cells: Seq<GridCell>) -> bool {
    &&& forall|i: int| 0 <= i < 81 && #[trigger] applied[i] ==> candidate_count(cells[i]@) == 1
    &&& forall|i: int, v: u8|
        0 <= i < 81 && applied[i] && #[trigger] fixed_to(cells[i]@, v) ==> no_peer_has(
            cells,
            i,
            v,
        )
}

/// How many entries of `s` are true.
pub open spec fn count_true(s: Seq<bool>) -> int
    decreases s.len(),
{
    if s.len() == 0 {
        0
    } else {
        count_true(s.drop_last()) + (if s.last() {
            1int
        } else {
            0int
        })
    }
}

proof fn lemma_count_true_bounds(s: Seq<bool>)
    ensures
        0 <= count_true(s) <= s.len(),
    decreases s.len(),
{
    if s.len() > 0 {
        lemma_count_true_bounds(s.drop_last());
    }
}

proof fn lemma_count_true_update(s: Seq<bool>, i: int)
    requires
        0 <= i < s.len(),
        !s[i],
    ensures
        count_true(s.update(i, true)) == count_true(s) + 1,
    decreases s.len(),
{
    let t = s.update(i, true);
    if i == s.len() - 1 {
        assert(t.drop_last() =~= s.drop_last());
        assert(t.last());
    } else {
        assert(t.drop_last() =~= s.drop_last().update(i, true));
        lemma_count_true_update(s.drop_last(), i);
        assert(t.last() == s.last());
    }
}

proof fn lemma_count_true_all(s: Seq<bool>)
    requires
        count_true(s) == s.len(),
    ensures
        forall|i: int| 0 <= i < s.len() ==> s[i],
    decreases s.len(),
{
    if s.len() > 0 {
        lemma_count_true_bounds(s.drop_last());
        assert(s.last());
        lemma_count_true_all(s.drop_last());
        assert forall|i: int| 0 <= i < s.len() implies s[i] by {
            if i < s.len() - 1 {
                assert(s.drop_last()[i]);
            }
        }
    }
}

proof fn lemma_count_true_missing(s: Seq<bool>)
    requires
        count_true(s) < s.len(),
    ensures
        exists|i: int| 0 <= i < s.len() && !s[i],
    decreases s.len(),
{
    if s.len() > 0 {
        if !s.last() {
            assert(!s[s.len() - 1]);
        } else {
            lemma_count_true_missing(s.drop_last());
            let i = choose|i: int| 0 <= i < s.len() - 1 && !s.drop_last()[i];
            assert(!s[i]);
        }
    }
}

/// The board: 81 cells in row-major order and the shared peer table.
#[derive(Debug)]
pub struct State {
    cells: Vec<GridCell>,
    constraints: Constraints,
}

impl View for State {
    type V = Seq<GridCell>;

    closed spec fn view(&self) -> Seq<GridCell> {
        self.cells@
    }
}

impl State {
    /// The peer table the board propagates along.
    pub closed spec fn table(&self) -> Seq<Seq<usize>> {
        self.constraints@
    }

    /// A well-formed board with a well-formed peer table.
    pub open spec fn wf(&self) -> bool {
        board_wf(self@) && table_wf(self.table())
    }

    /// Builds a board from an 81-character puzzle string: '0' becomes a
    /// cell with all nine candidates, a digit a collapsed cell. The
    /// result is `Ok` exactly when the string has length 81 and every
    /// character is a decimal digit; otherwise the reported error names
    /// the first offence.
    pub fn from(input: &str) -> (r: Result<State, BuildError>)
        ensures
            match r {
                Ok(st) => st.wf() && parsed_from(input@, st@),
                Err(e) => from_fails_with(input@, e),
            },
            (r is Ok) <==> (input@.len() == 81 && (forall|k: int|
                0 <= k < 81 ==> is_digit_char(#[trigger] input@[k]))),
    {
        let n = input.unicode_len();
        if n != 81 {
            return Err(BuildError::WrongLength(n));
        }
        let mut cells: Vec<GridCell> = Vec::new();
        let mut i: usize = 0;
        while i < 81
            invariant
                i <= 81,
                cells@.len() == i,
                input@.len() == 81,
                forall|k: int| 0 <= k < i ==> is_digit_char(#[trigger] input@[k]),
                forall|k: int| 0 <= k < i ==> #[trigger] cells@[k]@ == cell_for(input@[k]),
                forall|k: int| 0 <= k < i ==> mask_wf(#[trigger] cells@[k]@),
            decreases 81 - i,
        {
            let c = input.get_char(i);
            let u = c as u32;
            if u < 48 || u > 57 {
                return Err(BuildError::InvalidChar(i));
            }
            if u == 48 {
                cells.push(GridCell::new());
            } else {
                cells.push(GridCell::new_collapsed((u - 48) as u8));
            }
            i = i + 1;
        }
        match Constraints::new() {
            Ok(cons) => Ok(State { cells, constraints: cons }),
            Err(_) => Err(BuildError::MalformedPeerTable),
        }
    }

    /// The sum of all 81 cells' entropies: 81 on a fully determined
    /// board, up to 729 on one about which nothing is known.
    pub fn total_entropy(&self) -> (r: u32)
        requires
            self@.len() == 81,
        ensures
            r as int == total_entropy_spec(self@),
    {
        let mut acc: u32 = 0;
        let mut i: usize = 0;
        while i < 81
            invariant
                i <= 81,
                self@.len() == 81,
                acc as int == total_entropy_spec(self@.take(i as int)),
                acc <= 9 * i,
            decreases 81 - i,
        {
            let e = self.cells[i].entropy();
            proof {
                lemma_count_bounds(self@[i as int]@);
                assert(self@.take(i as int + 1).drop_last() =~= self@.take(i as int));
                assert(self@.take(i as int + 1).last() == self@[i as int]);
            }
            acc = acc + (e as u32);
            i = i + 1;
        }
        proof {
            assert(self@.take(81) =~= self@);
        }
        acc
    }

    /// The cells of row `row`, left to right.
    pub fn iter_row(&self, row: usize) -> (r: Vec<GridCell>)
        requires
            self@.len() == 81,
            row < 9,
        ensures
            r@.len() == 9,
            forall|k: int| 0 <= k < 9 ==> #[trigger] r@[k] == self@[row * 9 + k],
    {
        let mut out: Vec<GridCell> = Vec::new();
        let mut k: usize = 0;
        while k < 9
            invariant
                k <= 9,
                self@.len() == 81,
                row < 9,
                out@.len() == k,
                forall|k2: int| 0 <= k2 < k ==> #[trigger] out@[k2] == self@[row * 9 + k2],
            decreases 9 - k,
        {
            out.push(self.cells[row * 9 + k]);
            k = k + 1;
        }
        out
    }

    /// The cells of column `col`, top to bottom.
    pub fn iter_col(&self, col: usize) -> (r: Vec<GridCell>)
        requires
            self@.len() == 81,
            col < 9,
        ensures
            r@.len() == 9,
            forall|k: int| 0 <= k < 9 ==> #[trigger] r@[k] == self@[k * 9 + col],
    {
        let mut out: Vec<GridCell> = Vec::new();
        let mut k: usize = 0;
        while k < 9
            invariant
                k <= 9,
                self@.len() == 81,
                col < 9,
                out@.len() == k,
                forall|k2: int| 0 <= k2 < k ==> #[trigger] out@[k2] == self@[k2 * 9 + col],
            decreases 9 - k,
        {
            out.push(self.cells[k * 9 + col]);
            k = k + 1;
        }
        out
    }

    /// The cells of block `block`, in the block's own row-major order.
    pub fn iter_block(&self, block: usize) -> (r: Vec<GridCell>)
        requires
            self@.len() == 81,
            block < 9,
        ensures
            r@.len() == 9,
            forall|k: int| 0 <= k < 9 ==> #[trigger] r@[k] == self@[block_cell(block as int, k)],
    {
        let mut out: Vec<GridCell> = Vec::new();
        let mut k: usize = 0;
        while k < 9
            invariant
                k <= 9,
                self@.len() == 81,
                block < 9,
                out@.len() == k,
                forall|k2: int|
                    0 <= k2 < k ==> #[trigger] out@[k2] == self@[block_cell(block as int, k2)],
            decreases 9 - k,
        {
            let idx = (block / 3) * 27 + (block % 3) * 3 + (k / 3) * 9 + k % 3;
            out.push(self.cells[idx]);
            k = k + 1;
        }
        out
    }

    /// The indices of the cells that are down to a single candidate, in
    /// ascending order: exactly the determined cells of the board.
    pub fn find_fully_constrained_inds(&self) -> (r: Vec<usize>)
        requires
            self@.len() == 81,
        ensures
            forall|k: int|
                0 <= k < r@.len() ==> #[trigger] r@[k] < 81 && candidate_count(
                    self@[r@[k] as int]@,
                ) == 1,
            forall|k1: int, k2: int| 0 <= k1 < k2 < r@.len() ==> r@[k1] < r@[k2],
            forall|i: int|
                0 <= i < 81 && candidate_count(#[trigger] self@[i]@) == 1 ==> r@.contains(
                    i as usize,
                ),
    {
        let mut out: Vec<usize> = Vec::new();
        let mut i: usize = 0;
        while i < 81
            invariant
                i <= 81,
                self@.len() == 81,
                forall|k: int|
                    0 <= k < out@.len() ==> #[trigger] out@[k] < i && candidate_count(
                        self@[out@[k] as int]@,
                    ) == 1,
                forall|k1: int, k2: int| 0 <= k1 < k2 < out@.len() ==> out@[k1] < out@[k2],
                forall|j: int|
                    0 <= j < i && candidate_count(#[trigger] self@[j]@) == 1 ==> out@.contains(
                        j as usize,
                    ),
            decreases 81 - i,
        {
            let e = self.cells[i].entropy();
            if e == 1 {
                let ghost pre = out@;
                out.push(i);
                proof {
                    assert forall|j: int|
                        0 <= j < i + 1 && candidate_count(#[trigger] self@[j]@) == 1
                        implies out@.contains(j as usize) by {
                        if j < i {
                            let k = choose|k: int| 0 <= k < pre.len() && pre[k] == j as usize;
                            assert(out@[k] == j as usize);
                        } else {
                            assert(out@[out@.len() - 1] == j as usize);
                        }
                    }
                }
            }
            i = i + 1;
        }
        out
    }

    /// Excludes `val` from every peer of the cell `idx`, walking the
    /// peer table's ascending listing. Succeeds exactly when no peer
    /// was already fixed to `val`; otherwise it stops at the first such
    /// peer and reports the conflict, leaving the cells already
    /// processed as they are (no rollback).
    pub fn apply_constraints(&mut self, val: u8, idx: usize) -> (r: Result<(), SolveError>)
        requires
            old(self).wf(),
            idx < 81,
            1 <= val <= 9,
        ensures
            final(self).wf(),
            final(self).table() == old(self).table(),
            only_eliminations(old(self)@, final(self)@),
            determined_preserved(old(self)@, final(self)@),
            forall|j: int|
                0 <= j < 81 && !peer_rel(idx as int, j) ==> final(self)@[j]@ == old(self)@[j]@,
            forall|j: int, v: u8|
                0 <= j < 81 && has_digit(old(self)@[j]@, v) && !(#[trigger] has_digit(
                    final(self)@[j]@,
                    v,
                )) ==> v == val && peer_rel(idx as int, j),
            (r is Ok) <==> (forall|j: int|
                #[trigger] peer_rel(idx as int, j) ==> !fixed_to(old(self)@[j]@, val)),
            r is Ok ==> no_peer_has(final(self)@, idx as int, val),
            match r {
                Ok(()) => true,
                Err(SolveError::Conflict(p, v)) => {
                    &&& v == val
                    &&& peer_rel(idx as int, p as int)
                    &&& fixed_to(old(self)@[p as int]@, val)
                    &&& fixed_to(final(self)@[p as int]@, val)
                    // the first conflicting peer in the table's order
                    &&& exists|k: int|
                        0 <= k < 20 && old(self).table()[idx as int][k] == p && (forall|k2: int|
                            0 <= k2 < k ==> !fixed_to(
                                old(self)@[#[trigger] old(self).table()[idx as int][k2] as int]@,
                                val,
                            ))
                },
                Err(SolveError::Stalled) => false,
            },
    {
        proof {
            lemma_peer_table_laws(self.table(), idx as int, 0);
        }
        let row = match self.constraints.get_constrained_inds(idx) {
            Ok(v) => v,
            Err(_) => {
                proof {
                    assert(false);
                }
                return Err(SolveError::Stalled);
            },
        };
        let mut k: usize = 0;
        while k < 20
            invariant
                old(self).wf(),
                self@.len() == 81,
                board_wf(self@),
                self.table() == old(self).table(),
                table_wf(self.table()),
                idx < 81,
                1 <= val <= 9,
                k <= 20,
                row@ == self.table()[idx as int],
                row@.len() == 20,
                forall|k2: int| 0 <= k2 < 20 ==> peer_rel(idx as int, #[trigger] row@[k2] as int),
                forall|k1: int, k2: int| 0 <= k1 < k2 < 20 ==> row@[k1] != row@[k2],
                only_eliminations(old(self)@, self@),
                determined_preserved(old(self)@, self@),
                forall|j: int, v: u8|
                    0 <= j < 81 && has_digit(old(self)@[j]@, v) && !(#[trigger] has_digit(
                        self@[j]@,
                        v,
                    )) ==> v == val && peer_rel(idx as int, j),
                forall|j: int|
                    0 <= j < 81 && !row@.take(k as int).contains(j as usize) ==> self@[j]@
                        == old(self)@[j]@,
                forall|k2: int|
                    0 <= k2 < k ==> !fixed_to(old(self)@[#[trigger] row@[k2] as int]@, val)
                        && !has_digit(self@[row@[k2] as int]@, val),
            decreases 20 - k,
        {
            let p = row[k];
            proof {
                assert(peer_rel(idx as int, p as int));
                if row@.take(k as int).contains(p) {
                    let k2 = choose|k2: int| 0 <= k2 < k && row@.take(k as int)[k2] == p;
                    assert(row@[k2] == row@[k as int]);
                    assert(false);
                }
                assert(self@[p as int]@ == old(self)@[p as int]@);
                crate::cell::lemma_wf_count(old(self)@[p as int]@);
            }
            let mut c = self.cells[p];
            let res = c.deny(val);
            match res {
                Ok(_) => {
                    let ghost pre = self@;
                    self.cells.set(p, c);
                    proof {
                        assert forall|j: int|
                            0 <= j < 81 && !row@.take(k as int + 1).contains(j as usize)
                            implies self@[j]@ == old(self)@[j]@ by {
                            if row@.take(k as int).contains(j as usize) {
                                let k2 = choose|k2: int|
                                    0 <= k2 < k && row@.take(k as int)[k2] == j as usize;
                                assert(row@.take(k as int + 1)[k2] == j as usize);
                            }
                            assert(row@.take(k as int + 1)[k as int] == p);
                            assert(j != p);
                        }
                        assert forall|k2: int|
                            0 <= k2 < k + 1 implies !fixed_to(
                            old(self)@[#[trigger] row@[k2] as int]@,
                            val,
                        ) && !has_digit(self@[row@[k2] as int]@, val) by {
                            if k2 < k {
                                assert(row@[k2] != p);
                                assert(self@[row@[k2] as int]@ == pre[row@[k2] as int]@);
                            } else {
                                assert(row@[k2] == p);
                            }
                        }
                    }
                },
                Err(v) => {
                    proof {
                        assert(fixed_to(old(self)@[p as int]@, val));
                        assert(v == val);
                        assert(0 <= k < 20 && old(self).table()[idx as int][k as int] == p && (
                        forall|k2: int|
                            0 <= k2 < k ==> !fixed_to(
                                old(self)@[#[trigger] old(self).table()[idx as int][k2] as int]@,
                                val,
                            )));
                    }
                    return Err(SolveError::Conflict(p, v));
                },
            }
            k = k + 1;
        }
        proof {
            assert(row@.take(20) =~= row@);
            assert forall|j: int| #[trigger] peer_rel(idx as int, j) implies !fixed_to(
                old(self)@[j]@,
                val,
            ) && !has_digit(self@[j]@, val) by {
                lemma_peer_table_laws(old(self).table(), idx as int, j);
                assert(row@.contains(j as usize));
                let k2 = choose|k2: int| 0 <= k2 < row@.len() && row@[k2] == j as usize;
                assert(!fixed_to(old(self)@[row@[k2] as int]@, val));
            }
            assert forall|j: int|
                0 <= j < 81 && !peer_rel(idx as int, j) implies self@[j]@ == old(self)@[j]@ by {
                lemma_peer_table_laws(old(self).table(), idx as int, j);
                assert(!row@.contains(j as usize));
            }
        }
        Ok(())
    }

    /// Renders the board as its 81-character string: each determined
    /// cell as its digit, each undetermined cell as '0'.
    pub fn render(&self) -> (r: String)
        requires
            self@.len() == 81,
            board_wf(self@),
        ensures
            r@ == render_spec(self@),
            r@.len() == 81,
    {
        let mut s = String::new();
        let mut i: usize = 0;
        while i < 81
            invariant
                i <= 81,
                self@.len() == 81,
                board_wf(self@),
                s@.len() == i,
                forall|k: int| 0 <= k < i ==> s@[k] == digit_char(out_digit(self@[k]@)),
            decreases 81 - i,
        {
            let c = self.cells[i];
            match c.determined_value() {
                Some(v) => {
                    proof {
                        assert(fixed_to(self@[i as int]@, v));
                        let v2 = choose|v2: u8| fixed_to(self@[i as int]@, v2);
                        lemma_fixed_unique(self@[i as int]@, v, v2);
                        assert(out_digit(self@[i as int]@) == v as int);
                    }
                    push_digit(&mut s, v);
                },
                None => {
                    proof {
                        if exists|v: u8| fixed_to(self@[i as int]@, v) {
                            let v = choose|v: u8| fixed_to(self@[i as int]@, v);
                            assert(false);
                        }
                        assert(out_digit(self@[i as int]@) == 0);
                    }
                    push_digit(&mut s, 0);
                },
            }
            i = i + 1;
        }
        proof {
            assert(s@ =~= render_spec(self@));
        }
        s
    }

    /// Runs naked-singles propagation to its fixpoint: repeatedly scans
    /// for determined cells not yet applied, in ascending index order,
    /// and excludes each one's digit from its twenty peers. Ends with
    /// `Ok` once all 81 cells are determined and applied; with
    /// `Conflict` as soon as an elimination contradicts an
    /// already-fixed cell; with `Stalled` when a full pass applies
    /// nothing while undetermined cells remain.
    pub fn propagate_constraints(&mut self) -> (r: Result<(), SolveError>)
        requires
            old(self).wf(),
        ensures
            final(self).wf(),
            final(self).table() == old(self).table(),
            only_eliminations(old(self)@, final(self)@),
            determined_preserved(old(self)@, final(self)@),
            justified(old(self)@, final(self)@),
            r is Ok ==> solved_board(final(self)@) && propagated(final(self)@),
            r == Err::<(), SolveError>(SolveError::Stalled) ==> propagated(final(self)@) && (
            exists|i: int| 0 <= i < 81 && candidate_count(final(self)@[i]@) != 1),
            match r {
                Err(SolveError::Conflict(p, v)) => {
                    &&& 0 <= p < 81
                    &&& fixed_to(final(self)@[p as int]@, v)
                    &&& exists|i: int| #[trigger] peer_rel(i, p as int) && fixed_to(final(self)@[i]@, v)
                },
                _ => true,
            },
    {
        let mut applied: Vec<bool> = Vec::new();
        let mut t: usize = 0;
        while t < 81
            invariant
                t <= 81,
                applied@.len() == t,
                count_true(applied@) == 0,
                forall|i: int| 0 <= i < t ==> !applied@[i],
            decreases 81 - t,
        {
            let ghost pre = applied@;
            applied.push(false);
            proof {
                assert(applied@.drop_last() =~= pre);
            }
            t = t + 1;
        }
        let mut applied_count: usize = 0;
        loop
            invariant
                old(self).wf(),
                self.wf(),
                self.table() == old(self).table(),
                only_eliminations(old(self)@, self@),
                determined_preserved(old(self)@, self@),
                justified(old(self)@, self@),
                applied@.len() == 81,
                applied_count == count_true(applied@),
                applied_count <= 81,
                applied_inv(applied@, self@),
            decreases 81 - applied_count,
        {
            let inds = self.find_fully_constrained_inds();
            let ghost cells0 = self@;
            let ghost applied0 = applied@;
            let ghost count0 = applied_count as int;
            let mut progressed = false;
            let mut k: usize = 0;
            while k < inds.len()
                invariant
                    old(self).wf(),
                    self.wf(),
                    self.table() == old(self).table(),
                    only_eliminations(old(self)@, self@),
                    determined_preserved(old(self)@, self@),
                    justified(old(self)@, self@),
                    only_eliminations(cells0, self@),
                    determined_preserved(cells0, self@),
                    cells0.len() == 81,
                    applied@.len() == 81,
                    applied_count == count_true(applied@),
                    applied_count <= 81,
                    applied_inv(applied@, self@),
                    k <= inds@.len(),
                    forall|k2: int|
                        0 <= k2 < inds@.len() ==> #[trigger] inds@[k2] < 81 && candidate_count(
                            cells0[inds@[k2] as int]@,
                        ) == 1,
                    forall|i: int|
                        0 <= i < 81 && candidate_count(#[trigger] cells0[i]@) == 1
                            ==> inds@.contains(i as usize),
                    forall|k2: int| 0 <= k2 < k ==> applied@[#[trigger] inds@[k2] as int],
                    count0 <= applied_count,
                    !progressed ==> self@ == cells0 && applied@ == applied0 && applied_count
                        == count0,
                    progressed ==> count0 < applied_count,
                decreases inds@.len() - k,
            {
                let ind = inds[k];
                if !applied[ind] {
                    proof {
                        assert(candidate_count(cells0[ind as int]@) == 1);
                        assert(self@[ind as int]@ == cells0[ind as int]@);
                    }
                    let c = self.cells[ind];
                    let val = match c.determined_value() {
                        Some(v) => v,
                        None => {
                            proof {
                                assert(false);
                            }
                            1
                        },
                    };
                    let ghost pre = self@;
                    let ghost applied_pre = applied@;
                    match self.apply_constraints(val, ind) {
                        Ok(()) => {},
                        Err(e) => {
                            proof {
                                assert(!peer_rel(ind as int, ind as int));
                                assert(self@[ind as int]@ == pre[ind as int]@);
                                assert(fixed_to(self@[ind as int]@, val));
                                assert forall|i: int, v: u8|
                                    0 <= i < 81 && has_digit(old(self)@[i]@, v) && !(
                                    #[trigger] has_digit(self@[i]@, v)) implies exists|j: int|
                                    #[trigger] peer_rel(j, i) && fixed_to(self@[j]@, v) by {
                                    if has_digit(pre[i]@, v) {
                                        assert(v == val && peer_rel(ind as int, i));
                                    } else {
                                        let j = choose|j: int| #[trigger] peer_rel(j, i)
                                            && fixed_to(pre[j]@, v);
                                        assert(candidate_count(pre[j]@) == 1);
                                        assert(self@[j]@ == pre[j]@);
                                        assert(peer_rel(j, i) && fixed_to(self@[j]@, v));
                                    }
                                }
                                if let SolveError::Conflict(p, v) = e {
                                    assert(peer_rel(ind as int, p as int));
                                    assert(fixed_to(self@[p as int]@, v));
                                }
                            }
                            return Err(e);
                        },
                    }
                    applied.set(ind, true);
                    applied_count = applied_count + 1;
                    progressed = true;
                    proof {
                        lemma_count_true_update(applied_pre, ind as int);
                        lemma_count_true_bounds(applied@);
                        assert(!peer_rel(ind as int, ind as int));
                        assert(self@[ind as int]@ == pre[ind as int]@);
                        assert(fixed_to(self@[ind as int]@, val));
                        assert forall|i: int, v: u8|
                            0 <= i < 81 && has_digit(old(self)@[i]@, v) && !(#[trigger] has_digit(
                                self@[i]@,
                                v,
                            )) implies exists|j: int|
                            #[trigger] peer_rel(j, i) && fixed_to(self@[j]@, v) by {
                            if has_digit(pre[i]@, v) {
                                // removed by this step: the applying cell explains it
                                assert(v == val && peer_rel(ind as int, i));
                            } else {
                                // removed earlier: its witness stayed determined
                                let j = choose|j: int| #[trigger] peer_rel(j, i) && fixed_to(
                                    pre[j]@,
                                    v,
                                );
                                assert(candidate_count(pre[j]@) == 1);
                                assert(self@[j]@ == pre[j]@);
                                assert(peer_rel(j, i) && fixed_to(self@[j]@, v));
                            }
                        }
                        assert forall|i: int| 0 <= i < 81 && #[trigger] applied@[i]
                            implies candidate_count(self@[i]@) == 1 by {
                            if i != ind as int {
                                assert(applied_pre[i]);
                                assert(candidate_count(pre[i]@) == 1);
                                assert(self@[i]@ == pre[i]@);
                            }
                        }
                        assert forall|i: int, v: u8|
                            0 <= i < 81 && applied@[i] && #[trigger] fixed_to(self@[i]@, v)
                            implies no_peer_has(self@, i, v) by {
                            if i == ind as int {
                                lemma_fixed_unique(self@[ind as int]@, v, val);
                                assert(no_peer_has(self@, ind as int, val));
                            } else {
                                assert(applied_pre[i]);
                                assert(candidate_count(pre[i]@) == 1);
                                assert(self@[i]@ == pre[i]@);
                                assert(fixed_to(pre[i]@, v));
                                assert(no_peer_has(pre, i, v));
                                assert forall|j: int| #[trigger] peer_rel(i, j) implies !has_digit(
                                    self@[j]@,
                                    v,
                                ) by {
                                    assert(!has_digit(pre[j]@, v));
                                }
                            }
                        }
                    }
                }
                k = k + 1;
            }
            if !progressed {
                if applied_count == 81 {
                    proof {
                        lemma_count_true_all(applied@);
                        assert forall|i: int| 0 <= i < 81 implies candidate_count(
                            #[trigger] self@[i]@,
                        ) == 1 by {
                            assert(applied@[i]);
                        }
                        assert forall|i: int, v: u8|
                            0 <= i < 81 && #[trigger] fixed_to(self@[i]@, v)
                            implies no_peer_has(self@, i, v) by {
                            assert(applied@[i]);
                        }
                    }
                    return Ok(());
                } else {
                    proof {
                        lemma_count_true_missing(applied@);
                        let i = choose|i: int| 0 <= i < applied@.len() && !applied@[i];
                        if candidate_count(self@[i]@) == 1 {
                            assert(inds@.contains(i as usize));
                            let k2 = choose|k2: int|
                                0 <= k2 < inds@.len() && inds@[k2] == i as usize;
                            assert(applied@[inds@[k2] as int]);
                            assert(false);
                        }
                        assert(0 <= i < 81 && candidate_count(self@[i]@) != 1);
                        assert forall|i2: int, v: u8|
                            0 <= i2 < 81 && #[trigger] fixed_to(self@[i2]@, v)
                            implies no_peer_has(self@, i2, v) by {
                            assert(candidate_count(cells0[i2]@) == 1);
                            assert(inds@.contains(i2 as usize));
                            let k2 = choose|k2: int|
                                0 <= k2 < inds@.len() && inds@[k2] == i2 as usize;
                            assert(applied@[inds@[k2] as int]);
                        }
                    }
                    return Err(SolveError::Stalled);
                }
            }
        }
    }

    /// Solves the board in place by naked-singles propagation. On `Ok`
    /// every cell is determined, the given clues are untouched, and no
    /// two peers share a digit; `Conflict` names an index fixed to a
    /// digit that one of its determined peers also holds; `Stalled`
    /// means elimination alone could not finish the grid.
    pub fn solve(&mut self) -> (r: Result<(), SolveError>)
        requires
            old(self).wf(),
        ensures
            final(self).wf(),
            final(self).table() == old(self).table(),
            only_eliminations(old(self)@, final(self)@),
            determined_preserved(old(self)@, final(self)@),
            justified(old(self)@, final(self)@),
            r is Ok ==> solved_board(final(self)@) && propagated(final(self)@),
            r == Err::<(), SolveError>(SolveError::Stalled) ==> propagated(final(self)@) && (
            exists|i: int| 0 <= i < 81 && candidate_count(final(self)@[i]@) != 1),
            match r {
                Err(SolveError::Conflict(p, v)) => {
                    &&& 0 <= p < 81
                    &&& fixed_to(final(self)@[p as int]@, v)
                    &&& exists|i: int| #[trigger] peer_rel(i, p as int) && fixed_to(final(self)@[i]@, v)
                },
                _ => true,
            },
    {
        self.propagate_constraints()
    }
}

proof fn lemma_fresh_entropy_prefix(s: Seq<char>, cells: Seq<GridCell>, n: int)
    requires
        parsed_from(s, cells),
        forall|k: int| 0 <= k < 81 ==> is_digit_char(#[trigger] s[k]),
        0 <= n <= 81,
    ensures
        total_entropy_spec(cells.take(n)) == 9 * n - 8 * given_count(s.take(n)),
    decreases n,
{
    if n == 0 {
        assert(cells.take(0) =~= Seq::<GridCell>::empty());
        assert(s.take(0) =~= Seq::<char>::empty());
    } else {
        lemma_fresh_entropy_prefix(s, cells, n - 1);
        assert(cells.take(n).drop_last() =~= cells.take(n - 1));
        assert(s.take(n).drop_last() =~= s.take(n - 1));
        assert(cells.take(n).last() == cells[n - 1]);
        assert(s.take(n).last() == s[n - 1]);
        let c = s[n - 1];
        assert(is_digit_char(c));
        if c as int == 48 {
            crate::cell::lemma_full_mask();
            assert(candidate_count(cells[n - 1]@) == 9);
        } else {
            let d = digit_of(c);
            assert(1 <= d <= 9);
            crate::cell::lemma_single_mask(d as u8);
            assert(((d as u8) as u16) == d as u16);
            assert(candidate_count(cells[n - 1]@) == 1);
        }
    }
}

/// The aggregate entropy of a freshly parsed board is 81*9 minus eight
/// for each given clue: a given collapses its cell from nine candidates
/// to one.
pub proof fn lemma_fresh_board_entropy(s: Seq<char>, cells: Seq<GridCell>)
    requires
        parsed_from(s, cells),
        forall|k: int| 0 <= k < 81 ==> is_digit_char(#[trigger] s[k]),
    ensures
        total_entropy_spec(cells) == 729 - 8 * given_count(s),
{
    lemma_fresh_entropy_prefix(s, cells, 81);
    assert(cells.take(81) =~= cells);
    assert(s.take(81) =~= s);
}

/// On a freshly parsed board, the determined cells are exactly the
/// positions of the given clues: parsing alone fixes nothing else.
pub proof fn lemma_initial_singletons(s: Seq<char>, cells: Seq<GridCell>)
    requires
        parsed_from(s, cells),
        forall|k: int| 0 <= k < 81 ==> is_digit_char(#[trigger] s[k]),
    ensures
        forall|k: int|
            0 <= k < 81 ==> ((candidate_count(#[trigger] cells[k]@) == 1) <==> s[k] as int != 48),
{
    assert forall|k: int|
        0 <= k < 81 implies ((candidate_count(#[trigger] cells[k]@) == 1) <==> s[k] as int
        != 48) by {
        if s[k] as int == 48 {
            crate::cell::lemma_full_mask();
        } else {
            let d = digit_of(s[k]);
            assert(1 <= d <= 9);
            crate::cell::lemma_single_mask(d as u8);
            assert(((d as u8) as u16) == d as u16);
        }
    }
}

proof fn lemma_total_entropy_all_determined(cells: Seq<GridCell>)
    requires
        forall|i: int| 0 <= i < cells.len() ==> candidate_count(#[trigger] cells[i]@) == 1,
    ensures
        total_entropy_spec(cells) == cells.len(),
    decreases cells.len(),
{
    if cells.len() > 0 {
        lemma_total_entropy_all_determined(cells.drop_last());
    }
}

/// Round trip: rendering a fully determined board and parsing the
/// result again denotes exactly the same cells, and such a board's
/// aggregate entropy is 81, its minimum, so re-solving it has nothing
/// left to eliminate.
pub proof fn lemma_render_parse_round_trip(cells: Seq<GridCell>)
    requires
        cells.len() == 81,
        forall|i: int| 0 <= i < 81 ==> mask_wf(#[trigger] cells[i]@),
        forall|i: int| 0 <= i < 81 ==> candidate_count(#[trigger] cells[i]@) == 1,
    ensures
        parsed_from(render_spec(cells), cells),
        total_entropy_spec(cells) == 81,
{
    lemma_total_entropy_all_determined(cells);
    assert forall|k: int| 0 <= k < 81 implies #[trigger] cells[k]@ == cell_for(
        render_spec(cells)[k],
    ) by {
        crate::cell::lemma_determined_digit(cells[k]@);
        let v = choose|v: u8| fixed_to(cells[k]@, v);
        crate::cell::lemma_fixed_mask(cells[k]@, v);
        assert(out_digit(cells[k]@) == v as int);
        assert(render_spec(cells)[k] == digit_char(v as int));
        assert(1 <= v <= 9);
        assert(digit_char(v as int) as int == 48 + v);
        assert(cell_for(digit_char(v as int)) == 1u16 << (v as u16));
    }
}

} // verus!
