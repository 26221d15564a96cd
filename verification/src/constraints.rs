//! The fixed peer relation of the 9x9 grid: for each of the 81 cell
//! indices, the twenty other indices that share its row, column or 3x3
//! block. The table is derived from grid arithmetic and validated at
//! construction, so a malformed table can never reach the solver.

use vstd::prelude::*;

verus! {

use crate::errors::{BuildError, PeerLookupError};

/// The row of cell index `i`, for the row-major layout `i = row*9 + col`.
pub open spec fn row_of(i: int) -> int {
    i / 9
}

/// The column of cell index `i`.
pub open spec fn col_of(i: int) -> int {
    i % 9
}

/// The 3x3 block of cell index `i`, numbered row-major from 0 to 8.
pub open spec fn block_of(i: int) -> int {
    (i / 27) * 3 + (i % 9) / 3
}

/// Two distinct cells are peers when they share a row, a column or a
/// block; a cell is never its own peer.
pub open spec fn peer_rel(i: int, j: int) -> bool {
    &&& 0 <= i < 81
    &&& 0 <= j < 81
    &&& i != j
    &&& (row_of(i) == row_of(j) || col_of(i) == col_of(j) || block_of(i) == block_of(j))
}

/// The peer relation is symmetric.
pub proof fn lemma_peer_rel_sym(i: int, j: int)
    ensures
        peer_rel(i, j) == peer_rel(j, i),
{
}

/// The peers of `i` below the bound `b`, in ascending order.
pub open spec fn peer_seq(i: int, b: int) -> Seq<usize>
    decreases b,
{
    if b <= 0 {
        Seq::empty()
    } else if peer_rel(i, b - 1) {
        peer_seq(i, b - 1).push((b - 1) as usize)
    } else {
        peer_seq(i, b - 1)
    }
}

/// Every listed index is a peer of `i` below `b`, the listing is
/// strictly ascending, and every peer of `i` below `b` is listed.
pub proof fn lemma_peer_seq_props(i: int, b: int)
    ensures
        forall|k: int|
            0 <= k < peer_seq(i, b).len() ==> peer_rel(i, #[trigger] peer_seq(i, b)[k] as int)
                && peer_seq(i, b)[k] < b,
        forall|k1: int, k2: int|
            0 <= k1 < k2 < peer_seq(i, b).len() ==> peer_seq(i, b)[k1] < peer_seq(i, b)[k2],
        forall|j: int| 0 <= j < b && peer_rel(i, j) ==> peer_seq(i, b).contains(j as usize),
    decreases b,
{
    if b <= 0 {
    } else {
        lemma_peer_seq_props(i, b - 1);
        let prev = peer_seq(i, b - 1);
        let cur = peer_seq(i, b);
        if peer_rel(i, b - 1) {
            assert(cur == prev.push((b - 1) as usize));
            assert(cur[cur.len() - 1] == (b - 1) as usize);
            assert forall|j: int| 0 <= j < b && peer_rel(i, j) implies cur.contains(j as usize) by {
                if j < b - 1 {
                    let k = choose|k: int| 0 <= k < prev.len() && prev[k] == j as usize;
                    assert(cur[k] == j as usize);
                } else {
                    assert(cur[cur.len() - 1] == j as usize);
                }
            }
        } else {
            assert(cur == prev);
            assert forall|j: int| 0 <= j < b && peer_rel(i, j) implies cur.contains(j as usize) by {
                assert(j != b - 1);
            }
        }
    }
}

/// How many peers of `i` lie in row `rr`: eight in its own row,
/// three in the other rows of its band of blocks, one elsewhere.
pub open spec fn band_count(i: int, rr: int) -> int {
    if rr == i / 9 {
        8
    } else if rr / 3 == (i / 9) / 3 {
        3
    } else {
        1
    }
}

/// The peers of `i` below `9*(rr+1)` are those below `9*rr` plus the
/// `band_count` peers of row `rr`.
#[verifier::rlimit(60)]
proof fn lemma_peer_band(i: int, rr: int)
    requires
        0 <= i < 81,
        0 <= rr < 9,
    ensures
        peer_seq(i, 9 * (rr + 1)).len() == peer_seq(i, 9 * rr).len() + band_count(i, rr),
{
    let b0 = 9 * rr;
    let r = i / 9;
    let c = i % 9;
    assert(i == 9 * r + c);
    vstd::arithmetic::div_mod::lemma_div_denominator(i, 9, 3);
    assert(i / 27 == r / 3);
    assert((9 * rr + 0) / 9 == rr && (9 * rr + 0) % 9 == 0 && (9 * rr + 0) / 27 == rr
        / 3) by (nonlinear_arith)
        requires
            0 <= rr < 9,
    ;
    assert((9 * rr + 1) / 9 == rr && (9 * rr + 1) % 9 == 1 && (9 * rr + 1) / 27 == rr
        / 3) by (nonlinear_arith)
        requires
            0 <= rr < 9,
    ;
    assert((9 * rr + 2) / 9 == rr && (9 * rr + 2) % 9 == 2 && (9 * rr + 2) / 27 == rr
        / 3) by (nonlinear_arith)
        requires
            0 <= rr < 9,
    ;
    assert((9 * rr + 3) / 9 == rr && (9 * rr + 3) % 9 == 3 && (9 * rr + 3) / 27 == rr
        / 3) by (nonlinear_arith)
        requires
            0 <= rr < 9,
    ;
    assert((9 * rr + 4) / 9 == rr && (9 * rr + 4) % 9 == 4 && (9 * rr + 4) / 27 == rr
        / 3) by (nonlinear_arith)
        requires
            0 <= rr < 9,
    ;
    assert((9 * rr + 5) / 9 == rr && (9 * rr + 5) % 9 == 5 && (9 * rr + 5) / 27 == rr
        / 3) by (nonlinear_arith)
        requires
            0 <= rr < 9,
    ;
    assert((9 * rr + 6) / 9 == rr && (9 * rr + 6) % 9 == 6 && (9 * rr + 6) / 27 == rr
        / 3) by (nonlinear_arith)
        requires
            0 <= rr < 9,
    ;
    assert((9 * rr + 7) / 9 == rr && (9 * rr + 7) % 9 == 7 && (9 * rr + 7) / 27 == rr
        / 3) by (nonlinear_arith)
        requires
            0 <= rr < 9,
    ;
    assert((9 * rr + 8) / 9 == rr && (9 * rr + 8) % 9 == 8 && (9 * rr + 8) / 27 == rr
        / 3) by (nonlinear_arith)
        requires
            0 <= rr < 9,
    ;
    assert(peer_seq(i, b0 + 1).len() == peer_seq(i, b0 + 0).len() + (if peer_rel(
        i,
        b0 + 0,
    ) {
        1int
    } else {
        0int
    }));
    assert(peer_seq(i, b0 + 2).len() == peer_seq(i, b0 + 1).len() + (if peer_rel(
        i,
        b0 + 1,
    ) {
        1int
    } else {
        0int
    }));
    assert(peer_seq(i, b0 + 3).len() == peer_seq(i, b0 + 2).len() + (if peer_rel(
        i,
        b0 + 2,
    ) {
        1int
    } else {
        0int
    }));
    assert(peer_seq(i, b0 + 4).len() == peer_seq(i, b0 + 3).len() + (if peer_rel(
        i,
        b0 + 3,
    ) {
        1int
    } else {
        0int
    }));
    assert(peer_seq(i, b0 + 5).len() == peer_seq(i, b0 + 4).len() + (if peer_rel(
        i,
        b0 + 4,
    ) {
        1int
    } else {
        0int
    }));
    assert(peer_seq(i, b0 + 6).len() == peer_seq(i, b0 + 5).len() + (if peer_rel(
        i,
        b0 + 5,
    ) {
        1int
    } else {
        0int
    }));
    assert(peer_seq(i, b0 + 7).len() == peer_seq(i, b0 + 6).len() + (if peer_rel(
        i,
        b0 + 6,
    ) {
        1int
    } else {
        0int
    }));
    assert(peer_seq(i, b0 + 8).len() == peer_seq(i, b0 + 7).len() + (if peer_rel(
        i,
        b0 + 7,
    ) {
        1int
    } else {
        0int
    }));
    assert(peer_seq(i, b0 + 9).len() == peer_seq(i, b0 + 8).len() + (if peer_rel(
        i,
        b0 + 8,
    ) {
        1int
    } else {
        0int
    }));
    assert(b0 + 9 == 9 * (rr + 1));
    if r == rr {
        assert(peer_seq(i, b0 + 9).len() == peer_seq(i, b0).len() + 8);
    } else if r / 3 == rr / 3 {
        assert(peer_seq(i, b0 + 9).len() == peer_seq(i, b0).len() + 3);
    } else {
        assert(peer_seq(i, b0 + 9).len() == peer_seq(i, b0).len() + 1);
    }
}

/// Every cell of the grid has exactly twenty peers: the eight of its
/// row, the eight of its column and the eight of its block, minus the
/// four counted twice.
pub proof fn lemma_peer_seq_full_len(i: int)
    requires
        0 <= i < 81,
    ensures
        peer_seq(i, 81).len() == 20,
{
    assert(peer_seq(i, 0).len() == 0);
    lemma_peer_band(i, 0);
    lemma_peer_band(i, 1);
    lemma_peer_band(i, 2);
    lemma_peer_band(i, 3);
    lemma_peer_band(i, 4);
    lemma_peer_band(i, 5);
    lemma_peer_band(i, 6);
    lemma_peer_band(i, 7);
    lemma_peer_band(i, 8);
}

/// The whole table is the ascending peer listing of every index, with
/// exactly twenty entries per index.
pub open spec fn table_wf(t: Seq<Seq<usize>>) -> bool {
    &&& t.len() == 81
    &&& forall|i: int| 0 <= i < 81 ==> #[trigger] t[i] == peer_seq(i, 81)
    &&& forall|i: int| 0 <= i < 81 ==> #[trigger] t[i].len() == 20
}

/// For every cell index, the peer table lists exactly twenty distinct
/// indices, each of them a peer, it lists every peer, and the listed
/// relation is symmetric: whenever `j` appears among the peers of `i`,
/// `i` appears among the peers of `j`.
pub proof fn lemma_peer_table_laws(t: Seq<Seq<usize>>, i: int, j: int)
    requires
        table_wf(t),
        0 <= i < 81,
        0 <= j < 81,
    ensures
        t[i].len() == 20,
        forall|k1: int, k2: int| 0 <= k1 < k2 < 20 ==> t[i][k1] != t[i][k2],
        forall|k: int| 0 <= k < 20 ==> peer_rel(i, #[trigger] t[i][k] as int),
        t[i].contains(j as usize) <==> peer_rel(i, j),
        t[i].contains(j as usize) ==> t[j].contains(i as usize),
{
    lemma_peer_seq_props(i, 81);
    lemma_peer_seq_props(j, 81);
    if t[i].contains(j as usize) {
        let k = choose|k: int| 0 <= k < t[i].len() && t[i][k] == j as usize;
        assert(peer_rel(i, t[i][k] as int));
        assert(peer_rel(i, j));
        lemma_peer_rel_sym(i, j);
        assert(peer_seq(j, 81).contains(i as usize));
        assert(t[j] == peer_seq(j, 81));
    }
}

/// The read-only peer table: a row of twenty peer indices for each of
/// the 81 cells.
#[derive(Debug)]
pub struct Constraints {
    inds: Vec<Vec<usize>>,
}

impl View for Constraints {
    type V = Seq<Seq<usize>>;

    closed spec fn view(&self) -> Seq<Seq<usize>> {
        self.inds@.map_values(|v: Vec<usize>| v@)
    }
}

/// Whether `i` and `j` are peers, decided by grid arithmetic.
fn is_peer(i: usize, j: usize) -> (r: bool)
    requires
        i < 81,
        j < 81,
    ensures
        r == peer_rel(i as int, j as int),
{
    i != j && (i / 9 == j / 9 || i % 9 == j % 9 || (i / 27) * 3 + (i % 9) / 3 == (j / 27) * 3 + (j
        % 9) / 3)
}

impl Constraints {
    /// The table is well formed: it is exactly the ascending peer
    /// listing of every index, twenty entries each.
    pub open spec fn wf(&self) -> bool {
        table_wf(self@)
    }

    /// Builds the peer table from grid arithmetic and validates the
    /// "exactly twenty peers per cell" invariant, failing fast rather
    /// than letting a malformed table silently produce wrong solutions.
    /// The validation provably never fails; the `Result` keeps the
    /// fail-fast seam a data-loading implementation would need.
    pub fn new() -> (r: Result<Constraints, BuildError>)
        ensures
            r is Ok,
            match r {
                Ok(c) => c.wf(),
                Err(_) => false,
            },
    {
        let mut inds: Vec<Vec<usize>> = Vec::new();
        let mut i: usize = 0;
        while i < 81
            invariant
                i <= 81,
                inds@.len() == i,
                forall|k: int|
                    0 <= k < i ==> #[trigger] inds@[k]@ == peer_seq(k, 81) && inds@[k]@.len()
                        == 20,
            decreases 81 - i,
        {
            let mut row: Vec<usize> = Vec::new();
            let mut j: usize = 0;
            while j < 81
                invariant
                    i < 81,
                    j <= 81,
                    row@ == peer_seq(i as int, j as int),
                decreases 81 - j,
            {
                if is_peer(i, j) {
                    row.push(j);
                }
                j = j + 1;
            }
            if row.len() != 20 {
                proof {
                    lemma_peer_seq_full_len(i as int);
                }
                return Err(BuildError::MalformedPeerTable);
            }
            inds.push(row);
            i = i + 1;
        }
        let c = Constraints { inds };
        proof {
            assert forall|k: int| 0 <= k < 81 implies #[trigger] c@[k] == peer_seq(k, 81)
                && c@[k].len() == 20 by {
                assert(c@[k] == inds@[k]@);
            }
        }
        Ok(c)
    }

    /// The twenty peer indices of the cell `ind`, or an out-of-range
    /// error when `ind` is not below 81.
    pub fn get_constrained_inds(&self, ind: usize) -> (r: Result<&Vec<usize>, PeerLookupError>)
        requires
            self.wf(),
        ensures
            (ind < 81) <==> (r is Ok),
            match r {
                Ok(v) => v@ == self@[ind as int] && v@ == peer_seq(ind as int, 81) && v@.len()
                    == 20,
                Err(e) => e == PeerLookupError::OutOfRange(ind) && ind >= 81,
            },
    {
        if ind < 81 {
            Ok(&self.inds[ind])
        } else {
            Err(PeerLookupError::OutOfRange(ind))
        }
    }
}

} // verus!
