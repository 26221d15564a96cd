//! The failure conditions of the solver: malformed construction input,
//! and the two ways a solve run can end without a full grid.

use vstd::prelude::*;
use vstd::string::{StringExecFns, StrSliceExecFns};

verus! {

/// A failure while building a board, before any solving begins.
#[derive(Clone, Copy, Debug, PartialEq, Eq, Structural)]
pub enum BuildError {
    /// The puzzle string does not have exactly 81 characters;
    /// carries the actual length.
    WrongLength(usize),
    /// A character of the puzzle string is not a decimal digit;
    /// carries the index of the first such character.
    InvalidChar(usize),
    /// The peer table failed its "exactly 20 peers per cell" validation.
    MalformedPeerTable,
}

/// A failure while looking up the peers of a cell.
#[derive(Clone, Copy, Debug, PartialEq, Eq, Structural)]
pub enum PeerLookupError {
    /// The requested cell index is not below 81; carries that index.
    OutOfRange(usize),
}

/// The terminal result of a solve run that did not reach a full grid.
#[derive(Clone, Copy, Debug, PartialEq, Eq, Structural)]
pub enum SolveError {
    /// An elimination contradicted an already-fixed cell: carries the
    /// index of that cell and the digit it is fixed to.
    Conflict(usize, u8),
    /// Propagation made no progress before all 81 cells were applied.
    Stalled,
}

/// The diagnostic line for a conflict: the index and the digit the
/// cell was already fixed to, in the solver's fixed wording.
pub open spec fn conflict_message(i: int, v: int) -> Seq<char> {
    "cell at index "@ + crate::text::decimal2(i) + " is already fully constrained as "@ + seq![
        crate::text::digit_char(v),
    ]
}

impl SolveError {
    /// Renders the outcome as a diagnostic line.
    pub fn message(&self) -> (r: String)
        requires
            match *self {
                SolveError::Conflict(i, v) => i < 100 && v <= 9,
                SolveError::Stalled => true,
            },
        ensures
            match *self {
                SolveError::Conflict(i, v) => r@ == conflict_message(i as int, v as int),
                SolveError::Stalled => r@
                    == "propagation stalled: the puzzle cannot be completed by naked-singles elimination alone"@,
            },
    {
        match self {
            SolveError::Conflict(i, v) => {
                let mut s = String::new();
                s.append("cell at index ");
                crate::text::push_decimal2(&mut s, *i);
                s.append(" is already fully constrained as ");
                crate::text::push_digit(&mut s, *v);
                proof {
                    assert(s@ =~= conflict_message(*i as int, *v as int));
                }
                s
            },
            SolveError::Stalled => {
                String::from_str(
                    "propagation stalled: the puzzle cannot be completed by naked-singles elimination alone",
                )
            },
        }
    }
}

} // verus!
