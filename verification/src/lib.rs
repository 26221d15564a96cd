//! A 9x9 Sudoku solver based on iterative constraint propagation
//! ("naked singles" elimination): every cell keeps the set of digits it
//! could still take, and each cell that is down to a single candidate
//! excludes that digit from the twenty cells sharing its row, column or
//! 3x3 block, until the whole grid is determined, the propagation stalls,
//! or a contradiction surfaces.

use vstd::prelude::*;

pub mod cell;
pub mod constraints;
pub mod errors;
pub mod state;
pub mod text;

verus! {

use crate::errors::BuildError;
use crate::state::{from_fails_with, parsed_from, State};

/// A puzzle ready to be solved, as built from the command line.
pub struct Config {
    /// The board the configuration wraps.
    pub puzzle: State,
}

impl Config {
    /// Builds the configuration from the 81-character puzzle string.
    pub fn from(puzzle: String) -> (r: Result<Config, BuildError>)
        ensures
            match r {
                Ok(c) => c.puzzle.wf() && parsed_from(puzzle@, c.puzzle@),
                Err(e) => from_fails_with(puzzle@, e),
            },
    {
        match State::from(puzzle.as_str()) {
            Ok(s) => Ok(Config { puzzle: s }),
            Err(e) => Err(e),
        }
    }
}

} // verus!
