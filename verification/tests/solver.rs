use sudoku_solver::cell::GridCell;
use sudoku_solver::constraints::Constraints;
use sudoku_solver::errors::{BuildError, PeerLookupError, SolveError};
use sudoku_solver::state::State;
use sudoku_solver::Config;

const PUZZLE_ONE: &str =
    "301086504046521070500000001400800002080347900009050038004090200008734090007208103";
const PUZZLE_TWO: &str =
    "000030007480960501063570820009610203350097006000005094000000005804706910001040070";
const SOLUTION_ONE: &str =
    "371986524846521379592473861463819752285347916719652438634195287128734695957268143";
const SOLUTION_TWO: &str =
    "925831467487962531163574829749618253352497186618325794276189345834756912591243678";

#[test]
fn can_read_constraints() {
    let c = Constraints::new().unwrap();

    assert_eq!(c.get_constrained_inds(0).unwrap().len(), 20);

    assert_eq!(c.get_constrained_inds(5).unwrap()[7], 8);
    assert_eq!(c.get_constrained_inds(2).unwrap()[3], 4);
    assert_eq!(c.get_constrained_inds(0).unwrap()[0], 1);
    assert_eq!(c.get_constrained_inds(19).unwrap()[11], 24);
}

#[test]
fn peer_table_is_symmetric_with_twenty_distinct_peers() {
    let c = Constraints::new().unwrap();
    for i in 0..81 {
        let peers = c.get_constrained_inds(i).unwrap().clone();
        assert_eq!(peers.len(), 20);
        for a in 0..20 {
            assert!(peers[a] < 81);
            assert_ne!(peers[a], i);
            for b in 0..a {
                assert_ne!(peers[b], peers[a]);
            }
            let back = c.get_constrained_inds(peers[a]).unwrap();
            assert!(back.contains(&i));
        }
    }
}

#[test]
fn peer_lookup_rejects_an_out_of_range_index() {
    let c = Constraints::new().unwrap();
    assert_eq!(
        c.get_constrained_inds(81).unwrap_err(),
        PeerLookupError::OutOfRange(81)
    );
}

#[test]
fn can_compute_total_entropy() {
    let state = State::from(PUZZLE_ONE).unwrap();
    assert_eq!(state.total_entropy(), 417);
    let state = State::from(PUZZLE_TWO).unwrap();
    assert_eq!(state.total_entropy(), 433);
}

#[test]
fn can_iter_row() {
    let state = State::from(PUZZLE_ONE).unwrap();
    let row = state.iter_row(8);
    assert_eq!(row.len(), 9);
}

#[test]
fn can_iter_col() {
    let state = State::from(PUZZLE_ONE).unwrap();
    let col = state.iter_col(1);
    assert_eq!(col.len(), 9);
}

#[test]
fn can_iter_block() {
    //     301 086 504
    //     046 521 070
    //     500 000 001

    //     400 800 002
    //     080 347 900
    //     009 050 038

    //     004 090 200
    //     008 734 090
    //     007 208 103

    let state = State::from(PUZZLE_ONE).unwrap();

    let block = state.iter_block(2);

    assert_eq!(block[0], GridCell::new_collapsed(5));
    assert_eq!(block[1], GridCell::new());
    assert_eq!(block[2], GridCell::new_collapsed(4));
    assert_eq!(block[3], GridCell::new());
    assert_eq!(block[4], GridCell::new_collapsed(7));
    assert_eq!(block[5], GridCell::new());
}

#[test]
fn can_solve() {
    let mut state = State::from(PUZZLE_ONE).unwrap();

    println!("{}", state.total_entropy());

    if let Err(e) = state.solve() {
        println!("{}", e.message());
    }

    println!("{}", state.total_entropy());
    println!("{}", state.render());
}

#[test]
fn solves_the_first_puzzle() {
    let mut state = State::from(PUZZLE_ONE).unwrap();
    assert_eq!(state.solve(), Ok(()));
    assert_eq!(state.render(), SOLUTION_ONE);
    assert_eq!(state.total_entropy(), 81);
}

#[test]
fn solves_the_second_puzzle() {
    let mut state = State::from(PUZZLE_TWO).unwrap();
    assert_eq!(state.solve(), Ok(()));
    assert_eq!(state.render(), SOLUTION_TWO);
    assert_eq!(state.total_entropy(), 81);
}

#[test]
fn contradictory_puzzle_fails_with_a_conflict() {
    // the second puzzle with position 4 edited from '3' to '4'
    let mut edited: Vec<u8> = PUZZLE_TWO.bytes().collect();
    edited[4] = b'4';
    let edited = String::from_utf8(edited).unwrap();

    let mut state = State::from(&edited).unwrap();
    let err = state.solve().unwrap_err();
    assert_eq!(err, SolveError::Conflict(76, 4));
    assert_eq!(
        err.message(),
        "cell at index 76 is already fully constrained as 4"
    );
}

#[test]
fn initial_singletons_are_exactly_the_givens() {
    let state = State::from(PUZZLE_ONE).unwrap();
    let singles = state.find_fully_constrained_inds();

    let expected: Vec<usize> = PUZZLE_ONE
        .bytes()
        .enumerate()
        .filter(|(_, b)| *b != b'0')
        .map(|(i, _)| i)
        .collect();
    assert_eq!(singles, expected);
}

#[test]
fn solved_board_round_trips_through_rendering() {
    let mut state = State::from(PUZZLE_ONE).unwrap();
    assert_eq!(state.solve(), Ok(()));
    let rendered = state.render();

    let mut reparsed = State::from(&rendered).unwrap();
    assert_eq!(reparsed.total_entropy(), 81);
    for i in 0..9 {
        assert_eq!(reparsed.iter_row(i), state.iter_row(i));
    }

    // a board at minimum entropy has nothing left to eliminate
    assert_eq!(reparsed.solve(), Ok(()));
    assert_eq!(reparsed.total_entropy(), 81);
    assert_eq!(reparsed.render(), rendered);
}

#[test]
fn empty_puzzle_stalls() {
    let blank: String = "0".repeat(81);
    let mut state = State::from(&blank).unwrap();
    assert_eq!(state.solve(), Err(SolveError::Stalled));
    assert_eq!(state.total_entropy(), 729);
}

#[test]
fn blank_board_renders_as_zeros() {
    let blank: String = "0".repeat(81);
    let state = State::from(&blank).unwrap();
    assert_eq!(state.render(), blank);
}

#[test]
fn wrong_length_input_is_rejected() {
    assert_eq!(
        State::from("301").unwrap_err(),
        BuildError::WrongLength(3)
    );
    let long: String = "0".repeat(82);
    assert_eq!(
        State::from(&long).unwrap_err(),
        BuildError::WrongLength(82)
    );
}

#[test]
fn non_digit_input_is_rejected() {
    let mut bad: Vec<u8> = PUZZLE_ONE.bytes().collect();
    bad[5] = b'x';
    let bad = String::from_utf8(bad).unwrap();
    assert_eq!(State::from(&bad).unwrap_err(), BuildError::InvalidChar(5));
}

#[test]
fn config_wraps_a_parsed_board() {
    let mut config = Config::from(String::from(PUZZLE_ONE)).unwrap();
    assert_eq!(config.puzzle.solve(), Ok(()));
    assert_eq!(config.puzzle.render(), SOLUTION_ONE);

    assert!(Config::from(String::from("42")).is_err());
}
