use sudoku_solver::cell::GridCell;

#[test]
fn can_alter_gridcell() {
    let mut gridcell = GridCell::new_collapsed(7);
    gridcell.allow(6);
    gridcell.allow(8);
    let _ = gridcell.deny(6);
    assert_eq!(gridcell, GridCell::from(vec![7, 8]));
}

#[test]
fn can_compute_entropy() {
    let mut gridcell = GridCell::new_collapsed(3);
    gridcell.allow(6);
    assert_eq!(gridcell.entropy(), 2);
    gridcell.allow(7);
    assert_eq!(gridcell.entropy(), 3);
    let _ = gridcell.deny(3);
    assert_eq!(gridcell.entropy(), 2);
}

#[test]
fn entropy_of_fresh_and_collapsed_cells() {
    assert_eq!(GridCell::new().entropy(), 9);
    assert_eq!(GridCell::new_collapsed(1).entropy(), 1);
    assert_eq!(GridCell::new_collapsed(9).entropy(), 1);
}

#[test]
fn determined_value_of_cells() {
    assert_eq!(GridCell::new().determined_value(), None);
    assert_eq!(GridCell::new_collapsed(4).determined_value(), Some(4));
    assert_eq!(GridCell::from(vec![2, 5]).determined_value(), None);
}

#[test]
fn allow_reports_whether_the_set_changed() {
    let mut cell = GridCell::new_collapsed(5);
    assert!(cell.allow(6));
    assert!(!cell.allow(6));
    assert!(!cell.allow(5));
}

#[test]
fn deny_on_a_singleton_is_a_noop_or_a_conflict() {
    // once a cell is determined, denying any other digit changes nothing
    let mut cell = GridCell::new_collapsed(8);
    for v in 1..=9u8 {
        if v != 8 {
            assert_eq!(cell.deny(v), Ok(false));
            assert_eq!(cell, GridCell::new_collapsed(8));
        }
    }
    // denying its own digit is always a conflict carrying that digit
    assert_eq!(cell.deny(8), Err(8));
    assert_eq!(cell, GridCell::new_collapsed(8));
}

#[test]
fn deny_removes_a_candidate_from_a_wide_cell() {
    let mut cell = GridCell::new();
    assert_eq!(cell.deny(3), Ok(true));
    assert_eq!(cell.entropy(), 8);
    // a second denial of the same digit changes nothing
    assert_eq!(cell.deny(3), Ok(false));
    assert_eq!(cell.entropy(), 8);
}

#[test]
fn candidate_grid_rendering() {
    let cell = GridCell::from(vec![7, 8]);
    assert_eq!(
        cell.render_candidates(),
        "\u{b7} \u{b7} \u{b7} \n\u{b7} \u{b7} \u{b7} \n7 8 \u{b7} \n"
    );
    let full = GridCell::new();
    assert_eq!(full.render_candidates(), "1 2 3 \n4 5 6 \n7 8 9 \n");
}
