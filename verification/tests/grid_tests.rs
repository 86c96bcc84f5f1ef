use sudoku::solver::is_peer;
use sudoku::{CellS, Sudoku};

#[test]
fn fresh_cell_allows_every_digit() {
    let cell = CellS::new();
    assert_eq!(cell.possible_values, [true; 9]);
}

#[test]
fn build_keeps_the_snapshot() {
    let av = [true, false, true, false, true, false, true, false, true];
    let cell = CellS::build(av);
    assert_eq!(cell.possible_values, av);
}

#[test]
fn box_corners() {
    assert_eq!(Sudoku::find_box_corner(0), 0);
    assert_eq!(Sudoku::find_box_corner(8), 6);
    assert_eq!(Sudoku::find_box_corner(40), 30);
    assert_eq!(Sudoku::find_box_corner(79), 60);
    assert_eq!(Sudoku::find_box_corner(80), 60);
}

#[test]
fn group_indices_of_center_cell() {
    assert_eq!(Sudoku::row_indices(40), [36, 37, 38, 39, 40, 41, 42, 43, 44]);
    assert_eq!(Sudoku::column_indices(40), [4, 13, 22, 31, 40, 49, 58, 67, 76]);
    assert_eq!(Sudoku::square_indices(40), [30, 31, 32, 39, 40, 41, 48, 49, 50]);
}

#[test]
fn peers_share_a_row_column_or_box() {
    assert!(is_peer(0, 8)); // same row
    assert!(is_peer(0, 72)); // same column
    assert!(is_peer(0, 10)); // same box
    assert!(!is_peer(0, 40));
    assert!(is_peer(40, 40));
}

#[test]
fn availability_reflects_fixed_peers() {
    let mut input = [[0u8; 9]; 9];
    input[0][0] = 5;
    let s = Sudoku::new(input).unwrap();
    // 5 is ruled out along the row, the column and the box of cell 0
    assert!(!s.find_available_in_row(3)[4]);
    assert!(!s.find_available_in_col(27)[4]);
    assert!(!s.find_available_in_square(10)[4]);
    // a cell sharing no group with cell 0 still allows 5
    let pv = s.find_available(40);
    assert!(pv[4]);
    assert!(!s.find_available(1)[4]);
    // all other digits stay open next to the 5
    assert!(s.find_available(1)[0]);
}

#[test]
fn validity_is_judged_against_current_fixed_cells() {
    let mut input = [[0u8; 9]; 9];
    input[0][0] = 5;
    let s = Sudoku::new(input).unwrap();
    assert!(!s.is_valid(1, 5)); // same row as the 5
    assert!(!s.is_valid(9, 5)); // same column
    assert!(!s.is_valid(10, 5)); // same box
    assert!(s.is_valid(40, 5));
    assert!(s.is_valid(1, 4));
}

#[test]
fn valid_values_lists_snapshot_digits_in_order() {
    let pv = [true, false, false, true, false, false, false, false, true];
    assert_eq!(Sudoku::get_valid_values(pv), vec![1, 4, 9]);
    assert_eq!(Sudoku::get_valid_values([false; 9]), Vec::<usize>::new());
    assert_eq!(Sudoku::get_valid_values([true; 9]), vec![1, 2, 3, 4, 5, 6, 7, 8, 9]);
}

#[test]
fn digit_at_reports_clues_and_blanks() {
    let mut input = [[0u8; 9]; 9];
    input[2][3] = 7;
    let s = Sudoku::new(input).unwrap();
    assert_eq!(s.digit_at(2 * 9 + 3), 7);
    assert_eq!(s.digit_at(0), 0);
}

#[test]
fn next_to_fill_scans_forward_and_wraps() {
    let mut input = [[0u8; 9]; 9];
    input[0][0] = 1;
    let s = Sudoku::new(input).unwrap();
    assert_eq!(s.find_next_to_fill(0), Some(1));
    assert_eq!(s.find_next_to_fill(80), Some(80));
    assert_eq!(s.find_next_to_fill(81), Some(1)); // wraps, cell 0 is fixed
}

#[test]
fn consistency_check_accepts_a_clean_grid() {
    let mut input = [[0u8; 9]; 9];
    input[0][0] = 5;
    input[4][4] = 5;
    let s = Sudoku::new(input).unwrap();
    assert!(s.check_consistent());
}

#[test]
fn consistency_check_rejects_column_and_box_duplicates() {
    let mut col_dup = [[0u8; 9]; 9];
    col_dup[0][2] = 9;
    col_dup[7][2] = 9;
    assert!(!Sudoku::new(col_dup).unwrap().check_consistent());
    let mut box_dup = [[0u8; 9]; 9];
    box_dup[0][0] = 3;
    box_dup[2][2] = 3;
    assert!(!Sudoku::new(box_dup).unwrap().check_consistent());
}
