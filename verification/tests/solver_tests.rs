use sudoku::{LoadError, SolveResult, Sudoku};

fn classic() -> [[u8; 9]; 9] {
    [
        [5, 0, 0, 1, 0, 6, 0, 0, 4],
        [0, 8, 0, 0, 4, 5, 3, 9, 0],
        [0, 0, 0, 8, 3, 2, 0, 5, 0],
        [3, 1, 0, 0, 8, 4, 6, 0, 2],
        [4, 0, 0, 0, 0, 0, 0, 3, 1],
        [2, 7, 0, 0, 0, 0, 0, 0, 9],
        [6, 2, 0, 0, 0, 8, 4, 0, 5],
        [8, 5, 1, 0, 0, 0, 7, 0, 3],
        [0, 4, 0, 5, 0, 0, 0, 2, 0],
    ]
}

fn digits(s: &Sudoku) -> Vec<u8> {
    (0..81).map(|i| s.digit_at(i)).collect()
}

fn assert_fully_valid(s: &Sudoku) {
    // every cell fixed to a digit 1..9
    for i in 0..81 {
        let d = s.digit_at(i);
        assert!((1..=9).contains(&d), "cell {i} holds {d}");
    }
    // each row, column and box holds each digit exactly once
    for g in 0..9 {
        let mut row = [0u8; 10];
        let mut col = [0u8; 10];
        let mut boxx = [0u8; 10];
        for k in 0..9 {
            row[s.digit_at(9 * g + k) as usize] += 1;
            col[s.digit_at(g + 9 * k) as usize] += 1;
            let corner = 27 * (g / 3) + 3 * (g % 3);
            boxx[s.digit_at(corner + 9 * (k / 3) + k % 3) as usize] += 1;
        }
        for d in 1..=9 {
            assert_eq!(row[d], 1, "row {g} digit {d}");
            assert_eq!(col[d], 1, "col {g} digit {d}");
            assert_eq!(boxx[d], 1, "box {g} digit {d}");
        }
    }
}

#[test]
fn classic_puzzle_solves_to_full_valid_grid() {
    let s = Sudoku::new(classic()).unwrap();
    match s.solve_puzzle() {
        SolveResult::Solved(g) => assert_fully_valid(&g),
        SolveResult::Unsolvable => panic!("classic puzzle reported unsolvable"),
    }
}

#[test]
fn classic_puzzle_keeps_its_clues() {
    let input = classic();
    let s = Sudoku::new(input).unwrap();
    match s.solve_puzzle() {
        SolveResult::Solved(g) => {
            for r in 0..9 {
                for c in 0..9 {
                    if input[r][c] != 0 {
                        assert_eq!(g.digit_at(9 * r + c), input[r][c], "clue at ({r},{c})");
                    }
                }
            }
        },
        SolveResult::Unsolvable => panic!("classic puzzle reported unsolvable"),
    }
}

#[test]
fn solve_is_deterministic_across_scan_positions() {
    let mut a = Sudoku::new(classic()).unwrap();
    let mut b = Sudoku::new(classic()).unwrap();
    let mut c = Sudoku::new(classic()).unwrap();
    assert!(a.solve(0));
    assert!(b.solve(57));
    assert!(c.solve(81));
    assert_eq!(digits(&a), digits(&b));
    assert_eq!(digits(&a), digits(&c));
}

#[test]
fn propagation_is_idempotent() {
    let mut s = Sudoku::new(classic()).unwrap();
    assert!(s.fill_analytically());
    let after_first = digits(&s);
    assert!(s.fill_analytically());
    assert_eq!(after_first, digits(&s), "second propagation run changed the grid");
}

#[test]
fn fully_fixed_valid_grid_comes_back_unchanged() {
    let mut input = [[0u8; 9]; 9];
    for r in 0..9 {
        for c in 0..9 {
            input[r][c] = (((r * 3 + r / 3) + c) % 9) as u8 + 1;
        }
    }
    let s = Sudoku::new(input).unwrap();
    let before = digits(&s);
    match s.solve_puzzle() {
        SolveResult::Solved(g) => {
            assert_eq!(before, digits(&g));
            assert_fully_valid(&g);
        },
        SolveResult::Unsolvable => panic!("valid full grid reported unsolvable"),
    }
}

#[test]
fn duplicate_fixed_digits_in_a_row_are_unsolvable() {
    let mut input = [[0u8; 9]; 9];
    input[0][0] = 5;
    input[0][5] = 5;
    let s = Sudoku::new(input).unwrap();
    assert!(!s.check_consistent());
    assert!(matches!(s.solve_puzzle(), SolveResult::Unsolvable));
}

#[test]
fn empty_grid_solves() {
    let s = Sudoku::new([[0u8; 9]; 9]).unwrap();
    match s.solve_puzzle() {
        SolveResult::Solved(g) => assert_fully_valid(&g),
        SolveResult::Unsolvable => panic!("empty grid reported unsolvable"),
    }
}

#[test]
fn raw_value_ten_is_rejected() {
    let mut input = [[0u8; 9]; 9];
    input[4][4] = 10;
    assert!(matches!(Sudoku::new(input), Err(LoadError::ValueOutOfRange)));
}

#[test]
fn raw_value_255_is_rejected() {
    let mut input = classic();
    input[8][8] = 255;
    assert!(matches!(Sudoku::new(input), Err(LoadError::ValueOutOfRange)));
}

#[test]
fn hidden_single_is_found() {
    // Digit 1 is still possible at cell (0,0), while every other cell
    // of row 0 sees a 1 in its own column: a hidden single in the row.
    let mut input = [[0u8; 9]; 9];
    input[3][1] = 1;
    input[6][2] = 1;
    input[1][3] = 1;
    input[5][4] = 1;
    input[7][5] = 1;
    input[2][6] = 1;
    input[4][7] = 1;
    input[8][8] = 1;
    let s = Sudoku::new(input).unwrap();
    assert!(s.check_consistent());
    let pv = s.find_available(0);
    assert!(pv.iter().filter(|p| **p).count() > 1, "cell 0 should not be a naked single");
    assert_eq!(s.find_must_be_value(pv, 0), Some(0));
}

#[test]
fn no_hidden_single_on_blank_grid() {
    let s = Sudoku::new([[0u8; 9]; 9]).unwrap();
    let pv = s.find_available(40);
    assert_eq!(s.find_must_be_value(pv, 40), None);
}

#[test]
fn initialize_fixes_a_naked_single() {
    let mut input = [[0u8; 9]; 9];
    for c in 1..9 {
        input[0][c] = c as u8 + 1;
    }
    let mut s = Sudoku::new(input).unwrap();
    assert_eq!(s.digit_at(0), 0);
    s.initialize();
    assert_eq!(s.digit_at(0), 1, "cell 0 is a naked single for digit 1");
}

#[test]
fn propagation_alone_finishes_an_easy_row_case() {
    let mut input = [[0u8; 9]; 9];
    for c in 1..9 {
        input[0][c] = c as u8 + 1;
    }
    let mut s = Sudoku::new(input).unwrap();
    assert!(s.fill_analytically());
    assert_eq!(s.digit_at(0), 1);
}
