use sudoku::{CellLookup, Sudoku};

// A fresh board: all cells empty, non-fixed, with all nine digits open.
#[test]
fn new_board_is_all_open() {
    let mut sudoku = Sudoku::new();
    for r in 0..9 {
        for c in 0..9 {
            let cell = sudoku.cell(r, c);
            assert!(cell.is_empty());
            assert!(!cell.is_fixed());
            assert_eq!(cell.get_value(), 0);
            assert_eq!(cell.get_candidates(), [true; 9]);
            assert!(cell.validate_candidates());
            for v in 1..=9 {
                assert!(cell.has_candidate(v));
            }
        }
    }
    assert!(matches!(sudoku.get_legal_empty_cell(), CellLookup::LegalCell(0, 0)));
}

// Clues leave digit 9 as the only candidate of (0, 0); a write that removes
// it reports the contradiction, and the failed write is not rolled back.
#[test]
fn contradiction_is_reported_by_write() {
    let mut sudoku = Sudoku::new();
    for c in 1..=8usize {
        sudoku.write_fixed(c as u8, 0, c);
    }
    assert_eq!(sudoku.cell(0, 0).get_candidates(), [
        false, false, false, false, false, false, false, false, true,
    ]);

    // completing the column with the 9 that (0, 0) needs empties its set
    assert!(sudoku.cell(5, 0).has_candidate(9));
    assert!(!sudoku.write(9, 5, 0));
    assert!(!sudoku.cell(0, 0).validate_candidates());
    assert_eq!(sudoku.cell(5, 0).get_value(), 9);

    // the caller undoes the trial and the last candidate comes back
    sudoku.erase(5, 0);
    assert!(sudoku.cell(0, 0).has_candidate(9));
    assert!(sudoku.cell(0, 0).validate_candidates());
}

// A write whose pruning empties no peer reports success.
#[test]
fn write_without_contradiction_succeeds() {
    let mut sudoku = Sudoku::new();
    assert!(sudoku.write(1, 0, 0));
    assert!(sudoku.write(2, 0, 1));
    assert_eq!(sudoku.cell(0, 0).get_value(), 1);
    assert_eq!(sudoku.cell(0, 1).get_value(), 2);
}

// The scan reports completion exactly when every cell holds a digit, and
// otherwise returns the first open cell in row-major order.
#[test]
fn completion_signal_iff_all_filled() {
    let mut sudoku = Sudoku::new();
    assert!(matches!(sudoku.get_legal_empty_cell(), CellLookup::LegalCell(0, 0)));

    sudoku.write_fixed(5, 0, 0);
    assert!(matches!(sudoku.get_legal_empty_cell(), CellLookup::LegalCell(0, 1)));

    // fill the whole grid with a valid solution, clue by trial write
    let solution: [[u8; 9]; 9] = [
        [5, 3, 4, 6, 7, 8, 9, 1, 2],
        [6, 7, 2, 1, 9, 5, 3, 4, 8],
        [1, 9, 8, 3, 4, 2, 5, 6, 7],
        [8, 5, 9, 7, 6, 1, 4, 2, 3],
        [4, 2, 6, 8, 5, 3, 7, 9, 1],
        [7, 1, 3, 9, 2, 4, 8, 5, 6],
        [9, 6, 1, 5, 3, 7, 2, 8, 4],
        [2, 8, 7, 4, 1, 9, 6, 3, 5],
        [3, 4, 5, 2, 8, 6, 1, 7, 9],
    ];
    for r in 0..9 {
        for c in 0..9 {
            if r == 0 && c == 0 {
                continue;
            }
            assert!(sudoku.cell(r, c).has_candidate(solution[r][c]));
            assert!(sudoku.write(solution[r][c], r, c));
        }
    }
    assert!(matches!(sudoku.get_legal_empty_cell(), CellLookup::Completed));
    for r in 0..9 {
        for c in 0..9 {
            assert!(!sudoku.cell(r, c).is_empty());
        }
    }

    // erasing any one cell brings the scan back to it
    sudoku.erase(4, 6);
    assert!(matches!(sudoku.get_legal_empty_cell(), CellLookup::LegalCell(4, 6)));
}

// The Cell candidate primitives behave as a plain boolean set over 1..=9.
#[test]
fn cell_candidate_updates() {
    let sudoku = Sudoku::new();
    let mut cell = *sudoku.cell(0, 0);
    assert!(cell.update_candidate(5, false));
    assert!(!cell.has_candidate(5));
    assert!(cell.has_candidate(4));
    assert!(cell.validate_candidates());
    assert!(cell.update_candidate(5, true));
    assert!(cell.has_candidate(5));
    for v in 1..=8 {
        assert!(cell.update_candidate(v, false));
    }
    // removing the last candidate reports the empty set
    assert!(!cell.update_candidate(9, false));
    assert!(!cell.validate_candidates());
}
