use sudoku::{solve_sudoku, CellLookup, Sudoku};

// The 27-clue puzzle the program ships with.
fn load_puzzle(sudoku: &mut Sudoku) {
    sudoku.write_fixed(7, 0, 2);
    sudoku.write_fixed(8, 0, 3);
    sudoku.write_fixed(9, 0, 8);

    sudoku.write_fixed(9, 1, 1);
    sudoku.write_fixed(1, 1, 4);
    sudoku.write_fixed(8, 1, 7);

    sudoku.write_fixed(5, 2, 0);
    sudoku.write_fixed(9, 2, 5);
    sudoku.write_fixed(7, 2, 6);

    sudoku.write_fixed(9, 3, 0);
    sudoku.write_fixed(3, 3, 5);
    sudoku.write_fixed(8, 3, 6);

    sudoku.write_fixed(4, 4, 1);
    sudoku.write_fixed(5, 4, 4);
    sudoku.write_fixed(9, 4, 7);

    sudoku.write_fixed(2, 5, 2);
    sudoku.write_fixed(4, 5, 3);
    sudoku.write_fixed(1, 5, 8);

    sudoku.write_fixed(4, 6, 2);
    sudoku.write_fixed(9, 6, 3);
    sudoku.write_fixed(3, 6, 8);

    sudoku.write_fixed(1, 7, 1);
    sudoku.write_fixed(2, 7, 7);
    sudoku.write_fixed(3, 7, 4);

    sudoku.write_fixed(6, 8, 0);
    sudoku.write_fixed(4, 8, 5);
    sudoku.write_fixed(5, 8, 6);
}

// Every row, column and box of a solved grid holds each of 1..=9 once.
fn assert_groups_are_permutations(sudoku: &Sudoku) {
    for r in 0..9 {
        let mut seen = [0u8; 10];
        for c in 0..9 {
            seen[sudoku.cell(r, c).get_value() as usize] += 1;
        }
        for v in 1..=9 {
            assert_eq!(seen[v], 1, "row {} misses or repeats {}", r, v);
        }
    }
    for c in 0..9 {
        let mut seen = [0u8; 10];
        for r in 0..9 {
            seen[sudoku.cell(r, c).get_value() as usize] += 1;
        }
        for v in 1..=9 {
            assert_eq!(seen[v], 1, "column {} misses or repeats {}", c, v);
        }
    }
    for br in 0..3 {
        for bc in 0..3 {
            let mut seen = [0u8; 10];
            for r in 0..3 {
                for c in 0..3 {
                    seen[sudoku.cell(br * 3 + r, bc * 3 + c).get_value() as usize] += 1;
                }
            }
            for v in 1..=9 {
                assert_eq!(seen[v], 1, "box {} {} misses or repeats {}", br, bc, v);
            }
        }
    }
}

// The shipped 27-clue puzzle is solved: the search succeeds, the clues stay
// where they were, and every row, column and box is a permutation of 1..=9.
#[test]
fn shipped_puzzle_solves() {
    let mut sudoku = Sudoku::new();
    load_puzzle(&mut sudoku);
    assert!(solve_sudoku(&mut sudoku));
    assert!(matches!(sudoku.get_legal_empty_cell(), CellLookup::Completed));
    assert_groups_are_permutations(&sudoku);

    // spot-check that the clues were kept
    assert_eq!(sudoku.cell(0, 2).get_value(), 7);
    assert!(sudoku.cell(0, 2).is_fixed());
    assert_eq!(sudoku.cell(8, 6).get_value(), 5);
    assert!(sudoku.cell(8, 6).is_fixed());
    assert!(!sudoku.cell(0, 0).is_fixed());
}

// Solving twice from freshly loaded identical clues yields identical grids.
#[test]
fn solve_is_repeatable() {
    let mut first = Sudoku::new();
    load_puzzle(&mut first);
    assert!(solve_sudoku(&mut first));

    let mut second = Sudoku::new();
    load_puzzle(&mut second);
    assert!(solve_sudoku(&mut second));

    for r in 0..9 {
        for c in 0..9 {
            assert_eq!(first.cell(r, c).get_value(), second.cell(r, c).get_value());
            assert_eq!(first.cell(r, c).is_fixed(), second.cell(r, c).is_fixed());
        }
    }
}

// Clues that leave some cell without any candidate make the search fail, and
// failure hands the board back exactly as it was loaded.
#[test]
fn unsolvable_puzzle_reports_failure() {
    let mut sudoku = Sudoku::new();
    for c in 0..8usize {
        sudoku.write_fixed(c as u8 + 1, 0, c);
    }
    // 9 in the same box as (0, 8) leaves (0, 8) without candidates
    sudoku.write_fixed(9, 1, 7);

    assert!(!solve_sudoku(&mut sudoku));
    for c in 0..8usize {
        assert_eq!(sudoku.cell(0, c).get_value(), c as u8 + 1);
        assert!(sudoku.cell(0, c).is_fixed());
    }
    assert_eq!(sudoku.cell(1, 7).get_value(), 9);
    for r in 1..9 {
        for c in 0..9 {
            if !(r == 1 && c == 7) {
                assert!(sudoku.cell(r, c).is_empty());
            }
        }
    }
    assert!(sudoku.cell(0, 8).is_empty());
    assert!(!sudoku.cell(0, 8).validate_candidates());
}
