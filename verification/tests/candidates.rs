use sudoku::Sudoku;

#[test]
fn test_update_row_candidates() {
    let mut sudoku = Sudoku::new();

    sudoku.write_fixed(4, 4, 1);
    sudoku.write_fixed(5, 4, 4);
    sudoku.write_fixed(9, 4, 7);

    let mut v = [true; 9];
    v[3] = false;
    v[4] = false;
    v[8] = false;

    assert_eq!(sudoku.cell(4, 0).get_candidates(), v);
    assert_eq!(sudoku.cell(4, 2).get_candidates(), v);
    assert_eq!(sudoku.cell(4, 3).get_candidates(), v);
    assert_eq!(sudoku.cell(4, 5).get_candidates(), v);
    assert_eq!(sudoku.cell(4, 6).get_candidates(), v);
    assert_eq!(sudoku.cell(4, 8).get_candidates(), v);
}

#[test]
fn test_update_col_candidates() {
    let mut sudoku = Sudoku::new();

    sudoku.write_fixed(4, 1, 4);
    sudoku.write_fixed(5, 4, 4);
    sudoku.write_fixed(9, 7, 4);

    let mut v = [true; 9];
    v[3] = false;
    v[4] = false;
    v[8] = false;

    assert_eq!(sudoku.cell(0, 4).get_candidates(), v);
    assert_eq!(sudoku.cell(2, 4).get_candidates(), v);
    assert_eq!(sudoku.cell(3, 4).get_candidates(), v);
    assert_eq!(sudoku.cell(5, 4).get_candidates(), v);
    assert_eq!(sudoku.cell(6, 4).get_candidates(), v);
    assert_eq!(sudoku.cell(8, 4).get_candidates(), v);
}

#[test]
fn test_update_block_candidates() {
    let mut sudoku = Sudoku::new();

    sudoku.write_fixed(7, 0, 2);
    sudoku.write_fixed(9, 1, 1);
    sudoku.write_fixed(5, 2, 0);

    let mut v = [true; 9];
    v[4] = false;
    v[6] = false;
    v[8] = false;

    assert_eq!(sudoku.cell(0, 0).get_candidates(), v);
    assert_eq!(sudoku.cell(0, 1).get_candidates(), v);
    assert_eq!(sudoku.cell(1, 0).get_candidates(), v);
    assert_eq!(sudoku.cell(1, 2).get_candidates(), v);
    assert_eq!(sudoku.cell(2, 1).get_candidates(), v);
    assert_eq!(sudoku.cell(2, 2).get_candidates(), v);
}

#[test]
fn test_candidates_after_erase() {
    let mut sudoku = Sudoku::new();

    sudoku.write_fixed(9, 1, 1);
    sudoku.write(9, 8, 2);
    sudoku.erase(8, 2);

    let mut v = [true; 9];

    assert_eq!(sudoku.cell(3, 0).get_candidates(), v);
    assert_eq!(sudoku.cell(4, 0).get_candidates(), v);
    assert_eq!(sudoku.cell(5, 0).get_candidates(), v);
    assert_eq!(sudoku.cell(6, 2).get_candidates(), v);
    assert_eq!(sudoku.cell(7, 2).get_candidates(), v);
    assert_eq!(sudoku.cell(8, 2).get_candidates(), v);

    v[8] = false;

    assert_eq!(sudoku.cell(6, 1).get_candidates(), v);
    assert_eq!(sudoku.cell(7, 1).get_candidates(), v);
    assert_eq!(sudoku.cell(8, 1).get_candidates(), v);
}

// Placing a digit prunes it from every open peer in the row, the column and
// the box, and from nowhere else.
#[test]
fn write_prunes_peers_and_nothing_else() {
    let mut sudoku = Sudoku::new();
    assert!(sudoku.write(4, 4, 1));

    // row, column and box peers lose 4 and only 4
    let mut pruned = [true; 9];
    pruned[3] = false;
    assert_eq!(sudoku.cell(4, 7).get_candidates(), pruned);
    assert_eq!(sudoku.cell(0, 1).get_candidates(), pruned);
    assert_eq!(sudoku.cell(5, 2).get_candidates(), pruned);

    // cells outside all three groups are untouched
    let open = [true; 9];
    assert_eq!(sudoku.cell(0, 0).get_candidates(), open);
    assert_eq!(sudoku.cell(8, 8).get_candidates(), open);
    assert_eq!(sudoku.cell(2, 4).get_candidates(), open);
}

// Erasing restores the digit unless another occurrence still constrains the
// peer: two 9s in one column both see the box cells next to them.
#[test]
fn erase_keeps_constraint_from_other_occurrence() {
    let mut sudoku = Sudoku::new();
    sudoku.write_fixed(9, 1, 1);
    assert!(sudoku.write(9, 8, 2));

    // (7, 0) sees both the erased cell's box and nothing else with a 9
    assert!(!sudoku.cell(7, 0).has_candidate(9));
    sudoku.erase(8, 2);
    // restored: only the remaining 9 at (1, 1) constrains now
    assert!(sudoku.cell(7, 0).has_candidate(9));
    assert!(!sudoku.cell(0, 1).has_candidate(9));
    assert!(sudoku.cell(8, 2).is_empty());
    assert!(!sudoku.cell(8, 2).is_fixed());
}
