//! The backtracking search: ask the board for the next open cell, try each
//! digit that is still a candidate there, recurse, and erase the trial when
//! the branch fails.

use vstd::prelude::*;

use crate::sudoku::{
    board_eq, cell_eq, in_range, lemma_board_eq_props, lemma_board_eq_trans,
    lemma_write_then_erase_restores, num_empty, open_cell, peers_keep_candidates, place_effect,
    sees, CellLookup, Sudoku,
};

verus! {

/// Cell-by-cell agreement is reflexive.
proof fn lemma_board_eq_refl(x: Sudoku)
    ensures
        board_eq(x, x),
{
    assert forall|i: int, j: int| in_range(i, j) implies cell_eq(
        #[trigger] x.at(i, j),
        x.at(i, j),
    ) by {}
}

/// Every digit already placed in `x` is placed identically in `t`.
pub open spec fn extends_values(t: Sudoku, x: Sudoku) -> bool {
    forall|i: int, j: int|
        in_range(i, j) && (#[trigger] x.at(i, j)).value != 0 ==> t.at(i, j).value == x.at(
            i,
            j,
        ).value
}

/// A completely and consistently filled grid.
pub open spec fn is_solution(t: Sudoku) -> bool {
    &&& t.complete()
    &&& t.no_conflicts()
    &&& forall|i: int, j: int| in_range(i, j) ==> (#[trigger] t.at(i, j)).value <= 9
}

/// The board can be completed: some solution keeps every digit it holds.
pub open spec fn solvable(x: Sudoku) -> bool {
    exists|t: Sudoku| is_solution(t) && #[trigger] extends_values(t, x)
}

/// The two boards hold the same digits everywhere.
pub open spec fn same_values(x: Sudoku, y: Sudoku) -> bool {
    forall|i: int, j: int| in_range(i, j) ==> (#[trigger] x.at(i, j)).value == y.at(i, j).value
}

/// Runs of the solver from identical clues end in identical grids whenever
/// the puzzle has exactly one solution: by `solve_sudoku`'s contract each
/// successful run ends in a solution extending the clues, and a
/// unique-solution puzzle admits only one such grid.
pub proof fn lemma_unique_solution_same_grid(x: Sudoku, t1: Sudoku, t2: Sudoku)
    requires
        is_solution(t1) && extends_values(t1, x),
        is_solution(t2) && extends_values(t2, x),
        forall|u1: Sudoku, u2: Sudoku|
            is_solution(u1) && #[trigger] extends_values(u1, x) && is_solution(u2)
                && #[trigger] extends_values(u2, x) ==> same_values(u1, u2),
    ensures
        same_values(t1, t2),
{
}

/// On a board with exact candidates, the digit a solution assigns to an open
/// cell is still a candidate there, and writing it cannot strip any open
/// peer of its last candidate, because the peer's own solution digit
/// survives the pruning.
proof fn lemma_solution_digit_is_safe(x: Sudoku, t: Sudoku, r: int, c: int)
    requires
        x.wf(),
        x.candidates_exact(),
        in_range(r, c),
        open_cell(x.at(r, c)),
        is_solution(t),
        extends_values(t, x),
    ensures
        1 <= t.at(r, c).value as int <= 9,
        x.at(r, c).cand(t.at(r, c).value as int),
        peers_keep_candidates(x, t.at(r, c).value as int, r, c),
{
    let v = t.at(r, c).value as int;
    assert(t.at(r, c).value != 0);
    if x.digit_blocked(v, r, c) {
        let (a, b) = choose|a: int, b: int|
            in_range(a, b) && !(a == r && b == c) && (#[trigger] x.at(a, b)).value == v && sees(
                a,
                b,
                r,
                c,
            );
        assert(t.at(a, b).value == v);
        assert(t.digit_blocked(v, r, c));
        assert(!t.digit_blocked(t.at(r, c).value as int, r, c));
        assert(false);
    }
    assert(x.at(r, c).cand(v));
    assert forall|i: int, j: int|
        in_range(i, j) && !(i == r && j == c) && sees(r, c, i, j) && open_cell(
            #[trigger] x.at(i, j),
        ) implies exists|d: int| 1 <= d <= 9 && d != v && x.at(i, j).cand(d) by {
        let d = t.at(i, j).value as int;
        assert(t.at(i, j).value != 0);
        assert(1 <= d <= 9);
        assert(!t.digit_blocked(d, i, j));
        if d == v {
            assert(t.digit_blocked(v, i, j));
            assert(false);
        }
        if x.digit_blocked(d, i, j) {
            let (a, b) = choose|a: int, b: int|
                in_range(a, b) && !(a == i && b == j) && (#[trigger] x.at(a, b)).value == d && sees(
                    a,
                    b,
                    i,
                    j,
                );
            assert(t.at(a, b).value == d);
            assert(t.digit_blocked(d, i, j));
            assert(false);
        }
        assert(x.at(i, j).cand(d));
    }
}

/// A solution that assigns `v` to (r, c) still extends the board once `v`
/// has been placed there.
proof fn lemma_extends_after_place(t: Sudoku, pre: Sudoku, post: Sudoku, v: int, r: int, c: int)
    requires
        in_range(r, c),
        place_effect(pre, post, v, r, c, false),
        extends_values(t, pre),
        t.at(r, c).value as int == v,
    ensures
        extends_values(t, post),
{
    assert forall|i: int, j: int|
        in_range(i, j) && (#[trigger] post.at(i, j)).value != 0 implies t.at(i, j).value == post.at(
        i,
        j,
    ).value by {
        if !(i == r && j == c) {
            assert(post.at(i, j).value == pre.at(i, j).value);
            assert(pre.at(i, j).value == post.at(i, j).value && pre.at(i, j).value != 0);
        }
    }
}

/// Extending a board only looks at its values, so it carries over to any
/// board that agrees cell by cell.
proof fn lemma_extends_board_eq(t: Sudoku, x: Sudoku, y: Sudoku)
    requires
        board_eq(x, y),
        extends_values(t, y),
    ensures
        extends_values(t, x),
{
    assert forall|i: int, j: int|
        in_range(i, j) && (#[trigger] x.at(i, j)).value != 0 implies t.at(i, j).value == x.at(
        i,
        j,
    ).value by {
        assert(cell_eq(x.at(i, j), y.at(i, j)));
        assert(y.at(i, j).value != 0);
    }
}

/// Solve the board by depth-first search over its open cells, in row-major
/// order, trying digits in ascending order. The search succeeds exactly when
/// some complete, conflict-free grid extends the digits already on the
/// board. On success the board is left completely filled and free of
/// conflicts, with every clue and every previously placed digit untouched;
/// on failure every trial has been erased and the board is exactly as it was
/// handed in.
#[verifier::loop_isolation(false)]
pub fn solve_sudoku(sudoku: &mut Sudoku) -> (res: bool)
    requires
        old(sudoku).wf(),
        old(sudoku).candidates_exact(),
        old(sudoku).no_conflicts(),
    ensures
        final(sudoku).wf(),
        final(sudoku).candidates_exact(),
        final(sudoku).no_conflicts(),
        res == solvable(*old(sudoku)),
        res ==> is_solution(*final(sudoku)) && extends_values(*final(sudoku), *old(sudoku)),
        res ==> forall|i: int, j: int|
            in_range(i, j) ==> (#[trigger] final(sudoku).at(i, j)).fixed == old(sudoku).at(
                i,
                j,
            ).fixed,
        !res ==> board_eq(*final(sudoku), *old(sudoku)),
    decreases num_empty(*old(sudoku)),
{
    match sudoku.get_legal_empty_cell() {
        CellLookup::Completed => {
            proof {
                lemma_board_eq_refl(*sudoku);
                assert forall|i: int, j: int| in_range(i, j) implies (
                #[trigger] sudoku.at(i, j)).value <= 9 by {}
                assert(is_solution(*sudoku));
                assert(extends_values(*sudoku, *sudoku));
                assert(solvable(*sudoku));
            }
            true
        },
        CellLookup::LegalCell(r, c) => {
            let ghost s0 = *sudoku;
            let ghost ri = r as int;
            let ghost ci = c as int;
            proof {
                assert forall|t: Sudoku|
                    is_solution(t) && #[trigger] extends_values(t, s0) implies t.at(
                    ri,
                    ci,
                ).value as int >= 1 by {
                    assert(t.at(ri, ci).value != 0);
                }
            }
            let mut num: u8 = 1;
            while num <= 9
                invariant
                    1 <= num <= 10,
                    board_eq(*sudoku, s0),
                    forall|t: Sudoku|
                        is_solution(t) && #[trigger] extends_values(t, s0) ==> t.at(
                            ri,
                            ci,
                        ).value as int >= num as int,
                decreases 10 - num,
            {
                if sudoku.cell(r, c).has_candidate(num) {
                    proof {
                        lemma_board_eq_props(*sudoku, s0);
                        assert(cell_eq(sudoku.at(ri, ci), s0.at(ri, ci)));
                    }
                    let ghost pre_w = *sudoku;
                    let ok = sudoku.write(num, r, c);
                    let ghost post_w = *sudoku;
                    if ok {
                        if solve_sudoku(sudoku) {
                            proof {
                                assert forall|i: int, j: int| in_range(i, j) implies (
                                #[trigger] sudoku.at(i, j)).fixed == s0.at(i, j).fixed && (s0.at(
                                    i,
                                    j,
                                ).value != 0 ==> sudoku.at(i, j).value == s0.at(i, j).value) by {
                                    assert(cell_eq(pre_w.at(i, j), s0.at(i, j)));
                                    let pw = post_w.at(i, j);
                                    assert(pw.fixed == pre_w.at(i, j).fixed);
                                }
                                assert forall|i: int, j: int| in_range(i, j) implies (
                                #[trigger] sudoku.at(i, j)).value <= 9 by {}
                                assert(is_solution(*sudoku));
                                assert(extends_values(*sudoku, s0));
                                assert(solvable(s0));
                            }
                            return true;
                        }
                    }
                    let ghost pre_e = *sudoku;
                    proof {
                        if !ok {
                            lemma_board_eq_refl(*sudoku);
                        }
                        assert(board_eq(pre_e, post_w));
                        lemma_board_eq_props(pre_e, post_w);
                        assert(cell_eq(pre_e.at(ri, ci), post_w.at(ri, ci)));
                    }
                    sudoku.erase(r, c);
                    proof {
                        lemma_write_then_erase_restores(
                            pre_w,
                            post_w,
                            pre_e,
                            *sudoku,
                            num as int,
                            ri,
                            ci,
                        );
                        lemma_board_eq_trans(*sudoku, pre_w, s0);
                        assert forall|t: Sudoku|
                            is_solution(t) && #[trigger] extends_values(t, s0) implies t.at(
                            ri,
                            ci,
                        ).value as int >= num as int + 1 by {
                            assert(t.at(ri, ci).value as int >= num as int);
                            if t.at(ri, ci).value as int == num as int {
                                lemma_extends_board_eq(t, pre_w, s0);
                                lemma_solution_digit_is_safe(pre_w, t, ri, ci);
                                assert(ok);
                                lemma_extends_after_place(t, pre_w, post_w, num as int, ri, ci);
                                assert(solvable(post_w));
                                assert(false);
                            }
                        }
                    }
                } else {
                    proof {
                        assert forall|t: Sudoku|
                            is_solution(t) && #[trigger] extends_values(t, s0) implies t.at(
                            ri,
                            ci,
                        ).value as int >= num as int + 1 by {
                            assert(t.at(ri, ci).value as int >= num as int);
                            if t.at(ri, ci).value as int == num as int {
                                lemma_board_eq_props(*sudoku, s0);
                                assert(cell_eq(sudoku.at(ri, ci), s0.at(ri, ci)));
                                lemma_extends_board_eq(t, *sudoku, s0);
                                lemma_solution_digit_is_safe(*sudoku, t, ri, ci);
                                assert(false);
                            }
                        }
                    }
                }
                num = num + 1;
            }
            proof {
                lemma_board_eq_props(*sudoku, s0);
                if solvable(s0) {
                    let t = choose|t: Sudoku| is_solution(t) && #[trigger] extends_values(t, s0);
                    assert(t.at(ri, ci).value as int >= 10);
                    assert(t.at(ri, ci).value <= 9);
                    assert(false);
                }
            }
            false
        },
    }
}

} // verus!
