//! Laws about fully solved boards: in a complete board without conflicts,
//! every row, every column, and every box holds each digit 1..=9 — each
//! group is a permutation of the nine digits.

use vstd::prelude::*;
use vstd::set_lib::{lemma_int_range, set_int_range};

use crate::sudoku::{in_range, sees, Sudoku};

verus! {

broadcast use vstd::set::group_set_axioms;

/// The values of the first `k` cells of a peer group, the group given as an
/// enumeration of its nine positions.
spec fn group_vals(s: Sudoku, gf: spec_fn(int) -> (int, int), k: int) -> Set<int>
    decreases k,
{
    if k <= 0 {
        Set::empty()
    } else {
        group_vals(s, gf, k - 1).insert(s.at(gf(k - 1).0, gf(k - 1).1).value as int)
    }
}

/// Nine positions, pairwise distinct and pairwise seeing each other.
spec fn is_peer_group(gf: spec_fn(int) -> (int, int)) -> bool {
    &&& forall|k: int| 0 <= k < 9 ==> in_range((#[trigger] gf(k)).0, gf(k).1)
    &&& forall|k1: int, k2: int|
        0 <= k1 < 9 && 0 <= k2 < 9 && k1 != k2 ==> (#[trigger] gf(k1)) != (#[trigger] gf(k2))
            && sees(gf(k1).0, gf(k1).1, gf(k2).0, gf(k2).1)
}

/// On a complete, conflict-free board, the first `k` cells of a peer group
/// hold `k` pairwise distinct digits out of 1..=9.
proof fn lemma_group_vals_props(s: Sudoku, gf: spec_fn(int) -> (int, int), k: int)
    requires
        s.wf(),
        s.complete(),
        s.no_conflicts(),
        is_peer_group(gf),
        0 <= k <= 9,
    ensures
        group_vals(s, gf, k).finite(),
        group_vals(s, gf, k).len() == k,
        group_vals(s, gf, k).subset_of(set_int_range(1, 10)),
        forall|x: int|
            #[trigger] group_vals(s, gf, k).contains(x) <==> exists|k2: int|
                0 <= k2 < k && s.at((#[trigger] gf(k2)).0, gf(k2).1).value == x,
    decreases k,
{
    if k > 0 {
        lemma_group_vals_props(s, gf, k - 1);
        let (i, j) = gf(k - 1);
        let v = s.at(i, j).value as int;
        assert(in_range(i, j));
        assert(s.at(i, j).value != 0);
        assert(1 <= v <= 9);
        // the new digit is not among the earlier ones: two group cells that
        // shared it would see each other and conflict
        if group_vals(s, gf, k - 1).contains(v) {
            let k2 = choose|k2: int|
                0 <= k2 < k - 1 && s.at((#[trigger] gf(k2)).0, gf(k2).1).value == v;
            let (a, b) = gf(k2);
            assert(gf(k2) != gf(k - 1) && sees(a, b, i, j));
            assert(s.digit_blocked(v, i, j));
            assert(!s.digit_blocked(s.at(i, j).value as int, i, j));
            assert(false);
        }
        assert(group_vals(s, gf, k) =~= group_vals(s, gf, k - 1).insert(v));
        assert forall|x: int| #[trigger] group_vals(s, gf, k).contains(x) implies exists|k2: int|
            0 <= k2 < k && s.at((#[trigger] gf(k2)).0, gf(k2).1).value == x by {
            if x == v {
                assert(s.at(gf(k - 1).0, gf(k - 1).1).value == x);
            } else {
                assert(group_vals(s, gf, k - 1).contains(x));
            }
        }
        assert forall|x: int|
            (exists|k2: int| 0 <= k2 < k && s.at((#[trigger] gf(k2)).0, gf(k2).1).value
                == x) implies #[trigger] group_vals(s, gf, k).contains(x) by {
            let k2 = choose|k2: int|
                0 <= k2 < k && s.at((#[trigger] gf(k2)).0, gf(k2).1).value == x;
            if k2 == k - 1 {
                assert(group_vals(s, gf, k).contains(v));
            } else {
                assert(group_vals(s, gf, k - 1).contains(x));
            }
        }
    } else {
        assert forall|x: int| !(#[trigger] group_vals(s, gf, k).contains(x)) by {}
    }
}

/// A peer group of a complete, conflict-free board holds every digit.
proof fn lemma_group_has_digit(s: Sudoku, gf: spec_fn(int) -> (int, int), d: int)
    requires
        s.wf(),
        s.complete(),
        s.no_conflicts(),
        is_peer_group(gf),
        1 <= d <= 9,
    ensures
        exists|k: int| 0 <= k < 9 && s.at((#[trigger] gf(k)).0, gf(k).1).value == d,
{
    lemma_group_vals_props(s, gf, 9);
    lemma_int_range(1, 10);
    if !group_vals(s, gf, 9).contains(d) {
        group_vals(s, gf, 9).lemma_subset_not_in_lt(set_int_range(1, 10), d);
        assert(false);
    }
}

/// Row `r` of a complete, conflict-free board holds digit `d` somewhere.
pub proof fn lemma_solved_row_has_digit(s: Sudoku, r: int, d: int)
    requires
        s.wf(),
        s.complete(),
        s.no_conflicts(),
        0 <= r < 9,
        1 <= d <= 9,
    ensures
        exists|c: int| 0 <= c < 9 && (#[trigger] s.at(r, c)).value == d,
{
    let gf = |k: int| (r, k);
    lemma_group_has_digit(s, gf, d);
    let k = choose|k: int| 0 <= k < 9 && s.at((#[trigger] gf(k)).0, gf(k).1).value == d;
    assert(s.at(r, k).value == d);
}

/// Column `c` of a complete, conflict-free board holds digit `d` somewhere.
pub proof fn lemma_solved_col_has_digit(s: Sudoku, c: int, d: int)
    requires
        s.wf(),
        s.complete(),
        s.no_conflicts(),
        0 <= c < 9,
        1 <= d <= 9,
    ensures
        exists|r: int| 0 <= r < 9 && (#[trigger] s.at(r, c)).value == d,
{
    let gf = |k: int| (k, c);
    lemma_group_has_digit(s, gf, d);
    let k = choose|k: int| 0 <= k < 9 && s.at((#[trigger] gf(k)).0, gf(k).1).value == d;
    assert(s.at(k, c).value == d);
}

/// The box with corner (3 * br, 3 * bc) of a complete, conflict-free board
/// holds digit `d` somewhere.
pub proof fn lemma_solved_box_has_digit(s: Sudoku, br: int, bc: int, d: int)
    requires
        s.wf(),
        s.complete(),
        s.no_conflicts(),
        0 <= br < 3,
        0 <= bc < 3,
        1 <= d <= 9,
    ensures
        exists|i: int, j: int|
            0 <= i < 3 && 0 <= j < 3 && (#[trigger] s.at(3 * br + i, 3 * bc + j)).value == d,
{
    let gf = |k: int| (3 * br + k / 3, 3 * bc + k % 3);
    lemma_group_has_digit(s, gf, d);
    let k = choose|k: int| 0 <= k < 9 && s.at((#[trigger] gf(k)).0, gf(k).1).value == d;
    assert(s.at(3 * br + k / 3, 3 * bc + k % 3).value == d);
}

} // verus!
