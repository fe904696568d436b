//! The board model: 81 cells, each with a value, a clue flag, and a set of
//! candidate digits, kept in sync with the values of the cell's peers as
//! values are written and erased.

use vstd::prelude::*;

verus! {

/// Result of scanning the board for the next open cell.
#[derive(Debug, Clone)]
pub enum CellLookup {
    Completed,
    LegalCell(usize, usize),
}

/// One of the 81 board positions: a digit (0 means empty), a flag marking
/// puzzle clues, and a boolean set over the digits 1..=9 recording which are
/// not yet ruled out by a peer.
#[derive(Clone, Copy)]
pub struct Cell {
    pub value: u8,
    pub fixed: bool,
    pub candidates: [bool; 9],
}

/// Positions are in the 9x9 grid.
pub open spec fn in_range(i: int, j: int) -> bool {
    0 <= i < 9 && 0 <= j < 9
}

/// Two positions see each other when they share a row, a column, or a 3x3 box.
/// A position sees itself.
pub open spec fn sees(r1: int, c1: int, r2: int, c2: int) -> bool {
    ||| r1 == r2
    ||| c1 == c2
    ||| (r1 / 3 == r2 / 3 && c1 / 3 == c2 / 3)
}

impl Cell {
    /// Digit `d` (in 1..=9) is still listed as possible for this cell.
    pub open spec fn cand(self, d: int) -> bool
        recommends
            1 <= d <= 9,
    {
        self.candidates[d - 1]
    }

    /// At least one digit is still listed as possible.
    pub open spec fn has_any_candidate(self) -> bool {
        exists|d: int| 1 <= d <= 9 && self.cand(d)
    }
}

/// The two cells list exactly the same candidate digits.
pub open spec fn cands_eq(n: Cell, o: Cell) -> bool {
    forall|d: int| 1 <= d <= 9 ==> n.cand(d) == o.cand(d)
}

/// The two cells agree on value, clue flag, and every candidate digit.
pub open spec fn cell_eq(n: Cell, o: Cell) -> bool {
    n.value == o.value && n.fixed == o.fixed && cands_eq(n, o)
}

/// `n` is `o` with candidate `v` forced to `b` and everything else unchanged.
pub open spec fn toggled(n: Cell, o: Cell, v: int, b: bool) -> bool {
    &&& n.value == o.value
    &&& n.fixed == o.fixed
    &&& n.cand(v) == b
    &&& forall|d: int| 1 <= d <= 9 && d != v ==> n.cand(d) == o.cand(d)
}

impl Cell {
    fn new() -> (c: Cell)
        ensures
            c.value == 0,
            !c.fixed,
            forall|d: int| 1 <= d <= 9 ==> c.cand(d),
    {
        Cell { value: 0, fixed: false, candidates: [true; 9] }
    }

    pub fn is_fixed(&self) -> (r: bool)
        ensures
            r == self.fixed,
    {
        self.fixed
    }

    pub fn has_candidate(&self, v: u8) -> (r: bool)
        requires
            1 <= v <= 9,
        ensures
            r == self.cand(v as int),
    {
        self.candidates[(v - 1) as usize]
    }

    pub fn is_empty(&self) -> (r: bool)
        ensures
            r == (self.value == 0),
    {
        self.value == 0
    }

    /// Set candidate `v` to `b`; on a removal, report whether any candidate
    /// is left afterwards.
    pub fn update_candidate(&mut self, v: u8, b: bool) -> (r: bool)
        requires
            1 <= v <= 9,
        ensures
            toggled(*final(self), *old(self), v as int, b),
            r == (b || exists|d: int| 1 <= d <= 9 && d != v && old(self).cand(d)),
    {
        self.candidates[(v - 1) as usize] = b;
        let r = if !b {
            self.validate_candidates()
        } else {
            true
        };
        proof {
            if !b {
                if self.has_any_candidate() {
                    let d = choose|d: int| 1 <= d <= 9 && self.cand(d);
                    assert(d != v && old(self).cand(d));
                }
                if exists|d: int| 1 <= d <= 9 && d != v && old(self).cand(d) {
                    let d = choose|d: int| 1 <= d <= 9 && d != v && old(self).cand(d);
                    assert(self.cand(d));
                }
            }
        }
        r
    }

    pub fn get_candidates(&self) -> (r: &[bool])
        ensures
            r@ == self.candidates@,
    {
        &self.candidates
    }

    pub fn get_value(&self) -> (r: u8)
        ensures
            r == self.value,
    {
        self.value
    }

    /// True when the candidate set is not empty.
    pub fn validate_candidates(&self) -> (r: bool)
        ensures
            r == self.has_any_candidate(),
    {
        let r = self.candidates[0] || self.candidates[1] || self.candidates[2]
            || self.candidates[3] || self.candidates[4] || self.candidates[5]
            || self.candidates[6] || self.candidates[7] || self.candidates[8];
        proof {
            if r {
                assert(exists|d: int| 1 <= d <= 9 && self.cand(d)) by {
                    if self.candidates[0] {
                        assert(self.cand(1));
                    } else if self.candidates[1] {
                        assert(self.cand(2));
                    } else if self.candidates[2] {
                        assert(self.cand(3));
                    } else if self.candidates[3] {
                        assert(self.cand(4));
                    } else if self.candidates[4] {
                        assert(self.cand(5));
                    } else if self.candidates[5] {
                        assert(self.cand(6));
                    } else if self.candidates[6] {
                        assert(self.cand(7));
                    } else if self.candidates[7] {
                        assert(self.cand(8));
                    } else {
                        assert(self.cand(9));
                    }
                }
            } else {
                assert forall|d: int| 1 <= d <= 9 implies !self.cand(d) by {
                    assert(!self.candidates[d - 1]);
                }
            }
        }
        r
    }
}

/// A 9x9 Sudoku board, stored row-major as 81 cells.
pub struct Sudoku {
    pub cells: [Cell; 81],
}

impl Sudoku {
    /// The cell in row `i`, column `j`.
    pub open spec fn at(self, i: int, j: int) -> Cell
        recommends
            in_range(i, j),
    {
        self.cells[i * 9 + j]
    }

    /// Values stay in 0..=9 and clue cells always hold a digit.
    pub open spec fn wf(self) -> bool {
        forall|i: int, j: int|
            in_range(i, j) ==> (#[trigger] self.at(i, j)).value <= 9 && (self.at(i, j).fixed
                ==> 1 <= self.at(i, j).value)
    }

    /// Digit `d` appears at some position other than (i, j) that sees (i, j).
    pub open spec fn digit_blocked(self, d: int, i: int, j: int) -> bool {
        exists|a: int, b: int|
            in_range(a, b) && !(a == i && b == j) && (#[trigger] self.at(a, b)).value == d && sees(
                a,
                b,
                i,
                j,
            )
    }

    /// Every open (empty, non-clue) cell lists exactly the digits that no
    /// peer currently holds.
    pub open spec fn candidates_exact(self) -> bool {
        forall|i: int, j: int, d: int|
            in_range(i, j) && 1 <= d <= 9 && self.at(i, j).value == 0 && !self.at(i, j).fixed ==> (
            (#[trigger] self.at(i, j).cand(d)) <==> !self.digit_blocked(d, i, j))
    }

    /// No two positions that see each other hold the same digit.
    pub open spec fn no_conflicts(self) -> bool {
        forall|i: int, j: int|
            in_range(i, j) && (#[trigger] self.at(i, j)).value != 0 ==> !self.digit_blocked(
                self.at(i, j).value as int,
                i,
                j,
            )
    }

    /// Every cell holds a digit.
    pub open spec fn complete(self) -> bool {
        forall|i: int, j: int| in_range(i, j) ==> (#[trigger] self.at(i, j)).value != 0
    }
}

/// An open cell: empty and not a clue, so candidate bookkeeping applies.
pub open spec fn open_cell(c: Cell) -> bool {
    c.value == 0 && !c.fixed
}

/// Every open cell of `pre` that sees (r, c) has candidate `v` forced to `b`
/// in `post`; every other cell is unchanged.
pub open spec fn toggle_effect(pre: Sudoku, post: Sudoku, v: int, r: int, c: int, b: bool) -> bool {
    forall|i: int, j: int|
        #![trigger post.at(i, j)]
        in_range(i, j) ==> if sees(r, c, i, j) && open_cell(pre.at(i, j)) {
            toggled(post.at(i, j), pre.at(i, j), v, b)
        } else {
            post.at(i, j) == pre.at(i, j)
        }
}

/// No open cell seeing (r, c) is left without candidates once `v` is removed.
pub open spec fn prune_safe(pre: Sudoku, v: int, r: int, c: int) -> bool {
    forall|i: int, j: int|
        #![trigger pre.at(i, j)]
        in_range(i, j) && sees(r, c, i, j) && open_cell(pre.at(i, j)) ==> exists|d: int|
            1 <= d <= 9 && d != v && pre.at(i, j).cand(d)
}

/// The two boards agree cell by cell.
pub open spec fn board_eq(x: Sudoku, y: Sudoku) -> bool {
    forall|i: int, j: int|
        #![trigger x.at(i, j)]
        #![trigger y.at(i, j)]
        in_range(i, j) ==> cell_eq(x.at(i, j), y.at(i, j))
}

/// `post` is `pre` with digit `v` placed at the open cell (r, c) (as a clue
/// when `fx`), the candidate `v` removed from every open cell that sees
/// (r, c), and nothing else changed.
pub open spec fn place_effect(pre: Sudoku, post: Sudoku, v: int, r: int, c: int, fx: bool) -> bool {
    &&& post.at(r, c).value == v
    &&& post.at(r, c).fixed == fx
    &&& cands_eq(post.at(r, c), pre.at(r, c))
    &&& forall|i: int, j: int|
        #![trigger post.at(i, j)]
        in_range(i, j) && !(i == r && j == c) ==> if sees(r, c, i, j) && open_cell(pre.at(i, j)) {
            toggled(post.at(i, j), pre.at(i, j), v, false)
        } else {
            post.at(i, j) == pre.at(i, j)
        }
}

/// No open cell other than (r, c) that sees (r, c) is left without candidates
/// once `v` is removed from it.
pub open spec fn peers_keep_candidates(pre: Sudoku, v: int, r: int, c: int) -> bool {
    forall|i: int, j: int|
        #![trigger pre.at(i, j)]
        in_range(i, j) && !(i == r && j == c) && sees(r, c, i, j) && open_cell(pre.at(i, j))
            ==> exists|d: int| 1 <= d <= 9 && d != v && pre.at(i, j).cand(d)
}

/// Digit `v` appears at some position other than (r, c) that sees (i, j).
pub open spec fn value_elsewhere_sees(s: Sudoku, v: int, r: int, c: int, i: int, j: int) -> bool {
    exists|a: int, b: int|
        in_range(a, b) && !(a == r && b == c) && (#[trigger] s.at(a, b)).value == v && sees(
            a,
            b,
            i,
            j,
        )
}

/// Digit `v` appears at some position with flat index below `t` that sees
/// (i, j).
spec fn blocked_upto(s: Sudoku, v: int, i: int, j: int, t: int) -> bool {
    exists|a: int, b: int|
        in_range(a, b) && a * 9 + b < t && (#[trigger] s.at(a, b)).value == v && sees(a, b, i, j)
}

/// What erasing the digit at (r, c) does to the single cell (i, j): the
/// erased cell goes back to empty, and a cell that is open afterwards lists
/// the erased digit again exactly when no other occurrence of that digit
/// sees it — either because it sees (r, c) and was handed the digit back, or
/// because it had kept it all along.
pub open spec fn erase_cell_ok(pre: Sudoku, post: Sudoku, r: int, c: int, i: int, j: int) -> bool {
    let v = pre.at(r, c).value as int;
    let oc = pre.at(i, j);
    let nc = post.at(i, j);
    &&& nc.fixed == oc.fixed
    &&& nc.value == (if i == r && j == c {
        0
    } else {
        oc.value
    })
    &&& if (i == r && j == c) || open_cell(oc) {
        &&& (forall|d: int| 1 <= d <= 9 && d != v ==> nc.cand(d) == oc.cand(d))
        &&& nc.cand(v) == (if value_elsewhere_sees(pre, v, r, c, i, j) {
            false
        } else if sees(r, c, i, j) {
            true
        } else {
            oc.cand(v)
        })
    } else {
        cands_eq(nc, oc)
    }
}

/// `post` is `pre` with the cell (r, c) erased: its digit is cleared and
/// handed back as a candidate to every open cell that sees (r, c) — except
/// where another occurrence of the digit still rules it out.
pub open spec fn erase_effect(pre: Sudoku, post: Sudoku, r: int, c: int) -> bool {
    forall|i: int, j: int|
        in_range(i, j) ==> #[trigger] erase_cell_ok(pre, post, r, c, i, j)
}

/// One cell's obligation while the correcting scan of
/// `correct_candidates_for_value` has processed the cells with flat index
/// below `t`.
spec fn correct_cell_ok(s0: Sudoku, s: Sudoku, v: int, t: int, i: int, j: int) -> bool {
    let oc = s0.at(i, j);
    let nc = s.at(i, j);
    if open_cell(oc) {
        &&& nc.value == oc.value
        &&& nc.fixed == oc.fixed
        &&& (forall|d: int| 1 <= d <= 9 && d != v ==> nc.cand(d) == oc.cand(d))
        &&& nc.cand(v) == (oc.cand(v) && !blocked_upto(s0, v, i, j, t))
    } else {
        nc == oc
    }
}

/// Loop invariant of the correcting scan.
spec fn correct_scan_inv(s0: Sudoku, s: Sudoku, v: int, t: int) -> bool {
    forall|i: int, j: int|
        in_range(i, j) ==> #[trigger] correct_cell_ok(s0, s, v, t, i, j)
}

/// How many of the cells from flat index `k` on are empty.
pub open spec fn empties_from(s: Sudoku, k: int) -> nat
    decreases 81 - k,
{
    if 0 <= k < 81 {
        (if s.cells[k].value == 0 {
            1nat
        } else {
            0nat
        }) + empties_from(s, k + 1)
    } else {
        0
    }
}

/// How many cells of the board are empty.
pub open spec fn num_empty(s: Sudoku) -> nat {
    empties_from(s, 0)
}

proof fn lemma_empties_change(x: Sudoku, y: Sudoku, t: int, k: int)
    requires
        0 <= t < 81,
        x.cells[t].value == 0,
        y.cells[t].value != 0,
        forall|k2: int|
            0 <= k2 < 81 && k2 != t ==> (#[trigger] x.cells[k2]).value == y.cells[k2].value,
        0 <= k <= 81,
    ensures
        k <= t ==> empties_from(x, k) == empties_from(y, k) + 1,
        k > t ==> empties_from(x, k) == empties_from(y, k),
    decreases 81 - k,
{
    if k < 81 {
        lemma_empties_change(x, y, t, k + 1);
    }
}

/// Boards whose values agree except at one cell, empty on one side and
/// filled on the other, differ by exactly one in their count of empties.
proof fn lemma_fill_count(x: Sudoku, y: Sudoku, r: int, c: int)
    requires
        in_range(r, c),
        x.at(r, c).value == 0,
        y.at(r, c).value != 0,
        forall|i: int, j: int|
            in_range(i, j) && !(i == r && j == c) ==> (#[trigger] x.at(i, j)).value == y.at(
                i,
                j,
            ).value,
    ensures
        num_empty(x) == num_empty(y) + 1,
{
    let t = r * 9 + c;
    assert forall|k2: int| 0 <= k2 < 81 && k2 != t implies (#[trigger] x.cells[k2]).value
        == y.cells[k2].value by {
        let i = k2 / 9;
        let j = k2 % 9;
        assert(in_range(i, j));
        assert(i * 9 + j == k2);
        assert(!(i == r && j == c));
        assert(x.at(i, j).value == y.at(i, j).value);
    }
    assert(x.cells[t].value == 0);
    assert(y.cells[t].value != 0);
    lemma_empties_change(x, y, t, 0);
}

/// Placing a digit in an open cell fills exactly one cell.
proof fn lemma_place_empties(pre: Sudoku, post: Sudoku, v: int, r: int, c: int, fx: bool)
    requires
        in_range(r, c),
        1 <= v <= 9,
        pre.at(r, c).value == 0,
        place_effect(pre, post, v, r, c, fx),
    ensures
        num_empty(pre) == num_empty(post) + 1,
{
    assert forall|i: int, j: int|
        in_range(i, j) && !(i == r && j == c) implies (#[trigger] pre.at(i, j)).value == post.at(
        i,
        j,
    ).value by {
        assert(post.at(i, j).value == pre.at(i, j).value);
    }
    lemma_fill_count(pre, post, r, c);
}

/// Placing a digit in an open cell whose peers' candidates are exact keeps
/// them exact; when the digit itself was a candidate there, it cannot collide
/// with any peer either.
pub proof fn lemma_place_preserves_exact(
    pre: Sudoku,
    post: Sudoku,
    v: int,
    r: int,
    c: int,
    fx: bool,
)
    requires
        pre.wf(),
        in_range(r, c),
        1 <= v <= 9,
        open_cell(pre.at(r, c)),
        place_effect(pre, post, v, r, c, fx),
        pre.candidates_exact(),
    ensures
        post.candidates_exact(),
        pre.at(r, c).cand(v) && pre.no_conflicts() ==> post.no_conflicts(),
{
    assert forall|i: int, j: int, d: int|
        in_range(i, j) && 1 <= d <= 9 && post.at(i, j).value == 0 && !post.at(i, j).fixed implies (
    (#[trigger] post.at(i, j).cand(d)) <==> !post.digit_blocked(d, i, j)) by {
        assert(!(i == r && j == c));
        assert(post.at(i, j).value == pre.at(i, j).value && post.at(i, j).fixed == pre.at(
            i,
            j,
        ).fixed);
        assert(open_cell(pre.at(i, j)));
        if d != v || !sees(r, c, i, j) {
            assert(post.at(i, j).cand(d) == pre.at(i, j).cand(d));
            if post.digit_blocked(d, i, j) {
                let (a, b) = choose|a: int, b: int|
                    in_range(a, b) && !(a == i && b == j) && (#[trigger] post.at(a, b)).value == d
                        && sees(a, b, i, j);
                assert(!(a == r && b == c));
                assert(pre.at(a, b).value == d);
                assert(pre.digit_blocked(d, i, j));
            }
            if pre.digit_blocked(d, i, j) {
                let (a, b) = choose|a: int, b: int|
                    in_range(a, b) && !(a == i && b == j) && (#[trigger] pre.at(a, b)).value == d
                        && sees(a, b, i, j);
                assert(!(a == r && b == c));
                assert(post.at(a, b).value == d);
                assert(post.digit_blocked(d, i, j));
            }
        } else {
            assert(toggled(post.at(i, j), pre.at(i, j), v, false));
            assert(!post.at(i, j).cand(v));
            assert(post.at(r, c).value == v && sees(r, c, i, j) && !(r == i && c == j));
            assert(post.digit_blocked(v, i, j));
        }
    }
    if pre.at(r, c).cand(v) && pre.no_conflicts() {
        assert(!pre.digit_blocked(v, r, c));
        assert forall|i: int, j: int|
            in_range(i, j) && (#[trigger] post.at(i, j)).value != 0 implies !post.digit_blocked(
            post.at(i, j).value as int,
            i,
            j,
        ) by {
            if i == r && j == c {
                if post.digit_blocked(v, r, c) {
                    let (a, b) = choose|a: int, b: int|
                        in_range(a, b) && !(a == r && b == c) && (#[trigger] post.at(a, b)).value
                            == v && sees(a, b, r, c);
                    assert(pre.at(a, b).value == v);
                    assert(pre.digit_blocked(v, r, c));
                }
            } else {
                let d = post.at(i, j).value as int;
                assert(pre.at(i, j).value == d);
                assert(1 <= d <= 9);
                assert(!pre.digit_blocked(d, i, j));
                if post.digit_blocked(d, i, j) {
                    let (a, b) = choose|a: int, b: int|
                        in_range(a, b) && !(a == i && b == j) && (#[trigger] post.at(a, b)).value
                            == d && sees(a, b, i, j);
                    if a == r && b == c {
                        assert(d == v);
                        assert(pre.at(i, j).value == v && sees(i, j, r, c) && !(i == r && j == c));
                        assert(pre.digit_blocked(v, r, c));
                    } else {
                        assert(pre.at(a, b).value == d);
                        assert(pre.digit_blocked(d, i, j));
                    }
                }
            }
        }
    }
}

impl Sudoku {
    /// A board with every cell empty, no clues, and all nine digits open
    /// everywhere.
    pub fn new() -> (s: Sudoku)
        ensures
            s.wf(),
            s.candidates_exact(),
            s.no_conflicts(),
            forall|i: int, j: int|
                in_range(i, j) ==> (#[trigger] s.at(i, j)).value == 0 && !s.at(i, j).fixed,
            forall|i: int, j: int, d: int|
                in_range(i, j) && 1 <= d <= 9 ==> (#[trigger] s.at(i, j).cand(d)),
    {
        let s = Sudoku { cells: [Cell::new(); 81] };
        proof {
            assert forall|i: int, j: int| in_range(i, j) implies (#[trigger] s.at(i, j)).value == 0
                && !s.at(i, j).fixed && forall|d: int| 1 <= d <= 9 ==> s.at(i, j).cand(d) by {
                assert(s.cells[i * 9 + j] == s.cells@[i * 9 + j]);
            }
        }
        s
    }

    /// Read-only view of the cell in row `r`, column `c`.
    pub fn cell(&self, r: usize, c: usize) -> (res: &Cell)
        requires
            r < 9,
            c < 9,
        ensures
            *res == self.at(r as int, c as int),
    {
        &self.cells[r * 9 + c]
    }

    fn update_candidates_for_row(&mut self, value: u8, r: usize, b: bool) -> (res: bool)
        requires
            1 <= value <= 9,
            r < 9,
        ensures
            forall|i: int, j: int|
                #![trigger final(self).at(i, j)]
                in_range(i, j) ==> if i == r && open_cell(old(self).at(i, j)) {
                    toggled(final(self).at(i, j), old(self).at(i, j), value as int, b)
                } else {
                    final(self).at(i, j) == old(self).at(i, j)
                },
            res == (b || forall|j: int|
                #![trigger old(self).at(r as int, j)]
                0 <= j < 9 && open_cell(old(self).at(r as int, j)) ==> exists|d: int|
                    1 <= d <= 9 && d != value && old(self).at(r as int, j).cand(d)),
    {
        let ghost s0 = *self;
        let mut ok = true;
        let mut c: usize = 0;
        while c < 9
            invariant
                1 <= value <= 9,
                r < 9,
                c <= 9,
                forall|i: int, j: int|
                    #![trigger self.at(i, j)]
                    in_range(i, j) ==> if i == r && j < c && open_cell(s0.at(i, j)) {
                        toggled(self.at(i, j), s0.at(i, j), value as int, b)
                    } else {
                        self.at(i, j) == s0.at(i, j)
                    },
                ok == (b || forall|j: int|
                    #![trigger s0.at(r as int, j)]
                    0 <= j < c && open_cell(s0.at(r as int, j)) ==> exists|d: int|
                        1 <= d <= 9 && d != value && s0.at(r as int, j).cand(d)),
            decreases 9 - c,
        {
            let idx = r * 9 + c;
            let mut cl = self.cells[idx];
            proof {
                assert(cl == self.at(r as int, c as int));
            }
            if !cl.fixed && cl.value == 0 {
                let good = cl.update_candidate(value, b);
                let ghost prev = *self;
                self.cells[idx] = cl;
                proof {
                    assert forall|i: int, j: int|
                        in_range(i, j) && !(i == r && j == c) implies #[trigger] self.at(i, j)
                        == prev.at(i, j) by {
                        assert(i * 9 + j != r * 9 + c);
                    }
                    assert(self.at(r as int, c as int) == cl);
                }
                ok = ok && good;
            }
            c = c + 1;
        }
        ok
    }

    fn update_candidates_for_col(&mut self, value: u8, c: usize, b: bool) -> (res: bool)
        requires
            1 <= value <= 9,
            c < 9,
        ensures
            forall|i: int, j: int|
                #![trigger final(self).at(i, j)]
                in_range(i, j) ==> if j == c && open_cell(old(self).at(i, j)) {
                    toggled(final(self).at(i, j), old(self).at(i, j), value as int, b)
                } else {
                    final(self).at(i, j) == old(self).at(i, j)
                },
            res == (b || forall|i: int|
                #![trigger old(self).at(i, c as int)]
                0 <= i < 9 && open_cell(old(self).at(i, c as int)) ==> exists|d: int|
                    1 <= d <= 9 && d != value && old(self).at(i, c as int).cand(d)),
    {
        let ghost s0 = *self;
        let mut ok = true;
        let mut r: usize = 0;
        while r < 9
            invariant
                1 <= value <= 9,
                c < 9,
                r <= 9,
                forall|i: int, j: int|
                    #![trigger self.at(i, j)]
                    in_range(i, j) ==> if j == c && i < r && open_cell(s0.at(i, j)) {
                        toggled(self.at(i, j), s0.at(i, j), value as int, b)
                    } else {
                        self.at(i, j) == s0.at(i, j)
                    },
                ok == (b || forall|i: int|
                    #![trigger s0.at(i, c as int)]
                    0 <= i < r && open_cell(s0.at(i, c as int)) ==> exists|d: int|
                        1 <= d <= 9 && d != value && s0.at(i, c as int).cand(d)),
            decreases 9 - r,
        {
            let idx = r * 9 + c;
            let mut cl = self.cells[idx];
            proof {
                assert(cl == self.at(r as int, c as int));
            }
            if !cl.fixed && cl.value == 0 {
                let good = cl.update_candidate(value, b);
                let ghost prev = *self;
                self.cells[idx] = cl;
                proof {
                    assert forall|i: int, j: int|
                        in_range(i, j) && !(i == r && j == c) implies #[trigger] self.at(i, j)
                        == prev.at(i, j) by {
                        assert(i * 9 + j != r * 9 + c);
                    }
                    assert(self.at(r as int, c as int) == cl);
                }
                ok = ok && good;
            }
            r = r + 1;
        }
        ok
    }

    fn update_candidates_for_square(&mut self, value: u8, r: usize, c: usize, b: bool) -> (res:
        bool)
        requires
            1 <= value <= 9,
            r < 9,
            c < 9,
        ensures
            forall|i: int, j: int|
                #![trigger final(self).at(i, j)]
                in_range(i, j) ==> if i / 3 == r as int / 3 && j / 3 == c as int / 3 && open_cell(
                    old(self).at(i, j),
                ) {
                    toggled(final(self).at(i, j), old(self).at(i, j), value as int, b)
                } else {
                    final(self).at(i, j) == old(self).at(i, j)
                },
            res == (b || forall|i: int, j: int|
                #![trigger old(self).at(i, j)]
                in_range(i, j) && i / 3 == r as int / 3 && j / 3 == c as int / 3 && open_cell(
                    old(self).at(i, j),
                ) ==> exists|d: int| 1 <= d <= 9 && d != value && old(self).at(i, j).cand(d)),
    {
        let big_row = r / 3 * 3;
        let big_col = c / 3 * 3;
        let ghost s0 = *self;
        let mut ok = true;
        let mut rr: usize = big_row;
        while rr < big_row + 3
            invariant
                1 <= value <= 9,
                r < 9,
                c < 9,
                big_row == r as int / 3 * 3,
                big_col == c as int / 3 * 3,
                big_row <= rr <= big_row + 3,
                forall|i: int, j: int|
                    #![trigger self.at(i, j)]
                    in_range(i, j) ==> if i / 3 == r as int / 3 && j / 3 == c as int / 3 && i < rr
                        && open_cell(s0.at(i, j)) {
                        toggled(self.at(i, j), s0.at(i, j), value as int, b)
                    } else {
                        self.at(i, j) == s0.at(i, j)
                    },
                ok == (b || forall|i: int, j: int|
                    #![trigger s0.at(i, j)]
                    in_range(i, j) && i / 3 == r as int / 3 && j / 3 == c as int / 3 && i < rr
                        && open_cell(s0.at(i, j)) ==> exists|d: int|
                        1 <= d <= 9 && d != value && s0.at(i, j).cand(d)),
            decreases big_row + 3 - rr,
        {
            let mut cc: usize = big_col;
            while cc < big_col + 3
                invariant
                    1 <= value <= 9,
                    r < 9,
                    c < 9,
                    big_row == r as int / 3 * 3,
                    big_col == c as int / 3 * 3,
                    big_row <= rr < big_row + 3,
                    big_col <= cc <= big_col + 3,
                    forall|i: int, j: int|
                        #![trigger self.at(i, j)]
                        in_range(i, j) ==> if i / 3 == r as int / 3 && j / 3 == c as int / 3 && (i
                            < rr || (i == rr && j < cc)) && open_cell(s0.at(i, j)) {
                            toggled(self.at(i, j), s0.at(i, j), value as int, b)
                        } else {
                            self.at(i, j) == s0.at(i, j)
                        },
                    ok == (b || forall|i: int, j: int|
                        #![trigger s0.at(i, j)]
                        in_range(i, j) && i / 3 == r as int / 3 && j / 3 == c as int / 3 && (i < rr
                            || (i == rr && j < cc)) && open_cell(s0.at(i, j)) ==> exists|d: int|
                            1 <= d <= 9 && d != value && s0.at(i, j).cand(d)),
                decreases big_col + 3 - cc,
            {
                let idx = rr * 9 + cc;
                let mut cl = self.cells[idx];
                proof {
                    assert(cl == self.at(rr as int, cc as int));
                }
                if !cl.fixed && cl.value == 0 {
                    let good = cl.update_candidate(value, b);
                    let ghost prev = *self;
                    self.cells[idx] = cl;
                    proof {
                        assert forall|i: int, j: int|
                            in_range(i, j) && !(i == rr && j == cc) implies #[trigger] self.at(i, j)
                            == prev.at(i, j) by {
                            assert(i * 9 + j != rr * 9 + cc);
                        }
                        assert(self.at(rr as int, cc as int) == cl);
                    }
                    ok = ok && good;
                }
                cc = cc + 1;
            }
            rr = rr + 1;
        }
        ok
    }

    /// Force candidate `v` to `b` in every open cell of the row, the column,
    /// and the box of (r, c); on a removal, report whether every one of those
    /// cells still has a candidate left.
    fn update_candidates(&mut self, v: u8, r: usize, c: usize, b: bool) -> (res: bool)
        requires
            1 <= v <= 9,
            r < 9,
            c < 9,
        ensures
            toggle_effect(*old(self), *final(self), v as int, r as int, c as int, b),
            res == (b || prune_safe(*old(self), v as int, r as int, c as int)),
    {
        let ghost s0 = *self;
        let ok1 = self.update_candidates_for_row(v, r, b);
        let ghost s1 = *self;
        let ok2 = self.update_candidates_for_col(v, c, b);
        let ghost s2 = *self;
        let ok3 = self.update_candidates_for_square(v, r, c, b);
        let ghost s3 = *self;
        let res = ok1 && ok2 && ok3;
        proof {
            let vv = v as int;
            let ri = r as int;
            let ci = c as int;
            assert forall|i: int, j: int| in_range(i, j) implies (if sees(ri, ci, i, j)
                && open_cell(s0.at(i, j)) {
                toggled(#[trigger] s3.at(i, j), s0.at(i, j), vv, b)
            } else {
                s3.at(i, j) == s0.at(i, j)
            }) by {
                let c0 = s0.at(i, j);
                let c1 = s1.at(i, j);
                let c2 = s2.at(i, j);
                let c3 = s3.at(i, j);
                assert(c1.value == c0.value && c1.fixed == c0.fixed);
                assert(c2.value == c1.value && c2.fixed == c1.fixed);
                assert(c3.value == c2.value && c3.fixed == c2.fixed);
                if sees(ri, ci, i, j) && open_cell(c0) {
                    assert forall|d: int| 1 <= d <= 9 && d != vv implies c3.cand(d) == c0.cand(
                        d,
                    ) by {}
                }
            }
            if !b {
                if res {
                    assert forall|i: int, j: int|
                        in_range(i, j) && sees(ri, ci, i, j) && open_cell(
                            #[trigger] s0.at(i, j),
                        ) implies exists|d: int| 1 <= d <= 9 && d != vv && s0.at(i, j).cand(d) by {
                        if i == ri {
                            assert(open_cell(s0.at(ri, j)));
                        } else if j == ci {
                            assert(s1.at(i, ci) == s0.at(i, ci));
                            assert(open_cell(s1.at(i, ci)));
                            let d = choose|d: int| 1 <= d <= 9 && d != vv && s1.at(i, ci).cand(d);
                            assert(s0.at(i, j).cand(d));
                        } else {
                            assert(s2.at(i, j) == s0.at(i, j));
                            assert(open_cell(s2.at(i, j)));
                            let d = choose|d: int| 1 <= d <= 9 && d != vv && s2.at(i, j).cand(d);
                            assert(s0.at(i, j).cand(d));
                        }
                    }
                }
                if prune_safe(s0, vv, ri, ci) {
                    assert forall|j: int|
                        0 <= j < 9 && open_cell(#[trigger] s0.at(ri, j)) implies exists|d: int|
                        1 <= d <= 9 && d != vv && s0.at(ri, j).cand(d) by {
                        assert(sees(ri, ci, ri, j));
                    }
                    assert(ok1);
                    assert forall|i: int|
                        0 <= i < 9 && open_cell(#[trigger] s1.at(i, ci)) implies exists|d: int|
                        1 <= d <= 9 && d != vv && s1.at(i, ci).cand(d) by {
                        assert(s1.at(i, ci).value == s0.at(i, ci).value && s1.at(i, ci).fixed
                            == s0.at(i, ci).fixed);
                        assert(sees(ri, ci, i, ci));
                        let d = choose|d: int| 1 <= d <= 9 && d != vv && s0.at(i, ci).cand(d);
                        assert(s1.at(i, ci).cand(d));
                    }
                    assert(ok2);
                    assert forall|i: int, j: int|
                        in_range(i, j) && i / 3 == ri / 3 && j / 3 == ci / 3 && open_cell(
                            #[trigger] s2.at(i, j),
                        ) implies exists|d: int| 1 <= d <= 9 && d != vv && s2.at(i, j).cand(d) by {
                        assert(s2.at(i, j).value == s0.at(i, j).value && s2.at(i, j).fixed == s0.at(
                            i,
                            j,
                        ).fixed);
                        assert(sees(ri, ci, i, j));
                        let d = choose|d: int| 1 <= d <= 9 && d != vv && s0.at(i, j).cand(d);
                        assert(s2.at(i, j).cand(d));
                    }
                    assert(ok3);
                }
            }
        }
        res
    }

    /// Enter a clue: place `v` at the open cell (r, c), mark it fixed, and
    /// remove `v` from the candidates of every open cell that sees (r, c).
    /// Whether some such cell thereby loses its last candidate is not
    /// checked; conflicting clues silently produce a contradictory board.
    pub fn write_fixed(&mut self, v: u8, r: usize, c: usize)
        requires
            old(self).wf(),
            1 <= v <= 9,
            r < 9,
            c < 9,
            open_cell(old(self).at(r as int, c as int)),
        ensures
            place_effect(*old(self), *final(self), v as int, r as int, c as int, true),
            final(self).wf(),
            old(self).candidates_exact() ==> final(self).candidates_exact(),
            old(self).candidates_exact() && old(self).no_conflicts() && old(self).at(
                r as int,
                c as int,
            ).cand(v as int) ==> final(self).no_conflicts(),
            num_empty(*old(self)) == num_empty(*final(self)) + 1,
    {
        let ghost s0 = *self;
        let idx = r * 9 + c;
        let mut cl = self.cells[idx];
        cl.fixed = true;
        cl.value = v;
        self.cells[idx] = cl;
        let ghost mid = *self;
        proof {
            assert forall|i: int, j: int|
                in_range(i, j) && !(i == r && j == c) implies #[trigger] mid.at(i, j) == s0.at(
                i,
                j,
            ) by {
                assert(i * 9 + j != r * 9 + c);
            }
            assert(mid.at(r as int, c as int) == cl);
        }
        self.update_candidates(v, r, c, false);
        proof {
            self.lemma_finish_place(s0, mid, v as int, r as int, c as int, true);
        }
    }

    /// Place trial digit `v` at the open cell (r, c), where `v` must still be
    /// a candidate, and remove `v` from the candidates of every open cell
    /// that sees (r, c). Returns false exactly when some such cell is left
    /// with no candidate at all (a contradiction); the write itself stands
    /// either way and it is the caller's job to erase it.
    pub fn write(&mut self, v: u8, r: usize, c: usize) -> (res: bool)
        requires
            old(self).wf(),
            1 <= v <= 9,
            r < 9,
            c < 9,
            open_cell(old(self).at(r as int, c as int)),
            old(self).at(r as int, c as int).cand(v as int),
        ensures
            place_effect(*old(self), *final(self), v as int, r as int, c as int, false),
            res == peers_keep_candidates(*old(self), v as int, r as int, c as int),
            final(self).wf(),
            old(self).candidates_exact() ==> final(self).candidates_exact(),
            old(self).candidates_exact() && old(self).no_conflicts()
                ==> final(self).no_conflicts(),
            num_empty(*old(self)) == num_empty(*final(self)) + 1,
    {
        let ghost s0 = *self;
        let idx = r * 9 + c;
        let mut cl = self.cells[idx];
        cl.value = v;
        self.cells[idx] = cl;
        let ghost mid = *self;
        proof {
            assert forall|i: int, j: int|
                in_range(i, j) && !(i == r && j == c) implies #[trigger] mid.at(i, j) == s0.at(
                i,
                j,
            ) by {
                assert(i * 9 + j != r * 9 + c);
            }
            assert(mid.at(r as int, c as int) == cl);
        }
        let res = self.update_candidates(v, r, c, false);
        proof {
            self.lemma_finish_place(s0, mid, v as int, r as int, c as int, false);
            let vv = v as int;
            let ri = r as int;
            let ci = c as int;
            if prune_safe(mid, vv, ri, ci) {
                assert forall|i: int, j: int|
                    in_range(i, j) && !(i == ri && j == ci) && sees(ri, ci, i, j) && open_cell(
                        #[trigger] s0.at(i, j),
                    ) implies exists|d: int| 1 <= d <= 9 && d != vv && s0.at(i, j).cand(d) by {
                    assert(mid.at(i, j) == s0.at(i, j));
                    assert(open_cell(mid.at(i, j)));
                }
            }
            if peers_keep_candidates(s0, vv, ri, ci) {
                assert forall|i: int, j: int|
                    in_range(i, j) && sees(ri, ci, i, j) && open_cell(
                        #[trigger] mid.at(i, j),
                    ) implies exists|d: int| 1 <= d <= 9 && d != vv && mid.at(i, j).cand(d) by {
                    assert(!(i == ri && j == ci));
                    assert(mid.at(i, j) == s0.at(i, j));
                }
            }
        }
        res
    }

    /// Shared tail of the two write operations: after the target cell was
    /// overwritten (state `mid`) and the candidate removal ran, the whole
    /// step from `s0` is a placement.
    proof fn lemma_finish_place(self, s0: Sudoku, mid: Sudoku, v: int, r: int, c: int, fx: bool)
        requires
            s0.wf(),
            in_range(r, c),
            1 <= v <= 9,
            open_cell(s0.at(r, c)),
            mid.at(r, c).value == v,
            mid.at(r, c).fixed == fx,
            mid.at(r, c).candidates == s0.at(r, c).candidates,
            forall|i: int, j: int|
                in_range(i, j) && !(i == r && j == c) ==> #[trigger] mid.at(i, j) == s0.at(i, j),
            toggle_effect(mid, self, v, r, c, false),
        ensures
            place_effect(s0, self, v, r, c, fx),
            self.wf(),
            s0.candidates_exact() ==> self.candidates_exact(),
            s0.candidates_exact() && s0.no_conflicts() && s0.at(r, c).cand(v)
                ==> self.no_conflicts(),
            num_empty(s0) == num_empty(self) + 1,
    {
        assert(!open_cell(mid.at(r, c)));
        assert(self.at(r, c) == mid.at(r, c));
        assert forall|i: int, j: int| in_range(i, j) && !(i == r && j == c) implies (if sees(
            r,
            c,
            i,
            j,
        ) && open_cell(s0.at(i, j)) {
            toggled(#[trigger] self.at(i, j), s0.at(i, j), v, false)
        } else {
            self.at(i, j) == s0.at(i, j)
        }) by {
            assert(mid.at(i, j) == s0.at(i, j));
        }
        assert(place_effect(s0, self, v, r, c, fx));
        assert forall|i: int, j: int| in_range(i, j) implies (#[trigger] self.at(i, j)).value <= 9
            && (self.at(i, j).fixed ==> 1 <= self.at(i, j).value) by {
            if !(i == r && j == c) {
                assert(self.at(i, j).value == s0.at(i, j).value && self.at(i, j).fixed == s0.at(
                    i,
                    j,
                ).fixed);
            }
        }
        if s0.candidates_exact() {
            lemma_place_preserves_exact(s0, self, v, r, c, fx);
        }
        lemma_place_empties(s0, self, v, r, c, fx);
    }

    /// Walk the whole board and re-apply the pruning of every occurrence of
    /// `v`, so that no open cell lists `v` while some occurrence of `v` sees
    /// it. Used after an erasure, whose naive restore may have handed `v`
    /// back to cells still ruled out by a different occurrence of `v`.
    #[verifier::rlimit(60)]
    fn correct_candidates_for_value(&mut self, v: u8)
        requires
            1 <= v <= 9,
        ensures
            forall|i: int, j: int|
                #![trigger final(self).at(i, j)]
                in_range(i, j) ==> {
                    let oc = old(self).at(i, j);
                    let nc = final(self).at(i, j);
                    if open_cell(oc) {
                        &&& nc.value == oc.value
                        &&& nc.fixed == oc.fixed
                        &&& (forall|d: int|
                            1 <= d <= 9 && d != v ==> nc.cand(d) == oc.cand(d))
                        &&& nc.cand(v as int) == (oc.cand(v as int) && !old(self).digit_blocked(
                            v as int,
                            i,
                            j,
                        ))
                    } else {
                        nc == oc
                    }
                },
    {
        let ghost s0 = *self;
        let mut r2: usize = 0;
        while r2 < 9
            invariant
                1 <= v <= 9,
                r2 <= 9,
                correct_scan_inv(s0, *self, v as int, r2 as int * 9),
            decreases 9 - r2,
        {
            let mut c2: usize = 0;
            while c2 < 9
                invariant
                    1 <= v <= 9,
                    r2 < 9,
                    c2 <= 9,
                    correct_scan_inv(s0, *self, v as int, r2 as int * 9 + c2),
                decreases 9 - c2,
            {
                let idx = r2 * 9 + c2;
                let vcur = self.cells[idx].value;
                let ghost vg = v as int;
                let ghost a0 = r2 as int;
                let ghost b0 = c2 as int;
                let ghost t = a0 * 9 + b0;
                let ghost prev = *self;
                proof {
                    assert(prev.at(a0, b0) == prev.cells[t]);
                    assert(correct_cell_ok(s0, prev, vg, t, a0, b0));
                    assert(s0.at(a0, b0).value == vcur);
                }
                if vcur == v {
                    self.update_candidates(v, r2, c2, false);
                    proof {
                        assert forall|i: int, j: int| in_range(i, j) implies correct_cell_ok(
                            s0,
                            *self,
                            vg,
                            t + 1,
                            i,
                            j,
                        ) by {
                            let oc = s0.at(i, j);
                            let nc = self.at(i, j);
                            let pc = prev.at(i, j);
                            assert(correct_cell_ok(s0, prev, vg, t, i, j));
                            if open_cell(oc) {
                                if sees(a0, b0, i, j) {
                                    assert(toggled(nc, pc, vg, false));
                                    assert(blocked_upto(s0, vg, i, j, t + 1));
                                } else {
                                    assert(nc == pc);
                                    if blocked_upto(s0, vg, i, j, t + 1) {
                                        let (a, b) = choose|a: int, b: int|
                                            in_range(a, b) && a * 9 + b < t + 1 && (
                                            #[trigger] s0.at(a, b)).value == vg && sees(a, b, i, j);
                                        assert(a * 9 + b != t);
                                        assert(blocked_upto(s0, vg, i, j, t));
                                    }
                                    if blocked_upto(s0, vg, i, j, t) {
                                        let (a, b) = choose|a: int, b: int|
                                            in_range(a, b) && a * 9 + b < t && (
                                            #[trigger] s0.at(a, b)).value == vg && sees(a, b, i, j);
                                        assert(blocked_upto(s0, vg, i, j, t + 1));
                                    }
                                }
                            } else {
                                assert(pc == oc);
                                assert(nc == pc);
                            }
                        }
                    }
                } else {
                    proof {
                        assert forall|i: int, j: int| in_range(i, j) implies correct_cell_ok(
                            s0,
                            *self,
                            vg,
                            t + 1,
                            i,
                            j,
                        ) by {
                            assert(correct_cell_ok(s0, prev, vg, t, i, j));
                            if open_cell(s0.at(i, j)) {
                                if blocked_upto(s0, vg, i, j, t + 1) {
                                    let (a, b) = choose|a: int, b: int|
                                        in_range(a, b) && a * 9 + b < t + 1 && (
                                        #[trigger] s0.at(a, b)).value == vg && sees(a, b, i, j);
                                    assert(a * 9 + b != t);
                                    assert(blocked_upto(s0, vg, i, j, t));
                                }
                                if blocked_upto(s0, vg, i, j, t) {
                                    let (a, b) = choose|a: int, b: int|
                                        in_range(a, b) && a * 9 + b < t && (
                                        #[trigger] s0.at(a, b)).value == vg && sees(a, b, i, j);
                                    assert(blocked_upto(s0, vg, i, j, t + 1));
                                }
                            }
                        }
                    }
                }
                c2 = c2 + 1;
            }
            r2 = r2 + 1;
        }
        proof {
            let vg = v as int;
            assert forall|i: int, j: int| in_range(i, j) && open_cell(s0.at(i, j)) implies
                blocked_upto(s0, vg, i, j, 81) == s0.digit_blocked(vg, i, j) by {
                if blocked_upto(s0, vg, i, j, 81) {
                    let (a, b) = choose|a: int, b: int|
                        in_range(a, b) && a * 9 + b < 81 && (#[trigger] s0.at(a, b)).value == vg
                            && sees(a, b, i, j);
                    assert(!(a == i && b == j));
                    assert(s0.digit_blocked(vg, i, j));
                }
                if s0.digit_blocked(vg, i, j) {
                    let (a, b) = choose|a: int, b: int|
                        in_range(a, b) && !(a == i && b == j) && (#[trigger] s0.at(a, b)).value
                            == vg && sees(a, b, i, j);
                    assert(a * 9 + b < 81);
                    assert(blocked_upto(s0, vg, i, j, 81));
                }
            }
            assert forall|i: int, j: int|
                #![trigger self.at(i, j)]
                in_range(i, j) implies ({
                let oc = s0.at(i, j);
                let nc = self.at(i, j);
                if open_cell(oc) {
                    &&& nc.value == oc.value
                    &&& nc.fixed == oc.fixed
                    &&& (forall|d: int| 1 <= d <= 9 && d != vg ==> nc.cand(d) == oc.cand(d))
                    &&& nc.cand(vg) == (oc.cand(vg) && !s0.digit_blocked(vg, i, j))
                } else {
                    nc == oc
                }
            }) by {
                assert(correct_cell_ok(s0, *self, vg, 81, i, j));
            }
        }
    }

    /// Clear the non-clue digit at (r, c), hand it back as a candidate to
    /// every open cell that sees (r, c), and then re-apply the pruning of
    /// every remaining occurrence of that digit, so that a cell still seen by
    /// another occurrence does not regain the candidate.
    pub fn erase(&mut self, r: usize, c: usize)
        requires
            old(self).wf(),
            r < 9,
            c < 9,
            old(self).at(r as int, c as int).value != 0,
            !old(self).at(r as int, c as int).fixed,
        ensures
            erase_effect(*old(self), *final(self), r as int, c as int),
            final(self).wf(),
            num_empty(*final(self)) == num_empty(*old(self)) + 1,
    {
        let ghost s0 = *self;
        let ghost ri = r as int;
        let ghost ci = c as int;
        let idx = r * 9 + c;
        let mut cl = self.cells[idx];
        let v = cl.value;
        proof {
            assert(cl == s0.at(ri, ci));
            assert(1 <= v <= 9);
        }
        cl.value = 0;
        self.cells[idx] = cl;
        let ghost mid = *self;
        proof {
            assert forall|i: int, j: int|
                in_range(i, j) && !(i == ri && j == ci) implies #[trigger] mid.at(i, j) == s0.at(
                i,
                j,
            ) by {
                assert(i * 9 + j != ri * 9 + ci);
            }
            assert(mid.at(ri, ci) == cl);
        }
        self.update_candidates(v, r, c, true);
        let ghost s1 = *self;
        self.correct_candidates_for_value(v);
        proof {
            let vg = v as int;
            assert forall|i: int, j: int| in_range(i, j) && ((i == ri && j == ci) || open_cell(
                s0.at(i, j),
            )) implies s1.digit_blocked(vg, i, j) == value_elsewhere_sees(s0, vg, ri, ci, i, j) by {
                if s1.digit_blocked(vg, i, j) {
                    let (a, b) = choose|a: int, b: int|
                        in_range(a, b) && !(a == i && b == j) && (#[trigger] s1.at(a, b)).value
                            == vg && sees(a, b, i, j);
                    assert(s1.at(ri, ci).value == 0);
                    assert(!(a == ri && b == ci));
                    assert(s1.at(a, b).value == mid.at(a, b).value);
                    assert(s0.at(a, b).value == vg);
                    assert(value_elsewhere_sees(s0, vg, ri, ci, i, j));
                }
                if value_elsewhere_sees(s0, vg, ri, ci, i, j) {
                    let (a, b) = choose|a: int, b: int|
                        in_range(a, b) && !(a == ri && b == ci) && (#[trigger] s0.at(a, b)).value
                            == vg && sees(a, b, i, j);
                    assert(!(a == i && b == j));
                    assert(mid.at(a, b) == s0.at(a, b));
                    assert(s1.at(a, b).value == mid.at(a, b).value);
                    assert(s1.digit_blocked(vg, i, j));
                }
            }
            assert forall|i: int, j: int| in_range(i, j) implies erase_cell_ok(
                s0,
                *self,
                ri,
                ci,
                i,
                j,
            ) by {
                let oc = s0.at(i, j);
                let mc = mid.at(i, j);
                let c1 = s1.at(i, j);
                let nc = self.at(i, j);
                if i == ri && j == ci {
                    assert(open_cell(mc));
                    assert(sees(ri, ci, i, j));
                    assert(toggled(c1, mc, vg, true));
                    assert(open_cell(c1));
                } else {
                    assert(mc == oc);
                    if open_cell(oc) {
                        if sees(ri, ci, i, j) {
                            assert(toggled(c1, mc, vg, true));
                        } else {
                            assert(c1 == mc);
                        }
                        assert(open_cell(c1));
                    } else {
                        assert(c1 == mc);
                        assert(!open_cell(c1));
                        assert(nc == c1);
                    }
                }
            }
            assert(erase_effect(s0, *self, ri, ci));
            assert forall|i: int, j: int| in_range(i, j) implies (#[trigger] self.at(i, j)).value
                <= 9 && (self.at(i, j).fixed ==> 1 <= self.at(i, j).value) by {
                assert(erase_cell_ok(s0, *self, ri, ci, i, j));
            }
            lemma_fill_count(*self, s0, ri, ci);
        }
    }

    /// Scan the board in row-major order and return the first open cell;
    /// report completion exactly when every cell already holds a digit.
    pub fn get_legal_empty_cell(&mut self) -> (res: CellLookup)
        requires
            old(self).wf(),
        ensures
            *final(self) == *old(self),
            (res is Completed) <==> old(self).complete(),
            res matches CellLookup::LegalCell(r, c) ==> r < 9 && c < 9 && open_cell(
                old(self).at(r as int, c as int),
            ) && (forall|i: int, j: int|
                in_range(i, j) && (i < r as int || (i == r as int && j < c as int)) ==> (
                #[trigger] old(self).at(i, j)).value != 0),
    {
        let mut r: usize = 0;
        while r < 9
            invariant
                r <= 9,
                self.wf(),
                forall|i: int, j: int|
                    in_range(i, j) && i < r ==> (#[trigger] self.at(i, j)).value != 0,
            decreases 9 - r,
        {
            let mut c: usize = 0;
            while c < 9
                invariant
                    r < 9,
                    c <= 9,
                    self.wf(),
                    forall|i: int, j: int|
                        in_range(i, j) && (i < r as int || (i == r as int && j < c as int)) ==> (
                        #[trigger] self.at(i, j)).value != 0,
                decreases 9 - c,
            {
                let cl = self.cells[r * 9 + c];
                proof {
                    assert(cl == self.at(r as int, c as int));
                }
                if cl.value == 0 && !cl.fixed {
                    return CellLookup::LegalCell(r, c);
                }
                c = c + 1;
            }
            r = r + 1;
        }
        CellLookup::Completed
    }
}

/// Counting empties only looks at the values, so boards with equal values
/// have equally many.
proof fn lemma_empties_same(x: Sudoku, y: Sudoku, k: int)
    requires
        forall|k2: int| 0 <= k2 < 81 ==> (#[trigger] x.cells[k2]).value == y.cells[k2].value,
        0 <= k <= 81,
    ensures
        empties_from(x, k) == empties_from(y, k),
    decreases 81 - k,
{
    if k < 81 {
        lemma_empties_same(x, y, k + 1);
    }
}

/// Boards that agree cell by cell satisfy the same board predicates.
pub proof fn lemma_board_eq_props(x: Sudoku, y: Sudoku)
    requires
        board_eq(x, y),
    ensures
        x.wf() == y.wf(),
        x.candidates_exact() == y.candidates_exact(),
        x.no_conflicts() == y.no_conflicts(),
        x.complete() == y.complete(),
        num_empty(x) == num_empty(y),
{
    assert forall|i: int, j: int, d: int| in_range(i, j) && 1 <= d <= 9 implies (
    #[trigger] x.at(i, j).cand(d)) == y.at(i, j).cand(d) && x.at(i, j).value == y.at(i, j).value
        && x.at(i, j).fixed == y.at(i, j).fixed by {
        assert(cell_eq(x.at(i, j), y.at(i, j)));
    }
    assert forall|d: int, i: int, j: int|
        in_range(i, j) && 1 <= d <= 9 implies #[trigger] x.digit_blocked(d, i, j)
        == y.digit_blocked(d, i, j) by {
        if x.digit_blocked(d, i, j) {
            let (a, b) = choose|a: int, b: int|
                in_range(a, b) && !(a == i && b == j) && (#[trigger] x.at(a, b)).value == d && sees(
                    a,
                    b,
                    i,
                    j,
                );
            assert(cell_eq(x.at(a, b), y.at(a, b)));
            assert(y.digit_blocked(d, i, j));
        }
        if y.digit_blocked(d, i, j) {
            let (a, b) = choose|a: int, b: int|
                in_range(a, b) && !(a == i && b == j) && (#[trigger] y.at(a, b)).value == d && sees(
                    a,
                    b,
                    i,
                    j,
                );
            assert(cell_eq(x.at(a, b), y.at(a, b)));
            assert(x.digit_blocked(d, i, j));
        }
    }
    assert forall|k2: int| 0 <= k2 < 81 implies (#[trigger] x.cells[k2]).value
        == y.cells[k2].value by {
        let i = k2 / 9;
        let j = k2 % 9;
        assert(in_range(i, j));
        assert(i * 9 + j == k2);
        assert(cell_eq(x.at(i, j), y.at(i, j)));
    }
    lemma_empties_same(x, y, 0);
    if x.wf() {
        assert forall|i: int, j: int| in_range(i, j) implies (#[trigger] y.at(i, j)).value <= 9 && (
        y.at(i, j).fixed ==> 1 <= y.at(i, j).value) by {
            assert(x.at(i, j).value <= 9);
        }
    }
    if y.wf() {
        assert forall|i: int, j: int| in_range(i, j) implies (#[trigger] x.at(i, j)).value <= 9 && (
        x.at(i, j).fixed ==> 1 <= x.at(i, j).value) by {
            assert(y.at(i, j).value <= 9);
        }
    }
    if x.candidates_exact() {
        assert forall|i: int, j: int, d: int|
            in_range(i, j) && 1 <= d <= 9 && y.at(i, j).value == 0 && !y.at(i, j).fixed implies ((
        #[trigger] y.at(i, j).cand(d)) <==> !y.digit_blocked(d, i, j)) by {
            assert(x.at(i, j).cand(d) <==> !x.digit_blocked(d, i, j));
        }
    }
    if y.candidates_exact() {
        assert forall|i: int, j: int, d: int|
            in_range(i, j) && 1 <= d <= 9 && x.at(i, j).value == 0 && !x.at(i, j).fixed implies ((
        #[trigger] x.at(i, j).cand(d)) <==> !x.digit_blocked(d, i, j)) by {
            assert(y.at(i, j).cand(d) <==> !y.digit_blocked(d, i, j));
        }
    }
    if x.no_conflicts() {
        assert forall|i: int, j: int|
            in_range(i, j) && (#[trigger] y.at(i, j)).value != 0 implies !y.digit_blocked(
            y.at(i, j).value as int,
            i,
            j,
        ) by {
            assert(1 <= x.at(i, j).value as int <= 9 || x.at(i, j).value as int > 9);
            assert(!x.digit_blocked(x.at(i, j).value as int, i, j));
            if 1 <= y.at(i, j).value as int <= 9 {
                assert(x.digit_blocked(y.at(i, j).value as int, i, j) == y.digit_blocked(
                    y.at(i, j).value as int,
                    i,
                    j,
                ));
            } else {
                if y.digit_blocked(y.at(i, j).value as int, i, j) {
                    let (a, b) = choose|a: int, b: int|
                        in_range(a, b) && !(a == i && b == j) && (#[trigger] y.at(a, b)).value
                            == y.at(i, j).value as int && sees(a, b, i, j);
                    assert(cell_eq(x.at(a, b), y.at(a, b)));
                    assert(x.digit_blocked(x.at(i, j).value as int, i, j));
                }
            }
        }
    }
    if y.no_conflicts() {
        assert forall|i: int, j: int|
            in_range(i, j) && (#[trigger] x.at(i, j)).value != 0 implies !x.digit_blocked(
            x.at(i, j).value as int,
            i,
            j,
        ) by {
            assert(!y.digit_blocked(y.at(i, j).value as int, i, j));
            if 1 <= x.at(i, j).value as int <= 9 {
                assert(x.digit_blocked(x.at(i, j).value as int, i, j) == y.digit_blocked(
                    x.at(i, j).value as int,
                    i,
                    j,
                ));
            } else {
                if x.digit_blocked(x.at(i, j).value as int, i, j) {
                    let (a, b) = choose|a: int, b: int|
                        in_range(a, b) && !(a == i && b == j) && (#[trigger] x.at(a, b)).value
                            == x.at(i, j).value as int && sees(a, b, i, j);
                    assert(cell_eq(x.at(a, b), y.at(a, b)));
                    assert(y.digit_blocked(y.at(i, j).value as int, i, j));
                }
            }
        }
    }
}

/// Cell-by-cell agreement is transitive.
pub proof fn lemma_board_eq_trans(x: Sudoku, y: Sudoku, z: Sudoku)
    requires
        board_eq(x, y),
        board_eq(y, z),
    ensures
        board_eq(x, z),
{
    assert forall|i: int, j: int| in_range(i, j) implies cell_eq(
        #[trigger] x.at(i, j),
        z.at(i, j),
    ) by {
        assert(cell_eq(x.at(i, j), y.at(i, j)));
        assert(cell_eq(y.at(i, j), z.at(i, j)));
    }
}

/// Writing a digit into an open cell of a board with exact candidates and
/// then erasing that same cell leaves the board exactly as it was, even
/// though the erasure rebuilds candidates from the whole board.
pub proof fn lemma_write_then_erase_restores(
    s0: Sudoku,
    s1: Sudoku,
    s1b: Sudoku,
    s2: Sudoku,
    v: int,
    r: int,
    c: int,
)
    requires
        s0.wf(),
        s0.candidates_exact(),
        in_range(r, c),
        1 <= v <= 9,
        open_cell(s0.at(r, c)),
        s0.at(r, c).cand(v),
        place_effect(s0, s1, v, r, c, false),
        board_eq(s1b, s1),
        erase_effect(s1b, s2, r, c),
    ensures
        board_eq(s2, s0),
{
    assert(cell_eq(s1b.at(r, c), s1.at(r, c)));
    assert(s1b.at(r, c).value == v);
    assert(!s0.digit_blocked(v, r, c));
    assert forall|i: int, j: int| in_range(i, j) implies cell_eq(
        #[trigger] s2.at(i, j),
        s0.at(i, j),
    ) by {
        assert(erase_cell_ok(s1b, s2, r, c, i, j));
        assert(cell_eq(s1b.at(i, j), s1.at(i, j)));
        let oc0 = s0.at(i, j);
        let c1 = s1.at(i, j);
        let c1b = s1b.at(i, j);
        let nc = s2.at(i, j);
        if i == r && j == c {
            if value_elsewhere_sees(s1b, v, r, c, r, c) {
                let (a, b) = choose|a: int, b: int|
                    in_range(a, b) && !(a == r && b == c) && (#[trigger] s1b.at(a, b)).value == v
                        && sees(a, b, r, c);
                assert(cell_eq(s1b.at(a, b), s1.at(a, b)));
                assert(s0.at(a, b).value == v);
                assert(s0.digit_blocked(v, r, c));
            }
            assert(nc.cand(v) == true);
        } else {
            assert(c1.value == oc0.value && c1.fixed == oc0.fixed);
            if open_cell(oc0) {
                if value_elsewhere_sees(s1b, v, r, c, i, j) {
                    let (a, b) = choose|a: int, b: int|
                        in_range(a, b) && !(a == r && b == c) && (#[trigger] s1b.at(a, b)).value
                            == v && sees(a, b, i, j);
                    assert(cell_eq(s1b.at(a, b), s1.at(a, b)));
                    assert(s0.at(a, b).value == v);
                    assert(!(a == i && b == j));
                    assert(s0.digit_blocked(v, i, j));
                    assert(!oc0.cand(v));
                }
                if s0.digit_blocked(v, i, j) {
                    let (a, b) = choose|a: int, b: int|
                        in_range(a, b) && !(a == i && b == j) && (#[trigger] s0.at(a, b)).value == v
                            && sees(a, b, i, j);
                    assert(!(a == r && b == c));
                    assert(s1.at(a, b).value == v);
                    assert(cell_eq(s1b.at(a, b), s1.at(a, b)));
                    assert(value_elsewhere_sees(s1b, v, r, c, i, j));
                }
            } else {
                assert(c1 == oc0);
                assert(!open_cell(c1b));
            }
        }
    }
}

} // verus!
