//! Deterministic propagation and backtracking search.

use vstd::prelude::*;

verus! {

use crate::grid::{Cell, CellS, Sudoku};
use crate::model::{
    all_fixed, avail, cells_ok, consistent, count_true, digits_of, fixed_preserved, hidden_single,
    in_range, is_fixed, lemma_avail_split, lemma_count_true_ex_two, lemma_count_true_one,
    lemma_count_true_pos, lemma_count_true_zero, lemma_fix_cell, lemma_fixed_preserved_trans,
    lemma_hidden_single_sound, lemma_inconsistent_no_solution, lemma_naked_single_sound,
    lemma_no_candidate_no_solution, lemma_replace_undet, lemma_avail_antitone, lemma_solution_avail,
    lemma_undet_count_le_n, lemma_undet_count_nonneg, lemma_undet_count_pos,
    lemma_unit_contains_inv, lemma_unit_index, multi_candidates, naked_single, no_candidate,
    peers, row_unit_of, col_unit_of, box_unit_of, solution_of, stable, stored_cand, undet_count,
    unit_cell, unit_contains, val, valid_grid, wf,
};

/// The outcome of solving a board: a completed grid, or proof-backed
/// word that no completion exists.
pub enum SolveResult {
    Solved(Sudoku),
    Unsolvable,
}

/// What one propagation pass over the grid did.
enum ScanOutcome {
    DidFix,
    NoFix,
    Inconsistent,
}

/// Whether cells `i` and `j` share a row, column or box.
pub fn is_peer(i: usize, j: usize) -> (r: bool)
    requires
        i < 81,
        j < 81,
    ensures
        r == peers(i as int, j as int),
{
    i / 9 == j / 9 || i % 9 == j % 9 || (i / 27 == j / 27 && (i % 9) / 3 == (j % 9) / 3)
}

impl Sudoku {
    /// Whether `val` may be placed at cell `i` without clashing with a
    /// fixed peer, judged against the current grid.
    pub fn is_valid(&self, i: usize, val: usize) -> (r: bool)
        requires
            self@.len() == 81,
            cells_ok(self@),
            i < 81,
            1 <= val <= 9,
        ensures
            r == avail(self@, i as int, val as int),
    {
        let col_av = self.find_available_in_col(i);
        let row_av = self.find_available_in_row(i);
        let s_av = self.find_available_in_square(i);
        proof {
            lemma_avail_split(self@, i as int, val as int);
        }
        if !col_av[val - 1] {
            return false;
        }
        if !row_av[val - 1] {
            return false;
        }
        if !s_av[val - 1] {
            return false;
        }
        true
    }

    /// The first undetermined cell at or after `i`, wrapping around to
    /// the start of the grid; `None` when every cell is fixed.
    pub fn find_next_to_fill(&self, i: usize) -> (r: Option<usize>)
        requires
            self@.len() == 81,
            i <= 81,
        ensures
            r matches Some(j) ==> j < 81 && !is_fixed(self@, j as int),
            r matches Some(j) ==> (j >= i ==> forall|m: int| i <= m < j ==> is_fixed(self@, m)),
            r matches Some(j) ==> (j < i ==> (forall|m: int| i <= m < 81 ==> is_fixed(self@, m))
                && (forall|m: int| 0 <= m < j ==> is_fixed(self@, m))),
            r is None ==> all_fixed(self@),
    {
        for j in i..81
            invariant
                self@.len() == 81,
                forall|m: int| i <= m < j ==> is_fixed(self@, m),
        {
            match self.cells[j] {
                Cell::Fixed(_) => {
                },
                Cell::Normal(_) => {
                    return Some(j);
                },
            }
        }
        for j in 0..81
            invariant
                self@.len() == 81,
                forall|m: int| i <= m < 81 ==> is_fixed(self@, m),
                forall|m: int| 0 <= m < j ==> is_fixed(self@, m),
        {
            match self.cells[j] {
                Cell::Fixed(_) => {
                },
                Cell::Normal(_) => {
                    return Some(j);
                },
            }
        }
        None
    }

    /// The candidate digits recorded in a snapshot, in ascending order.
    pub fn get_valid_values(pv: [bool; 9]) -> (v: Vec<usize>)
        ensures
            forall|k: int| 0 <= k < v@.len() ==> 1 <= #[trigger] v@[k] <= 9 && pv@[v@[k] - 1],
            forall|d: usize| 1 <= d <= 9 && pv@[d - 1] ==> #[trigger] v@.contains(d),
            forall|k1: int, k2: int| 0 <= k1 < k2 < v@.len() ==> v@[k1] < v@[k2],
    {
        let mut v: Vec<usize> = Vec::new();
        for idx in 0..9
            invariant
                forall|k: int| 0 <= k < v@.len() ==> 1 <= #[trigger] v@[k] <= idx && pv@[v@[k] - 1],
                forall|d: usize| 1 <= d <= idx && pv@[d - 1] ==> #[trigger] v@.contains(d),
                forall|k1: int, k2: int| 0 <= k1 < k2 < v@.len() ==> v@[k1] < v@[k2],
        {
            if pv[idx] {
                let ghost vold = v@;
                v.push(idx + 1);
                assert(v@[v@.len() - 1] == idx + 1);
                assert forall|d: usize| 1 <= d <= idx + 1 && pv@[d - 1] implies #[trigger] v@
                    .contains(d) by {
                    if d <= idx {
                        assert(vold.contains(d));
                        let k = choose|k: int| 0 <= k < vold.len() && vold[k] == d;
                        assert(v@[k] == d);
                    } else {
                        assert(v@[v@.len() - 1] == d);
                    }
                }
            }
        }
        v
    }

    /// Counts the candidates in a snapshot and remembers the first one.
    fn count_candidates(pv: &[bool; 9]) -> (r: (usize, usize))
        ensures
            r.0 == count_true(pv@, 9),
            r.0 > 0 ==> r.1 < 9 && pv@[r.1 as int],
    {
        let mut cnt: usize = 0;
        let mut first: usize = 0;
        for k in 0..9
            invariant
                cnt == count_true(pv@, k as int),
                cnt > 0 ==> first < 9 && pv@[first as int],
                cnt <= k,
        {
            proof {
                assert(count_true(pv@, k as int + 1) == count_true(pv@, k as int) + if pv@[
                    k as int
                ] {
                    1int
                } else {
                    0int
                });
            }
            if pv[k] {
                if cnt == 0 {
                    first = k;
                }
                cnt = cnt + 1;
            }
        }
        (cnt, first)
    }

    /// Whether some other undetermined cell of the given unit could
    /// still take digit `idx + 1`.
    fn possible_elsewhere(
        &self,
        arr: &[usize; 9],
        i: usize,
        idx: usize,
        Ghost(u): Ghost<int>,
    ) -> (r: bool)
        requires
            self@.len() == 81,
            cells_ok(self@),
            i < 81,
            idx < 9,
            forall|k: int| 0 <= k < 9 ==> #[trigger] arr@[k] as int == unit_cell(u, k) && arr@[k]
                < 81,
        ensures
            r <==> exists|m: int|
                0 <= m < 9 && #[trigger] unit_cell(u, m) != i as int && !is_fixed(
                    self@,
                    unit_cell(u, m),
                ) && avail(self@, unit_cell(u, m), idx as int + 1),
    {
        let mut possible = false;
        for t in 0..9
            invariant
                self@.len() == 81,
                cells_ok(self@),
                i < 81,
                idx < 9,
                forall|k: int| 0 <= k < 9 ==> #[trigger] arr@[k] as int == unit_cell(u, k)
                    && arr@[k] < 81,
                possible <==> exists|m: int|
                    0 <= m < t && #[trigger] unit_cell(u, m) != i as int && !is_fixed(
                        self@,
                        unit_cell(u, m),
                    ) && avail(self@, unit_cell(u, m), idx as int + 1),
        {
            let j = arr[t];
            assert(j as int == unit_cell(u, t as int));
            let mut here = false;
            if j != i {
                if let Cell::Normal(_) = self.cells[j] {
                    let av = self.find_available(j);
                    if av[idx] {
                        here = true;
                    }
                }
            }
            if here {
                possible = true;
                assert(unit_cell(u, t as int) != i as int && !is_fixed(self@, unit_cell(u, t as int))
                    && avail(self@, unit_cell(u, t as int), idx as int + 1));
            } else {
                assert(!(unit_cell(u, t as int) != i as int && !is_fixed(
                    self@,
                    unit_cell(u, t as int),
                ) && avail(self@, unit_cell(u, t as int), idx as int + 1)));
            }
        }
        possible
    }

    /// Searches for a hidden single at the undetermined cell `i`: a
    /// candidate digit that no other cell in one of `i`'s units could
    /// still take. Returns the digit's 0-based index.
    pub fn find_must_be_value(&self, pv: [bool; 9], i: usize) -> (r: Option<usize>)
        requires
            self@.len() == 81,
            cells_ok(self@),
            i < 81,
            !is_fixed(self@, i as int),
            forall|k: int| 0 <= k < 9 ==> (pv@[k] <==> avail(self@, i as int, k + 1)),
        ensures
            r matches Some(idx) ==> idx < 9 && hidden_single(self@, i as int, idx as int + 1),
            r is None ==> forall|d: int| !hidden_single(self@, i as int, d),
    {
        let row_indices = Sudoku::row_indices(i);
        let col_indices = Sudoku::column_indices(i);
        let square_indices = Sudoku::square_indices(i);
        let ghost c = i as int;
        proof {
            lemma_unit_index(c, c);
            assert(unit_contains(row_unit_of(c), c));
            assert(unit_contains(col_unit_of(c), c));
            assert(unit_contains(box_unit_of(c), c));
        }
        for idx in 0..9
            invariant
                self@.len() == 81,
                cells_ok(self@),
                i < 81,
                c == i as int,
                !is_fixed(self@, c),
                forall|k: int| 0 <= k < 9 ==> (pv@[k] <==> avail(self@, c, k + 1)),
                forall|k: int| 0 <= k < 9 ==> #[trigger] row_indices@[k] as int == unit_cell(
                    row_unit_of(c),
                    k,
                ) && row_indices@[k] < 81,
                forall|k: int| 0 <= k < 9 ==> #[trigger] col_indices@[k] as int == unit_cell(
                    col_unit_of(c),
                    k,
                ) && col_indices@[k] < 81,
                forall|k: int| 0 <= k < 9 ==> #[trigger] square_indices@[k] as int == unit_cell(
                    box_unit_of(c),
                    k,
                ) && square_indices@[k] < 81,
                unit_contains(row_unit_of(c), c),
                unit_contains(col_unit_of(c), c),
                unit_contains(box_unit_of(c), c),
                forall|d: int| 1 <= d <= idx ==> !hidden_single(self@, c, d),
        {
            if pv[idx] {
                let ghost d = idx as int + 1;
                let in_row = self.possible_elsewhere(
                    &row_indices,
                    i,
                    idx,
                    Ghost(row_unit_of(c)),
                );
                if !in_row {
                    proof {
                        assert(hidden_single(self@, c, d));
                    }
                    return Some(idx);
                }
                let in_col = self.possible_elsewhere(
                    &col_indices,
                    i,
                    idx,
                    Ghost(col_unit_of(c)),
                );
                if !in_col {
                    proof {
                        assert(hidden_single(self@, c, d));
                    }
                    return Some(idx);
                }
                let in_square = self.possible_elsewhere(
                    &square_indices,
                    i,
                    idx,
                    Ghost(box_unit_of(c)),
                );
                if !in_square {
                    proof {
                        assert(hidden_single(self@, c, d));
                    }
                    return Some(idx);
                }
                proof {
                    assert(!hidden_single(self@, c, d)) by {
                        if hidden_single(self@, c, d) {
                            let u = choose|u: int|
                                0 <= u < 27 && unit_contains(u, c) && forall|k: int|
                                    0 <= k < 9 && unit_cell(u, k) != c && !is_fixed(
                                        self@,
                                        unit_cell(u, k),
                                    ) ==> !avail(self@, unit_cell(u, k), d);
                            lemma_unit_contains_inv(u, c);
                            let m = choose|m: int|
                                0 <= m < 9 && #[trigger] unit_cell(u, m) != c && !is_fixed(
                                    self@,
                                    unit_cell(u, m),
                                ) && avail(self@, unit_cell(u, m), d);
                            assert(!avail(self@, unit_cell(u, m), d));
                        }
                    }
                }
            } else {
                proof {
                    assert(!avail(self@, c, idx as int + 1));
                }
            }
        }
        None
    }

    /// One sweep that refreshes every undetermined cell's candidate
    /// snapshot from the current grid and fixes the naked singles it
    /// meets along the way.
    pub fn initialize(&mut self)
        requires
            wf(old(self)@),
        ensures
            wf(final(self)@),
            fixed_preserved(old(self)@, final(self)@),
            consistent(old(self)@) ==> consistent(final(self)@),
            forall|g: Seq<int>| solution_of(g, final(self)@) <==> solution_of(g, old(self)@),
            undet_count(final(self)@, 81) <= undet_count(old(self)@, 81),
            forall|i: int, d: int|
                in_range(i) && !is_fixed(final(self)@, i) && 1 <= d <= 9 && stored_cand(
                    final(self)@,
                    i,
                    d,
                ) ==> avail(old(self)@, i, d),
    {
        let ghost s0 = self@;
        for i in 0..81
            invariant
                wf(self@),
                fixed_preserved(s0, self@),
                consistent(s0) ==> consistent(self@),
                forall|g: Seq<int>| solution_of(g, self@) <==> solution_of(g, s0),
                undet_count(self@, 81) <= undet_count(s0, 81),
                s0 == old(self)@,
                wf(s0),
                forall|i2: int, d: int|
                    0 <= i2 < i && !is_fixed(self@, i2) && 1 <= d <= 9 && stored_cand(
                        self@,
                        i2,
                        d,
                    ) ==> avail(s0, i2, d),
        {
            if let Cell::Normal(_) = self.cells[i] {
                let pv = self.find_available(i);
                let (cnt, first) = Sudoku::count_candidates(&pv);
                let ghost smid = self@;
                if cnt == 1 {
                    proof {
                        lemma_count_true_pos(pv@, 9, first as int);
                        lemma_count_true_one(pv@, 9, first as int);
                        assert forall|d2: int| 1 <= d2 <= 9 && avail(smid, i as int, d2) implies d2
                            == first as int + 1 by {
                            assert(pv@[d2 - 1]);
                        }
                        assert(naked_single(smid, i as int, first as int + 1));
                        lemma_naked_single_sound(smid, i as int, first as int + 1);
                        lemma_fix_cell(smid, i as int, first as int + 1);
                    }
                    self.cells[i] = Cell::Fixed(first as u8 + 1);
                    proof {
                        assert(self@ == smid.update(i as int, Cell::Fixed((first + 1) as u8)));
                    }
                } else {
                    let ncell = CellS::build(pv);
                    proof {
                        lemma_replace_undet(smid, i as int, ncell);
                    }
                    self.cells[i] = Cell::Normal(ncell);
                    proof {
                        assert forall|d: int|
                            1 <= d <= 9 && stored_cand(self@, i as int, d) implies avail(
                            s0,
                            i as int,
                            d,
                        ) by {
                            assert(pv@[d - 1]);
                            assert(avail(smid, i as int, d));
                            lemma_avail_antitone(s0, smid, i as int, d);
                        }
                    }
                }
            }
        }
    }

    /// One propagation pass: scans for the first cell that a singles
    /// rule fixes, restarting callers on success; reports a cell out of
    /// digits as an inconsistent branch.
    fn scan_once(&mut self) -> (r: ScanOutcome)
        requires
            wf(old(self)@),
        ensures
            wf(final(self)@),
            fixed_preserved(old(self)@, final(self)@),
            consistent(old(self)@) ==> consistent(final(self)@),
            forall|g: Seq<int>| solution_of(g, final(self)@) <==> solution_of(g, old(self)@),
            r is DidFix ==> undet_count(final(self)@, 81) == undet_count(old(self)@, 81) - 1,
            r is NoFix ==> final(self)@ == old(self)@ && stable(old(self)@),
            r is Inconsistent ==> final(self)@ == old(self)@ && (forall|g: Seq<int>|
                !solution_of(g, old(self)@)),
            stable(old(self)@) ==> r is NoFix,
    {
        let ghost s0 = self@;
        for i in 0..81
            invariant
                self@ == s0,
                s0 == old(self)@,
                wf(s0),
                forall|i2: int|
                    0 <= i2 < i && !is_fixed(s0, i2) ==> multi_candidates(s0, i2) && (forall|d: int|
                        !hidden_single(s0, i2, d)),
        {
            if let Cell::Normal(_) = self.cells[i] {
                let pv = self.find_available(i);
                match self.find_must_be_value(pv, i) {
                    Some(idx) => {
                        let ghost d = idx as int + 1;
                        proof {
                            assert(hidden_single(s0, i as int, d));
                            assert(!stable(s0)) by {
                                if stable(s0) {
                                    assert(multi_candidates(s0, i as int) && (forall|dd: int|
                                        !hidden_single(s0, i as int, dd)));
                                }
                            }
                            lemma_hidden_single_sound(s0, i as int, d);
                            lemma_fix_cell(s0, i as int, d);
                        }
                        self.cells[i] = Cell::Fixed(idx as u8 + 1);
                        proof {
                            assert(self@ == s0.update(i as int, Cell::Fixed((idx + 1) as u8)));
                        }
                        return ScanOutcome::DidFix;
                    },
                    None => {
                    },
                }
                let (cnt, first) = Sudoku::count_candidates(&pv);
                if cnt == 0 {
                    proof {
                        lemma_count_true_zero(pv@, 9);
                        assert forall|d: int| 1 <= d <= 9 implies !avail(s0, i as int, d) by {
                            assert(!pv@[d - 1]);
                        }
                        assert(no_candidate(s0, i as int));
                        lemma_no_candidate_no_solution(s0, i as int);
                        assert(!stable(s0)) by {
                            if stable(s0) {
                                assert(multi_candidates(s0, i as int));
                                let (d1, d2) = choose|d1: int, d2: int|
                                    1 <= d1 <= 9 && 1 <= d2 <= 9 && d1 != d2 && avail(
                                        s0,
                                        i as int,
                                        d1,
                                    ) && avail(s0, i as int, d2);
                                assert(!avail(s0, i as int, d1));
                            }
                        }
                    }
                    return ScanOutcome::Inconsistent;
                }
                if cnt == 1 {
                    proof {
                        lemma_count_true_pos(pv@, 9, first as int);
                        lemma_count_true_one(pv@, 9, first as int);
                        assert forall|d2: int| 1 <= d2 <= 9 && avail(s0, i as int, d2) implies d2
                            == first as int + 1 by {
                            assert(pv@[d2 - 1]);
                        }
                        assert(naked_single(s0, i as int, first as int + 1));
                        assert(!stable(s0)) by {
                            if stable(s0) {
                                assert(multi_candidates(s0, i as int));
                                let (d1, d2) = choose|d1: int, d2: int|
                                    1 <= d1 <= 9 && 1 <= d2 <= 9 && d1 != d2 && avail(
                                        s0,
                                        i as int,
                                        d1,
                                    ) && avail(s0, i as int, d2);
                                assert(d1 == first as int + 1 && d2 == first as int + 1);
                            }
                        }
                        lemma_naked_single_sound(s0, i as int, first as int + 1);
                        lemma_fix_cell(s0, i as int, first as int + 1);
                    }
                    self.cells[i] = Cell::Fixed(first as u8 + 1);
                    proof {
                        assert(self@ == s0.update(i as int, Cell::Fixed((first + 1) as u8)));
                    }
                    return ScanOutcome::DidFix;
                }
                proof {
                    lemma_count_true_ex_two(pv@, 9);
                    let (k1, k2) = choose|k1: int, k2: int|
                        0 <= k1 < k2 < 9 && pv@[k1] && pv@[k2];
                    assert(avail(s0, i as int, k1 + 1) && avail(s0, i as int, k2 + 1));
                    assert(multi_candidates(s0, i as int));
                }
            }
        }
        ScanOutcome::NoFix
    }

    /// Applies the naked-single and hidden-single rules to a fixed
    /// point, restarting the scan after every fix. Reports `false` as
    /// soon as some cell is out of digits: the branch admits no
    /// solution and the caller must backtrack.
    pub fn fill_analytically(&mut self) -> (ok: bool)
        requires
            wf(old(self)@),
        ensures
            wf(final(self)@),
            fixed_preserved(old(self)@, final(self)@),
            consistent(old(self)@) ==> consistent(final(self)@),
            forall|g: Seq<int>| solution_of(g, final(self)@) <==> solution_of(g, old(self)@),
            undet_count(final(self)@, 81) <= undet_count(old(self)@, 81),
            ok ==> stable(final(self)@),
            !ok ==> forall|g: Seq<int>| !solution_of(g, old(self)@),
            stable(old(self)@) ==> ok && final(self)@ == old(self)@,
    {
        let ghost s0 = self@;
        let ghost mut m: int = undet_count(self@, 81);
        proof {
            lemma_undet_count_nonneg(self@, 81);
        }
        loop
            invariant
                wf(self@),
                fixed_preserved(s0, self@),
                consistent(s0) ==> consistent(self@),
                forall|g: Seq<int>| solution_of(g, self@) <==> solution_of(g, s0),
                undet_count(self@, 81) <= undet_count(s0, 81),
                stable(s0) ==> self@ == s0,
                s0 == old(self)@,
                wf(s0),
                m == undet_count(self@, 81),
                m >= 0,
            decreases m,
        {
            let ghost sit = self@;
            match self.scan_once() {
                ScanOutcome::DidFix => {
                    proof {
                        m = undet_count(self@, 81);
                        lemma_undet_count_nonneg(self@, 81);
                        assert(m == undet_count(sit, 81) - 1);
                        assert(!stable(s0));
                    }
                },
                ScanOutcome::NoFix => {
                    return true;
                },
                ScanOutcome::Inconsistent => {
                    proof {
                        assert forall|g: Seq<int>| !solution_of(g, s0) by {
                            if solution_of(g, s0) {
                                assert(solution_of(g, sit));
                            }
                        }
                    }
                    return false;
                },
            }
        }
    }

    /// The backtracking search, entered at scan position `i`: propagate
    /// to a fixed point, pick the next undetermined cell, and try its
    /// candidate digits in ascending order, undoing everything on
    /// failure. Succeeds exactly when the grid admits a solution; on
    /// failure the grid is left as it was.
    pub fn solve(&mut self, i: usize) -> (r: bool)
        requires
            wf(old(self)@),
            consistent(old(self)@),
            i <= 81,
        ensures
            r ==> wf(final(self)@) && all_fixed(final(self)@) && consistent(final(self)@)
                && fixed_preserved(old(self)@, final(self)@) && solution_of(
                digits_of(final(self)@),
                old(self)@,
            ),
            !r ==> final(self)@ == old(self)@ && (forall|g: Seq<int>|
                !solution_of(g, old(self)@)),
            all_fixed(old(self)@) ==> r && final(self)@ == old(self)@,
    {
        proof {
            lemma_undet_count_nonneg(self@, 81);
            lemma_undet_count_le_n(self@, 81);
        }
        self.solve_rec(i, 81)
    }

    /// The recursion behind [`Sudoku::solve`]. Each level fixes at
    /// least one more cell, so the number of undetermined cells bounds
    /// the remaining depth.
    fn solve_rec(&mut self, i: usize, fuel: usize) -> (r: bool)
        requires
            wf(old(self)@),
            consistent(old(self)@),
            i <= 81,
            undet_count(old(self)@, 81) <= fuel as int,
        ensures
            r ==> wf(final(self)@) && all_fixed(final(self)@) && consistent(final(self)@)
                && fixed_preserved(old(self)@, final(self)@) && solution_of(
                digits_of(final(self)@),
                old(self)@,
            ),
            !r ==> final(self)@ == old(self)@ && (forall|g: Seq<int>|
                !solution_of(g, old(self)@)),
            all_fixed(old(self)@) ==> r && final(self)@ == old(self)@,
        decreases fuel,
    {
        let ghost s0 = self@;
        proof {
            if all_fixed(s0) {
                assert(stable(s0));
            }
        }
        let snap = self.cells;
        let ok = self.fill_analytically();
        if !ok {
            self.cells = snap;
            proof {
                assert(self@ == s0);
            }
            return false;
        }
        let ghost g1 = self@;
        let next = self.find_next_to_fill(i);
        if next.is_none() {
            proof {
                assert(all_fixed(g1));
                let dg = digits_of(g1);
                assert forall|m: int| in_range(m) implies 1 <= dg[m] <= 9 by {
                    assert(is_fixed(g1, m));
                }
                assert forall|a: int, b: int|
                    in_range(a) && in_range(b) && a != b && peers(a, b) implies dg[a] != dg[b] by {
                    assert(is_fixed(g1, a) && is_fixed(g1, b));
                }
                assert forall|m: int| in_range(m) && is_fixed(s0, m) implies dg[m] == val(
                    s0,
                    m,
                ) by {
                    assert(is_fixed(g1, m) && val(g1, m) == val(s0, m));
                }
                assert(solution_of(dg, s0));
            }
            return true;
        }
        let c = next.unwrap();
        let pv = if let Cell::Normal(a) = self.cells[c] {
            a.possible_values
        } else {
            proof {
                assert(false);
            }
            [true;9]
        };
        proof {
            assert(g1[c as int] == Cell::Normal(CellS { possible_values: pv }));
            lemma_undet_count_pos(g1, c as int, 81);
        }
        let vals = Sudoku::get_valid_values(pv);
        let ghost gvals = vals@;
        let n = vals.len();
        for t in 0..n
            invariant
                self@ == g1,
                s0 == old(self)@,
                snap@ == s0,
                wf(s0),
                consistent(s0),
                wf(g1),
                consistent(g1),
                fixed_preserved(s0, g1),
                forall|g: Seq<int>| solution_of(g, g1) <==> solution_of(g, s0),
                undet_count(g1, 81) <= undet_count(s0, 81) <= fuel as int,
                c < 81,
                !is_fixed(g1, c as int),
                g1[c as int] == Cell::Normal(CellS { possible_values: pv }),
                n == vals@.len(),
                gvals == vals@,
                forall|k: int| 0 <= k < gvals.len() ==> 1 <= #[trigger] gvals[k] <= 9 && pv@[
                    gvals[k] - 1
                ],
                forall|d: usize| 1 <= d <= 9 && pv@[d - 1] ==> #[trigger] gvals.contains(d),
                forall|g: Seq<int>, t2: int|
                    #[trigger] solution_of(g, g1) && 0 <= t2 < t && 0 <= #[trigger] gvals[t2]
                        ==> g[c as int] != gvals[t2] as int,
        {
            let e = vals[t];
            if self.is_valid(c, e) {
                proof {
                    lemma_fix_cell(g1, c as int, e as int);
                    lemma_undet_count_pos(g1, c as int, 81);
                }
                self.cells[c] = Cell::Fixed(e as u8);
                proof {
                    assert(self@ == g1.update(c as int, Cell::Fixed((e as int) as u8)));
                    assert(undet_count(self@, 81) == undet_count(g1, 81) - 1);
                }
                let ghost g2 = self@;
                if self.solve_rec(c, fuel - 1) {
                    proof {
                        lemma_fixed_preserved_trans(s0, g1, g2);
                        lemma_fixed_preserved_trans(s0, g2, self@);
                        let dg = digits_of(self@);
                        assert forall|m: int| in_range(m) && is_fixed(s0, m) implies dg[m] == val(
                            s0,
                            m,
                        ) by {
                            assert(is_fixed(self@, m) && val(self@, m) == val(s0, m));
                        }
                        assert(solution_of(dg, s0));
                        assert(!all_fixed(s0)) by {
                            if all_fixed(s0) {
                                assert(is_fixed(s0, c as int));
                                assert(is_fixed(g1, c as int));
                            }
                        }
                    }
                    return true;
                }
                self.cells[c] = Cell::Normal(CellS::build(pv));
                proof {
                    assert(self@ =~= g1);
                    assert forall|g: Seq<int>, t2: int|
                        #[trigger] solution_of(g, g1) && 0 <= t2 < t + 1 && 0 <= #[trigger] gvals[
                            t2
                        ] implies g[c as int] != gvals[t2] as int by {
                        if t2 == t {
                            if g[c as int] == e as int {
                                assert forall|m: int|
                                    in_range(m) && is_fixed(g2, m) implies g[m] == val(g2, m) by {
                                    if m != c as int {
                                        assert(is_fixed(g1, m) && val(g1, m) == val(g2, m));
                                    }
                                }
                                assert(solution_of(g, g2));
                            }
                        }
                    }
                }
            } else {
                proof {
                    assert forall|g: Seq<int>, t2: int|
                        #[trigger] solution_of(g, g1) && 0 <= t2 < t + 1 && 0 <= #[trigger] gvals[
                            t2
                        ] implies g[c as int] != gvals[t2] as int by {
                        if t2 == t {
                            lemma_solution_avail(g, g1, c as int);
                        }
                    }
                }
            }
        }
        proof {
            assert forall|g: Seq<int>| !solution_of(g, s0) by {
                if solution_of(g, s0) {
                    assert(solution_of(g, g1));
                    lemma_solution_avail(g, g1, c as int);
                    let dd = g[c as int];
                    assert(stored_cand(g1, c as int, dd));
                    assert(pv@[dd - 1]);
                    assert(gvals.contains(dd as usize));
                    let t2 = choose|t2: int| 0 <= t2 < gvals.len() && gvals[t2] == dd as usize;
                    assert(gvals[t2] as int == dd);
                }
            }
            assert(!all_fixed(s0)) by {
                if all_fixed(s0) {
                    assert(is_fixed(s0, c as int));
                    assert(is_fixed(g1, c as int));
                }
            }
        }
        self.cells = snap;
        false
    }

    /// Solves the board outright: checks the given clues for a
    /// duplicate, runs propagation and search, and reports either the
    /// completed grid or that no completion exists.
    pub fn solve_puzzle(self) -> (r: SolveResult)
        requires
            wf(self@),
        ensures
            r matches SolveResult::Solved(g) ==> wf(g@) && all_fixed(g@) && consistent(g@)
                && fixed_preserved(self@, g@) && solution_of(digits_of(g@), self@),
            r is Unsolvable <==> (forall|g: Seq<int>| !solution_of(g, self@)),
            all_fixed(self@) && consistent(self@) ==> (r matches SolveResult::Solved(g) && g@
                == self@),
    {
        let mut s = self;
        let ghost s0 = s@;
        if !s.check_consistent() {
            proof {
                let (i, j) = choose|i: int, j: int|
                    in_range(i) && in_range(j) && i != j && peers(i, j) && is_fixed(s0, i)
                        && is_fixed(s0, j) && val(s0, i) == val(s0, j);
                lemma_inconsistent_no_solution(s0, i, j);
            }
            return SolveResult::Unsolvable;
        }
        if s.solve(0) {
            proof {
                assert(solution_of(digits_of(s@), s0));
            }
            SolveResult::Solved(s)
        } else {
            SolveResult::Unsolvable
        }
    }

    /// Whether the starting grid is free of duplicated fixed peers.
    pub fn check_consistent(&self) -> (r: bool)
        requires
            self@.len() == 81,
    ensures
            r == consistent(self@),
    {
        for i in 0..81
            invariant
                self@.len() == 81,
                forall|a: int, b: int|
                    0 <= a < i && in_range(b) && a != b && peers(a, b) && is_fixed(self@, a)
                        && is_fixed(self@, b) ==> val(self@, a) != val(self@, b),
        {
            if let Cell::Fixed(v) = self.cells[i] {
                for j in 0..81
                    invariant
                        self@.len() == 81,
                        i < 81,
                        self@[i as int] == Cell::Fixed(v),
                        forall|b: int|
                            0 <= b < j && i as int != b && peers(i as int, b) && is_fixed(self@, b)
                                ==> val(self@, b) != v as int,
                {
                    if j != i && is_peer(i, j) {
                        if let Cell::Fixed(w) = self.cells[j] {
                            if w == v {
                                return false;
                            }
                        }
                    }
                }
            }
        }
        true
    }
}

} // verus!
