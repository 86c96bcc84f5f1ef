//! The grid data model: cells, the 81-cell board, loading from raw
//! digits, and the candidate tracker that recomputes which digits a
//! cell may still take from its fixed row, column and box peers.

use vstd::prelude::*;

verus! {

use crate::model::{
    avail, avail_in_box, avail_in_col, avail_in_row, avail_in_unit, box_corner, box_unit_of,
    cells_ok, col_unit_of, in_range, is_fixed, lemma_avail_split, lemma_avail_units,
    lemma_same_unit, row_unit_of, stored_cand, unit_cell, val, wf,
};

/// One cell of the grid: either a digit known to be final, or an
/// undetermined cell carrying a snapshot of its candidate digits.
#[derive(Clone, Copy)]
pub enum Cell {
    Fixed(u8),
    Normal(CellS),
}

/// The candidate snapshot of an undetermined cell: `possible_values[k]`
/// records whether digit `k + 1` was still possible when the snapshot
/// was taken.
#[derive(Clone, Copy)]
pub struct CellS {
    pub possible_values: [bool; 9],
}

impl CellS {
    /// A fresh undetermined cell: every digit 1..9 is a candidate.
    pub fn new() -> (r: CellS)
        ensures
            forall|k: int| 0 <= k < 9 ==> r.possible_values@[k],
    {
        CellS { possible_values: [true;9] }
    }

    /// An undetermined cell holding the given candidate snapshot.
    pub fn build(av: [bool; 9]) -> (r: CellS)
        ensures
            r.possible_values == av,
    {
        CellS { possible_values: av }
    }
}

/// The raised error when raw input holds a cell value outside 0..9.
#[derive(Clone, Copy, Debug, PartialEq, Eq, Structural)]
pub enum LoadError {
    ValueOutOfRange,
}

/// The 9x9 board: 81 cells in row-major order, cell `i` sitting in row
/// `i / 9` and column `i % 9`.
pub struct Sudoku {
    pub cells: [Cell; 81],
}

impl View for Sudoku {
    type V = Seq<Cell>;

    open spec fn view(&self) -> Seq<Cell> {
        self.cells@
    }
}

/// The raw input digit destined for cell `t`.
pub open spec fn raw_at(input: [[u8; 9]; 9], t: int) -> int {
    input@[t / 9]@[t % 9] as int
}

impl Sudoku {
    /// Loads a raw 9x9 grid of digits: 0 means blank, 1..9 a given
    /// clue. Any other value is malformed and rejected.
    pub fn new(input: [[u8; 9]; 9]) -> (r: Result<Sudoku, LoadError>)
        ensures
            r matches Err(_) <==> exists|t: int| 0 <= t < 81 && #[trigger] raw_at(input, t) > 9,
            r matches Ok(s) ==> {
                &&& wf(s@)
                &&& forall|t: int|
                    0 <= t < 81 ==> {
                        &&& (raw_at(input, t) == 0 ==> !is_fixed(s@, t) && (forall|d: int|
                            1 <= d <= 9 ==> stored_cand(s@, t, d)))
                        &&& (raw_at(input, t) != 0 ==> is_fixed(s@, t) && val(s@, t) == raw_at(
                            input,
                            t,
                        ))
                    }
            },
    {
        let mut cells: [Cell; 81] = [Cell::Normal(CellS::new());81];
        let ghost c0 = cells@;
        assert(forall|m: int| 0 <= m < 81 ==> !is_fixed(c0, m));
        assert(forall|m: int, d: int| 0 <= m < 81 && 1 <= d <= 9 ==> stored_cand(c0, m, d));
        for t in 0..81
            invariant
                forall|m: int| 0 <= m < 81 ==> !is_fixed(c0, m),
                forall|m: int, d: int| 0 <= m < 81 && 1 <= d <= 9 ==> stored_cand(c0, m, d),
                forall|m: int| 0 <= m < t ==> #[trigger] raw_at(input, m) <= 9,
                forall|m: int|
                    0 <= m < t && #[trigger] raw_at(input, m) != 0 ==> is_fixed(cells@, m) && val(
                        cells@,
                        m,
                    ) == raw_at(input, m),
                forall|m: int|
                    0 <= m < t && #[trigger] raw_at(input, m) == 0 ==> cells@[m] == c0[m],
                forall|m: int| t <= m < 81 ==> cells@[m] == c0[m],
        {
            let r: usize = t / 9;
            let c: usize = t % 9;
            let v: u8 = input[r][c];
            if v > 9 {
                proof {
                    assert(raw_at(input, t as int) > 9);
                }
                return Err(LoadError::ValueOutOfRange);
            }
            if v != 0 {
                cells[t] = Cell::Fixed(v);
                proof {
                    assert(raw_at(input, t as int) == v as int);
                }
            }
        }
        let s = Sudoku { cells };
        proof {
            assert forall|m: int| in_range(m) && is_fixed(s@, m) implies 1 <= val(s@, m) <= 9 by {
                assert(raw_at(input, m) == 0 ==> s@[m] == c0[m]);
            }
            assert forall|m: int, d: int|
                in_range(m) && !is_fixed(s@, m) && 1 <= d <= 9 implies stored_cand(s@, m, d) by {
                assert(raw_at(input, m) == 0 ==> s@[m] == c0[m]);
                assert(raw_at(input, m) != 0 ==> is_fixed(s@, m));
            }
            assert(wf(s@));
        }
        Ok(s)
    }

    /// The linear index of the top-left cell of the box holding `val`.
    pub fn find_box_corner(val: usize) -> (r: usize)
        requires
            val < 81,
        ensures
            r as int == box_corner(val as int),
    {
        (val / 27) * 27 + ((val % 9) / 3) * 3
    }

    /// The digit of cell `i` if it is fixed, 0 while it is blank.
    pub fn digit_at(&self, i: usize) -> (r: u8)
        requires
            self@.len() == 81,
            i < 81,
        ensures
            is_fixed(self@, i as int) ==> r as int == val(self@, i as int),
            !is_fixed(self@, i as int) ==> r == 0,
    {
        match self.cells[i] {
            Cell::Fixed(v) => v,
            Cell::Normal(_) => 0,
        }
    }

    /// The 9 cell indices of the row holding `idx`.
    pub fn row_indices(idx: usize) -> (r: [usize; 9])
        requires
            idx < 81,
        ensures
            forall|k: int| 0 <= k < 9 ==> r@[k] as int == unit_cell(row_unit_of(idx as int), k),
            forall|k: int| 0 <= k < 9 ==> r@[k] < 81,
    {
        let mut res: [usize; 9] = [0;9];
        let start: usize = (idx / 9) * 9;
        for k in 0..9
            invariant
                idx < 81,
                start as int == 9 * (idx as int / 9),
                forall|t: int|
                    0 <= t < k ==> res@[t] as int == unit_cell(row_unit_of(idx as int), t)
                        && res@[t] < 81,
        {
            res[k] = start + k;
        }
        res
    }

    /// The 9 cell indices of the column holding `idx`.
    pub fn column_indices(idx: usize) -> (r: [usize; 9])
        requires
            idx < 81,
        ensures
            forall|k: int| 0 <= k < 9 ==> r@[k] as int == unit_cell(col_unit_of(idx as int), k),
            forall|k: int| 0 <= k < 9 ==> r@[k] < 81,
    {
        let mut res: [usize; 9] = [0;9];
        let start: usize = idx % 9;
        for k in 0..9
            invariant
                idx < 81,
                start as int == idx as int % 9,
                forall|t: int|
                    0 <= t < k ==> res@[t] as int == unit_cell(col_unit_of(idx as int), t)
                        && res@[t] < 81,
        {
            res[k] = start + 9 * k;
        }
        res
    }

    /// The 9 cell indices of the box holding `idx`, in row-major order.
    pub fn square_indices(idx: usize) -> (r: [usize; 9])
        requires
            idx < 81,
        ensures
            forall|k: int| 0 <= k < 9 ==> r@[k] as int == unit_cell(box_unit_of(idx as int), k),
            forall|k: int| 0 <= k < 9 ==> r@[k] < 81,
    {
        let mut res: [usize; 9] = [0;9];
        let bc = Sudoku::find_box_corner(idx);
        proof {
            let u = box_unit_of(idx as int);
            assert((u - 18) / 3 == idx as int / 27 && (u - 18) % 3 == (idx as int % 9) / 3);
        }
        for k in 0..9
            invariant
                idx < 81,
                bc as int == box_corner(idx as int),
                forall|t: int|
                    0 <= t < k ==> res@[t] as int == unit_cell(box_unit_of(idx as int), t)
                        && res@[t] < 81,
        {
            proof {
                lemma_same_unit(idx as int, k as int);
                let u = box_unit_of(idx as int);
                assert((u - 18) / 3 == idx as int / 27 && (u - 18) % 3 == (idx as int % 9) / 3);
                assert(unit_cell(u, k as int) == box_corner(idx as int) + 9 * (k as int / 3) + (
                k as int % 3));
            }
            res[k] = bc + (k / 3) * 9 + k % 3;
        }
        res
    }

    /// Which digits are not excluded by a fixed cell in the row of `i`.
    pub fn find_available_in_row(&self, i: usize) -> (av: [bool; 9])
        requires
            self@.len() == 81,
            cells_ok(self@),
            i < 81,
        ensures
            forall|k: int| 0 <= k < 9 ==> (av@[k] <==> avail_in_row(self@, i as int, k + 1)),
    {
        let ghost u = row_unit_of(i as int);
        let mut av: [bool; 9] = [true;9];
        let start: usize = (i / 9) * 9;
        for t in 0..9
            invariant
                self@.len() == 81,
                cells_ok(self@),
                i < 81,
                start as int == 9 * (i as int / 9),
                u == row_unit_of(i as int),
                forall|k: int|
                    0 <= k < 9 ==> (av@[k] <==> (forall|m: int|
                        0 <= m < t && is_fixed(self@, #[trigger] unit_cell(u, m)) ==> val(
                            self@,
                            unit_cell(u, m),
                        ) != k + 1)),
        {
            proof {
                lemma_same_unit(i as int, t as int);
            }
            let j = start + t;
            assert(j as int == unit_cell(u, t as int));
            if let Cell::Fixed(v) = self.cells[j] {
                assert(1 <= v <= 9);
                av[(v - 1) as usize] = false;
            }
        }
        proof {
            assert forall|k: int| 0 <= k < 9 implies (av@[k] <==> avail_in_row(
                self@,
                i as int,
                k + 1,
            )) by {
                assert(av@[k] <==> avail_in_unit(self@, u, k + 1));
                lemma_avail_units(self@, i as int, k + 1);
            }
        }
        av
    }

    /// Which digits are not excluded by a fixed cell in the column of `i`.
    pub fn find_available_in_col(&self, i: usize) -> (av: [bool; 9])
        requires
            self@.len() == 81,
            cells_ok(self@),
            i < 81,
        ensures
            forall|k: int| 0 <= k < 9 ==> (av@[k] <==> avail_in_col(self@, i as int, k + 1)),
    {
        let ghost u = col_unit_of(i as int);
        let mut av: [bool; 9] = [true;9];
        let start: usize = i % 9;
        for t in 0..9
            invariant
                self@.len() == 81,
                cells_ok(self@),
                i < 81,
                start as int == i as int % 9,
                u == col_unit_of(i as int),
                forall|k: int|
                    0 <= k < 9 ==> (av@[k] <==> (forall|m: int|
                        0 <= m < t && is_fixed(self@, #[trigger] unit_cell(u, m)) ==> val(
                            self@,
                            unit_cell(u, m),
                        ) != k + 1)),
        {
            proof {
                lemma_same_unit(i as int, t as int);
            }
            let j = start + 9 * t;
            assert(j as int == unit_cell(u, t as int));
            if let Cell::Fixed(v) = self.cells[j] {
                assert(1 <= v <= 9);
                av[(v - 1) as usize] = false;
            }
        }
        proof {
            assert forall|k: int| 0 <= k < 9 implies (av@[k] <==> avail_in_col(
                self@,
                i as int,
                k + 1,
            )) by {
                assert(av@[k] <==> avail_in_unit(self@, u, k + 1));
                lemma_avail_units(self@, i as int, k + 1);
            }
        }
        av
    }

    /// Which digits are not excluded by a fixed cell in the box of `i`.
    pub fn find_available_in_square(&self, i: usize) -> (av: [bool; 9])
        requires
            self@.len() == 81,
            cells_ok(self@),
            i < 81,
        ensures
            forall|k: int| 0 <= k < 9 ==> (av@[k] <==> avail_in_box(self@, i as int, k + 1)),
    {
        let ghost u = box_unit_of(i as int);
        let mut av: [bool; 9] = [true;9];
        let bc = Sudoku::find_box_corner(i);
        proof {
            assert((u - 18) / 3 == i as int / 27 && (u - 18) % 3 == (i as int % 9) / 3);
        }
        for t in 0..9
            invariant
                self@.len() == 81,
                cells_ok(self@),
                i < 81,
                bc as int == box_corner(i as int),
                u == box_unit_of(i as int),
                forall|k: int|
                    0 <= k < 9 ==> (av@[k] <==> (forall|m: int|
                        0 <= m < t && is_fixed(self@, #[trigger] unit_cell(u, m)) ==> val(
                            self@,
                            unit_cell(u, m),
                        ) != k + 1)),
        {
            proof {
                lemma_same_unit(i as int, t as int);
                assert((u - 18) / 3 == i as int / 27 && (u - 18) % 3 == (i as int % 9) / 3);
                assert(unit_cell(u, t as int) == box_corner(i as int) + 9 * (t as int / 3) + (
                t as int % 3));
            }
            let j = bc + (t / 3) * 9 + t % 3;
            assert(j as int == unit_cell(u, t as int));
            if let Cell::Fixed(v) = self.cells[j] {
                assert(1 <= v <= 9);
                av[(v - 1) as usize] = false;
            }
        }
        proof {
            assert forall|k: int| 0 <= k < 9 implies (av@[k] <==> avail_in_box(
                self@,
                i as int,
                k + 1,
            )) by {
                assert(av@[k] <==> avail_in_unit(self@, u, k + 1));
                lemma_avail_units(self@, i as int, k + 1);
            }
        }
        av
    }

    /// Which digits no fixed peer of `i` excludes: the candidate
    /// tracker, recomputed from the current grid on every call.
    pub fn find_available(&self, i: usize) -> (pv: [bool; 9])
        requires
            self@.len() == 81,
            cells_ok(self@),
            i < 81,
        ensures
            forall|k: int| 0 <= k < 9 ==> (pv@[k] <==> avail(self@, i as int, k + 1)),
    {
        let mut possible_values: [bool; 9] = [true;9];
        let col_av = self.find_available_in_col(i);
        let row_av = self.find_available_in_row(i);
        let s_av = self.find_available_in_square(i);
        combine_arr(&mut possible_values, &col_av);
        combine_arr(&mut possible_values, &row_av);
        combine_arr(&mut possible_values, &s_av);
        proof {
            assert forall|k: int| 0 <= k < 9 implies (possible_values@[k] <==> avail(
                self@,
                i as int,
                k + 1,
            )) by {
                assert(col_av@[k] <==> avail_in_col(self@, i as int, k + 1));
                assert(row_av@[k] <==> avail_in_row(self@, i as int, k + 1));
                assert(s_av@[k] <==> avail_in_box(self@, i as int, k + 1));
                assert(possible_values@[k] <==> col_av@[k] && row_av@[k] && s_av@[k]);
                lemma_avail_split(self@, i as int, k + 1);
            }
        }
        possible_values
    }
}

/// Keeps in `arr1` only the digits that `arr2` also allows.
pub fn combine_arr(arr1: &mut [bool; 9], arr2: &[bool; 9])
    ensures
        forall|k: int| 0 <= k < 9 ==> (final(arr1)@[k] <==> old(arr1)@[k] && arr2@[k]),
{
    let ghost orig = *arr1;
    assert(orig == *old(arr1));
    for k in 0..9
        invariant
            forall|t: int| 0 <= t < k ==> (arr1@[t] <==> orig@[t] && arr2@[t]),
            forall|t: int| k <= t < 9 ==> arr1@[t] == orig@[t],
    {
        if !arr2[k] {
            arr1[k] = false;
        }
    }
}

} // verus!
