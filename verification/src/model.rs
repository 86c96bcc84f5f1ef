//! The mathematical model of the board: geometry of rows, columns and
//! boxes, availability of digits, well-formedness, solutions, and the
//! propagation rules the solver applies.

use vstd::prelude::*;

verus! {

use crate::grid::{Cell, CellS};

/// A linear cell index addresses one of the 81 cells.
pub open spec fn in_range(i: int) -> bool {
    0 <= i < 81
}

/// The row of cell `i` (0-based).
pub open spec fn row_of(i: int) -> int {
    i / 9
}

/// The column of cell `i` (0-based).
pub open spec fn col_of(i: int) -> int {
    i % 9
}

pub open spec fn same_row(i: int, j: int) -> bool {
    row_of(i) == row_of(j)
}

pub open spec fn same_col(i: int, j: int) -> bool {
    col_of(i) == col_of(j)
}

pub open spec fn same_box(i: int, j: int) -> bool {
    i / 27 == j / 27 && col_of(i) / 3 == col_of(j) / 3
}

/// The top-left cell of the 3x3 box holding cell `i`: row and column
/// each rounded down to the nearest multiple of 3.
pub open spec fn box_corner(i: int) -> int {
    27 * (i / 27) + 3 * (col_of(i) / 3)
}

/// Two cells are peers when they share a row, a column or a box.
pub open spec fn peers(i: int, j: int) -> bool {
    same_row(i, j) || same_col(i, j) || same_box(i, j)
}

pub open spec fn is_fixed(s: Seq<Cell>, i: int) -> bool {
    s[i] is Fixed
}

/// The digit of a fixed cell.
pub open spec fn val(s: Seq<Cell>, i: int) -> int {
    s[i]->Fixed_0 as int
}

/// Digit `d` is in the stored candidate snapshot of undetermined cell `i`.
pub open spec fn stored_cand(s: Seq<Cell>, i: int, d: int) -> bool {
    s[i] is Normal && s[i]->Normal_0.possible_values@[d - 1]
}

/// Digit `d` does not appear as a fixed value among the row peers of `i`.
pub open spec fn avail_in_row(s: Seq<Cell>, i: int, d: int) -> bool {
    forall|j: int| in_range(j) && same_row(i, j) && is_fixed(s, j) ==> val(s, j) != d
}

/// Digit `d` does not appear as a fixed value among the column peers of `i`.
pub open spec fn avail_in_col(s: Seq<Cell>, i: int, d: int) -> bool {
    forall|j: int| in_range(j) && same_col(i, j) && is_fixed(s, j) ==> val(s, j) != d
}

/// Digit `d` does not appear as a fixed value among the box peers of `i`.
pub open spec fn avail_in_box(s: Seq<Cell>, i: int, d: int) -> bool {
    forall|j: int| in_range(j) && same_box(i, j) && is_fixed(s, j) ==> val(s, j) != d
}

/// Digit `d` is not excluded at cell `i` by any fixed peer: the
/// candidate tracker's answer, always recomputed from the current grid.
pub open spec fn avail(s: Seq<Cell>, i: int, d: int) -> bool {
    forall|j: int| in_range(j) && peers(i, j) && is_fixed(s, j) ==> val(s, j) != d
}

/// Every fixed cell holds a digit 1..9.
pub open spec fn cells_ok(s: Seq<Cell>) -> bool {
    forall|i: int| in_range(i) && is_fixed(s, i) ==> 1 <= val(s, i) <= 9
}

/// The stored candidate snapshot of every undetermined cell covers every
/// digit the current grid still allows there: snapshots may be stale,
/// but only ever toward extra digits, never missing ones.
pub open spec fn covers(s: Seq<Cell>) -> bool {
    forall|i: int, d: int|
        in_range(i) && !is_fixed(s, i) && 1 <= d <= 9 && avail(s, i, d) ==> stored_cand(s, i, d)
}

/// A well-formed board: 81 cells, fixed digits in 1..9, snapshots
/// covering availability.
pub open spec fn wf(s: Seq<Cell>) -> bool {
    s.len() == 81 && cells_ok(s) && covers(s)
}

/// No two distinct fixed peers share a digit.
pub open spec fn consistent(s: Seq<Cell>) -> bool {
    forall|i: int, j: int|
        in_range(i) && in_range(j) && i != j && peers(i, j) && is_fixed(s, i) && is_fixed(s, j)
            ==> val(s, i) != val(s, j)
}

pub open spec fn all_fixed(s: Seq<Cell>) -> bool {
    forall|i: int| in_range(i) ==> #[trigger] is_fixed(s, i)
}

/// Every cell fixed in `a` is fixed in `b` with the same digit.
pub open spec fn fixed_preserved(a: Seq<Cell>, b: Seq<Cell>) -> bool {
    forall|i: int|
        in_range(i) && #[trigger] is_fixed(a, i) ==> is_fixed(b, i) && val(b, i) == val(a, i)
}

/// A complete assignment of digits 1..9 to all 81 cells.
pub open spec fn digits_ok(g: Seq<int>) -> bool {
    g.len() == 81 && forall|i: int| in_range(i) ==> 1 <= g[i] <= 9
}

/// A complete assignment in which no two distinct peers share a digit.
pub open spec fn valid_grid(g: Seq<int>) -> bool {
    digits_ok(g) && forall|i: int, j: int|
        in_range(i) && in_range(j) && i != j && peers(i, j) ==> g[i] != g[j]
}

/// The assignment agrees with every fixed cell of the board.
pub open spec fn extends(g: Seq<int>, s: Seq<Cell>) -> bool {
    forall|i: int| in_range(i) && is_fixed(s, i) ==> g[i] == val(s, i)
}

/// A solution of a board: a valid complete grid honouring its clues.
pub open spec fn solution_of(g: Seq<int>, s: Seq<Cell>) -> bool {
    valid_grid(g) && extends(g, s)
}

/// The digits of a fully fixed board.
pub open spec fn digits_of(s: Seq<Cell>) -> Seq<int> {
    Seq::new(81, |i: int| val(s, i))
}

/// The number of undetermined cells among the first `n`.
pub open spec fn undet_count(s: Seq<Cell>, n: int) -> int
    decreases n,
{
    if n <= 0 {
        0
    } else {
        undet_count(s, n - 1) + if is_fixed(s, n - 1) { 0int } else { 1int }
    }
}

/// Cell `k` of unit `u`. Units 0..9 are the rows, 9..18 the columns,
/// 18..27 the boxes (each in row-major order).
pub open spec fn unit_cell(u: int, k: int) -> int {
    if u < 9 {
        9 * u + k
    } else if u < 18 {
        (u - 9) + 9 * k
    } else {
        27 * ((u - 18) / 3) + 3 * ((u - 18) % 3) + 9 * (k / 3) + (k % 3)
    }
}

/// Cell `c` belongs to unit `u`.
pub open spec fn unit_contains(u: int, c: int) -> bool {
    exists|k: int| 0 <= k < 9 && unit_cell(u, k) == c
}

/// A naked single: `d` is the only digit still available at the
/// undetermined cell `c`.
pub open spec fn naked_single(s: Seq<Cell>, c: int, d: int) -> bool {
    !is_fixed(s, c) && 1 <= d <= 9 && avail(s, c, d) && forall|d2: int|
        1 <= d2 <= 9 && avail(s, c, d2) ==> d2 == d
}

/// A hidden single: `d` is available at the undetermined cell `c`, and
/// in some unit of `c` no other cell could still take `d`.
pub open spec fn hidden_single(s: Seq<Cell>, c: int, d: int) -> bool {
    !is_fixed(s, c) && 1 <= d <= 9 && avail(s, c, d) && exists|u: int|
        0 <= u < 27 && unit_contains(u, c) && forall|k: int|
            0 <= k < 9 && unit_cell(u, k) != c && !is_fixed(s, unit_cell(u, k)) ==> !avail(
                s,
                unit_cell(u, k),
                d,
            )
}

/// No digit at all is still available at the undetermined cell `c`: the
/// branch is inconsistent.
pub open spec fn no_candidate(s: Seq<Cell>, c: int) -> bool {
    !is_fixed(s, c) && forall|d: int| 1 <= d <= 9 ==> !avail(s, c, d)
}

/// At least two digits are still available at cell `i`.
pub open spec fn multi_candidates(s: Seq<Cell>, i: int) -> bool {
    exists|d1: int, d2: int|
        1 <= d1 <= 9 && 1 <= d2 <= 9 && d1 != d2 && avail(s, i, d1) && avail(s, i, d2)
}

/// A propagation fixed point: neither the naked-single nor the
/// hidden-single rule applies anywhere, and no cell is out of digits.
pub open spec fn stable(s: Seq<Cell>) -> bool {
    forall|i: int|
        #![trigger is_fixed(s, i)]
        in_range(i) && !is_fixed(s, i) ==> multi_candidates(s, i) && (forall|d: int|
            !(#[trigger] hidden_single(s, i, d)))
}

/// The unit number of the row holding cell `i`.
pub open spec fn row_unit_of(i: int) -> int {
    i / 9
}

/// The unit number of the column holding cell `i`.
pub open spec fn col_unit_of(i: int) -> int {
    9 + i % 9
}

/// The unit number of the box holding cell `i`.
pub open spec fn box_unit_of(i: int) -> int {
    18 + 3 * (i / 27) + (i % 9) / 3
}

/// The position of cell `j` within its box, in row-major order.
pub open spec fn box_pos_of(j: int) -> int {
    3 * ((j / 9) % 3) + (j % 9) % 3
}

/// Digit `d` does not appear as a fixed value anywhere in unit `u`.
pub open spec fn avail_in_unit(s: Seq<Cell>, u: int, d: int) -> bool {
    forall|k: int|
        0 <= k < 9 && is_fixed(s, unit_cell(u, k)) ==> val(s, unit_cell(u, k)) != d
}

/// Every cell of one of `i`'s units shares the corresponding group
/// with `i` and lies on the board.
pub proof fn lemma_same_unit(i: int, k: int)
    requires
        in_range(i),
        0 <= k < 9,
    ensures
        in_range(unit_cell(row_unit_of(i), k)),
        same_row(i, unit_cell(row_unit_of(i), k)),
        in_range(unit_cell(col_unit_of(i), k)),
        same_col(i, unit_cell(col_unit_of(i), k)),
        in_range(unit_cell(box_unit_of(i), k)),
        same_box(i, unit_cell(box_unit_of(i), k)),
{
    let u = box_unit_of(i);
    let c = unit_cell(u, k);
    assert((u - 18) / 3 == i / 27 && (u - 18) % 3 == (i % 9) / 3);
    assert(c == 27 * (i / 27) + 3 * ((i % 9) / 3) + 9 * (k / 3) + k % 3);
    assert(c / 27 == i / 27 && (c % 9) / 3 == (i % 9) / 3) by (nonlinear_arith)
        requires
            c == 27 * (i / 27) + 3 * ((i % 9) / 3) + 9 * (k / 3) + k % 3,
            0 <= i < 81,
            0 <= k < 9,
    ;
}

/// A cell sharing a group with `i` sits in the corresponding unit of
/// `i`, at a computable position.
pub proof fn lemma_unit_index(i: int, j: int)
    requires
        in_range(i),
        in_range(j),
    ensures
        same_row(i, j) ==> 0 <= col_of(j) < 9 && unit_cell(row_unit_of(i), col_of(j)) == j,
        same_col(i, j) ==> 0 <= row_of(j) < 9 && unit_cell(col_unit_of(i), row_of(j)) == j,
        same_box(i, j) ==> 0 <= box_pos_of(j) < 9 && unit_cell(box_unit_of(i), box_pos_of(j)) == j,
{
    if same_box(i, j) {
        let u = box_unit_of(i);
        let m = box_pos_of(j);
        assert((u - 18) / 3 == i / 27 && (u - 18) % 3 == (i % 9) / 3);
        assert(unit_cell(u, m) == 27 * (j / 27) + 3 * ((j % 9) / 3) + 9 * (m / 3) + m % 3);
        assert(m / 3 == (j / 9) % 3 && m % 3 == (j % 9) % 3) by (nonlinear_arith)
            requires
                m == 3 * ((j / 9) % 3) + (j % 9) % 3,
                0 <= j < 81,
        ;
        assert(j == 27 * (j / 27) + 9 * ((j / 9) % 3) + 3 * ((j % 9) / 3) + (j % 9) % 3);
    }
}

/// Two distinct cells of one unit are distinct peers.
pub proof fn lemma_unit_cells_are_peers(u: int, k1: int, k2: int)
    requires
        0 <= u < 27,
        0 <= k1 < 9,
        0 <= k2 < 9,
    ensures
        in_range(unit_cell(u, k1)),
        peers(unit_cell(u, k1), unit_cell(u, k2)),
        k1 != k2 ==> unit_cell(u, k1) != unit_cell(u, k2),
{
    let a = unit_cell(u, k1);
    let b = unit_cell(u, k2);
    if u < 9 {
        assert(a / 9 == u && b / 9 == u);
    } else if u < 18 {
        assert(a % 9 == u - 9 && b % 9 == u - 9);
        assert(k1 != k2 ==> a != b);
    } else {
        let q = (u - 18) / 3;
        let s2 = (u - 18) % 3;
        assert(a == 27 * q + 3 * s2 + 9 * (k1 / 3) + k1 % 3);
        assert(b == 27 * q + 3 * s2 + 9 * (k2 / 3) + k2 % 3);
        assert(a / 27 == q && (a % 9) / 3 == s2 && (a / 9) % 3 == k1 / 3 && (a % 9) % 3 == k1 % 3)
            by (nonlinear_arith)
            requires
                a == 27 * q + 3 * s2 + 9 * (k1 / 3) + k1 % 3,
                0 <= q < 3,
                0 <= s2 < 3,
                0 <= k1 < 9,
        ;
        assert(b / 27 == q && (b % 9) / 3 == s2 && (b / 9) % 3 == k2 / 3 && (b % 9) % 3 == k2 % 3)
            by (nonlinear_arith)
            requires
                b == 27 * q + 3 * s2 + 9 * (k2 / 3) + k2 % 3,
                0 <= q < 3,
                0 <= s2 < 3,
                0 <= k2 < 9,
        ;
        assert(k1 != k2 ==> k1 / 3 != k2 / 3 || k1 % 3 != k2 % 3);
    }
}

/// Group availability of a cell coincides with availability in the
/// corresponding unit.
pub proof fn lemma_avail_units(s: Seq<Cell>, i: int, d: int)
    requires
        in_range(i),
    ensures
        avail_in_row(s, i, d) == avail_in_unit(s, row_unit_of(i), d),
        avail_in_col(s, i, d) == avail_in_unit(s, col_unit_of(i), d),
        avail_in_box(s, i, d) == avail_in_unit(s, box_unit_of(i), d),
{
    if avail_in_row(s, i, d) {
        assert forall|k: int| 0 <= k < 9 && is_fixed(s, unit_cell(row_unit_of(i), k)) implies val(
            s,
            unit_cell(row_unit_of(i), k),
        ) != d by {
            lemma_same_unit(i, k);
        }
    }
    if avail_in_unit(s, row_unit_of(i), d) {
        assert forall|j: int| in_range(j) && same_row(i, j) && is_fixed(s, j) implies val(s, j)
            != d by {
            lemma_unit_index(i, j);
        }
    }
    if avail_in_col(s, i, d) {
        assert forall|k: int| 0 <= k < 9 && is_fixed(s, unit_cell(col_unit_of(i), k)) implies val(
            s,
            unit_cell(col_unit_of(i), k),
        ) != d by {
            lemma_same_unit(i, k);
        }
    }
    if avail_in_unit(s, col_unit_of(i), d) {
        assert forall|j: int| in_range(j) && same_col(i, j) && is_fixed(s, j) implies val(s, j)
            != d by {
            lemma_unit_index(i, j);
        }
    }
    if avail_in_box(s, i, d) {
        assert forall|k: int| 0 <= k < 9 && is_fixed(s, unit_cell(box_unit_of(i), k)) implies val(
            s,
            unit_cell(box_unit_of(i), k),
        ) != d by {
            lemma_same_unit(i, k);
        }
    }
    if avail_in_unit(s, box_unit_of(i), d) {
        assert forall|j: int| in_range(j) && same_box(i, j) && is_fixed(s, j) implies val(s, j)
            != d by {
            lemma_unit_index(i, j);
        }
    }
}

/// Availability splits into the three peer groups.
pub proof fn lemma_avail_split(s: Seq<Cell>, i: int, d: int)
    ensures
        avail(s, i, d) <==> (avail_in_row(s, i, d) && avail_in_col(s, i, d) && avail_in_box(
            s,
            i,
            d,
        )),
{
    if avail_in_row(s, i, d) && avail_in_col(s, i, d) && avail_in_box(s, i, d) {
        assert forall|j: int| in_range(j) && peers(i, j) && is_fixed(s, j) implies val(s, j) != d by {
            if same_row(i, j) {
                assert(avail_in_row(s, i, d));
            } else if same_col(i, j) {
                assert(avail_in_col(s, i, d));
            } else {
                assert(avail_in_box(s, i, d));
            }
        }
    }
}

/// The number of `true` entries among the first `n` of a candidate snapshot.
pub open spec fn count_true(b: Seq<bool>, n: int) -> int
    decreases n,
{
    if n <= 0 {
        0
    } else {
        count_true(b, n - 1) + if b[n - 1] { 1int } else { 0int }
    }
}

pub proof fn lemma_count_true_nonneg(b: Seq<bool>, n: int)
    ensures
        count_true(b, n) >= 0,
    decreases n,
{
    if n > 0 {
        lemma_count_true_nonneg(b, n - 1);
    }
}

/// A `true` entry makes the count positive.
pub proof fn lemma_count_true_pos(b: Seq<bool>, n: int, k: int)
    requires
        0 <= k < n,
        b[k],
    ensures
        count_true(b, n) >= 1,
    decreases n,
{
    lemma_count_true_nonneg(b, n - 1);
    if k < n - 1 {
        lemma_count_true_pos(b, n - 1, k);
    }
}

/// Two distinct `true` entries make the count at least two.
pub proof fn lemma_count_true_pair(b: Seq<bool>, n: int, k1: int, k2: int)
    requires
        0 <= k1 < k2 < n,
        b[k1],
        b[k2],
    ensures
        count_true(b, n) >= 2,
    decreases n,
{
    if k2 == n - 1 {
        lemma_count_true_pos(b, n - 1, k1);
    } else {
        lemma_count_true_pair(b, n - 1, k1, k2);
    }
}

/// A count of zero means no entry is `true`.
pub proof fn lemma_count_true_zero(b: Seq<bool>, n: int)
    requires
        count_true(b, n) == 0,
    ensures
        forall|k: int| 0 <= k < n ==> !b[k],
{
    assert forall|k: int| 0 <= k < n implies !b[k] by {
        if b[k] {
            lemma_count_true_pos(b, n, k);
        }
    }
}

/// A count of one means the one `true` entry is unique.
pub proof fn lemma_count_true_one(b: Seq<bool>, n: int, k0: int)
    requires
        count_true(b, n) == 1,
        0 <= k0 < n,
        b[k0],
    ensures
        forall|k: int| 0 <= k < n && b[k] ==> k == k0,
{
    assert forall|k: int| 0 <= k < n && b[k] implies k == k0 by {
        if k < k0 {
            lemma_count_true_pair(b, n, k, k0);
        } else if k > k0 {
            lemma_count_true_pair(b, n, k0, k);
        }
    }
}

/// A positive count exhibits a `true` entry.
pub proof fn lemma_count_true_ex_one(b: Seq<bool>, n: int)
    requires
        count_true(b, n) >= 1,
    ensures
        exists|k: int| 0 <= k < n && b[k],
    decreases n,
{
    if n > 0 {
        if b[n - 1] {
        } else {
            lemma_count_true_ex_one(b, n - 1);
        }
    }
}

/// A count of at least two exhibits two distinct `true` entries.
pub proof fn lemma_count_true_ex_two(b: Seq<bool>, n: int)
    requires
        count_true(b, n) >= 2,
    ensures
        exists|k1: int, k2: int| 0 <= k1 < k2 < n && b[k1] && b[k2],
    decreases n,
{
    if n > 0 {
        if b[n - 1] {
            lemma_count_true_ex_one(b, n - 1);
            let k = choose|k: int| 0 <= k < n - 1 && b[k];
            assert(0 <= k < n - 1 < n && b[k] && b[n - 1]);
        } else {
            lemma_count_true_ex_two(b, n - 1);
        }
    }
}

/// A cell belongs only to its own row, column and box unit.
pub proof fn lemma_unit_contains_inv(u: int, i: int)
    requires
        0 <= u < 27,
        in_range(i),
        unit_contains(u, i),
    ensures
        u == row_unit_of(i) || u == col_unit_of(i) || u == box_unit_of(i),
{
    let k = choose|k: int| 0 <= k < 9 && unit_cell(u, k) == i;
    if u < 9 {
        assert(i / 9 == u);
    } else if u < 18 {
        assert(i % 9 == u - 9);
    } else {
        let q = (u - 18) / 3;
        let s2 = (u - 18) % 3;
        assert(i == 27 * q + 3 * s2 + 9 * (k / 3) + k % 3);
        assert(i / 27 == q && (i % 9) / 3 == s2) by (nonlinear_arith)
            requires
                i == 27 * q + 3 * s2 + 9 * (k / 3) + k % 3,
                0 <= q < 3,
                0 <= s2 < 3,
                0 <= k < 9,
        ;
    }
}

pub proof fn lemma_undet_count_nonneg(s: Seq<Cell>, n: int)
    ensures
        undet_count(s, n) >= 0,
    decreases n,
{
    if n > 0 {
        lemma_undet_count_nonneg(s, n - 1);
    }
}

/// Fixing one undetermined cell lowers the count of undetermined cells
/// by exactly one.
pub proof fn lemma_undet_count_fix(s: Seq<Cell>, c: int, x: Cell, n: int)
    requires
        0 <= c < s.len(),
        !is_fixed(s, c),
        x is Fixed,
        0 <= n <= s.len(),
    ensures
        undet_count(s.update(c, x), n) == undet_count(s, n) - (if c < n {
            1int
        } else {
            0int
        }),
    decreases n,
{
    if n > 0 {
        lemma_undet_count_fix(s, c, x, n - 1);
    }
}

/// A grid that only gains fixed cells has no more undetermined cells.
pub proof fn lemma_undet_count_le(a: Seq<Cell>, b: Seq<Cell>, n: int)
    requires
        a.len() == 81,
        b.len() == 81,
        fixed_preserved(a, b),
        0 <= n <= 81,
    ensures
        undet_count(b, n) <= undet_count(a, n),
    decreases n,
{
    if n > 0 {
        lemma_undet_count_le(a, b, n - 1);
        assert(is_fixed(a, n - 1) ==> is_fixed(b, n - 1));
    }
}

/// An undetermined cell makes the count of undetermined cells positive.
pub proof fn lemma_undet_count_pos(s: Seq<Cell>, c: int, n: int)
    requires
        0 <= c < n,
        !is_fixed(s, c),
    ensures
        undet_count(s, n) >= 1,
    decreases n,
{
    lemma_undet_count_nonneg(s, n - 1);
    if c < n - 1 {
        lemma_undet_count_pos(s, c, n - 1);
    }
}

/// At most `n` of the first `n` cells are undetermined.
pub proof fn lemma_undet_count_le_n(s: Seq<Cell>, n: int)
    requires
        0 <= n,
    ensures
        undet_count(s, n) <= n,
    decreases n,
{
    if n > 0 {
        lemma_undet_count_le_n(s, n - 1);
    }
}

pub proof fn lemma_fixed_preserved_trans(a: Seq<Cell>, b: Seq<Cell>, c: Seq<Cell>)
    requires
        fixed_preserved(a, b),
        fixed_preserved(b, c),
    ensures
        fixed_preserved(a, c),
{
    assert forall|i: int| in_range(i) && #[trigger] is_fixed(a, i) implies is_fixed(c, i) && val(
        c,
        i,
    ) == val(a, i) by {
        assert(is_fixed(b, i) && val(b, i) == val(a, i));
    }
}

/// Availability only shrinks as a grid gains fixed cells.
pub proof fn lemma_avail_antitone(a: Seq<Cell>, b: Seq<Cell>, i: int, d: int)
    requires
        fixed_preserved(a, b),
        avail(b, i, d),
    ensures
        avail(a, i, d),
{
    assert forall|j: int| in_range(j) && peers(i, j) && is_fixed(a, j) implies val(a, j) != d by {
        assert(is_fixed(b, j) && val(b, j) == val(a, j));
    }
}

/// In a solution, the digit of any undetermined cell is available there.
pub proof fn lemma_solution_avail(g: Seq<int>, s: Seq<Cell>, c: int)
    requires
        solution_of(g, s),
        in_range(c),
        !is_fixed(s, c),
    ensures
        avail(s, c, g[c]),
        1 <= g[c] <= 9,
{
    assert forall|j: int| in_range(j) && peers(c, j) && is_fixed(s, j) implies val(s, j)
        != g[c] by {
        assert(g[j] == val(s, j));
    }
}

/// A cell out of digits admits no solution.
pub proof fn lemma_no_candidate_no_solution(s: Seq<Cell>, c: int)
    requires
        in_range(c),
        no_candidate(s, c),
    ensures
        forall|g: Seq<int>| !solution_of(g, s),
{
    assert forall|g: Seq<int>| !solution_of(g, s) by {
        if solution_of(g, s) {
            lemma_solution_avail(g, s, c);
        }
    }
}

/// Two fixed peers sharing a digit admit no solution.
pub proof fn lemma_inconsistent_no_solution(s: Seq<Cell>, i: int, j: int)
    requires
        in_range(i),
        in_range(j),
        i != j,
        peers(i, j),
        is_fixed(s, i),
        is_fixed(s, j),
        val(s, i) == val(s, j),
    ensures
        forall|g: Seq<int>| !solution_of(g, s),
{
    assert forall|g: Seq<int>| !solution_of(g, s) by {
        if solution_of(g, s) {
            assert(g[i] == val(s, i) && g[j] == val(s, j));
        }
    }
}

/// In a valid complete grid, no unit misses a digit.
pub proof fn lemma_unit_digit_exists(g: Seq<int>, u: int, d: int)
    requires
        valid_grid(g),
        0 <= u < 27,
        1 <= d <= 9,
    ensures
        exists|k: int| 0 <= k < 9 && g[unit_cell(u, k)] == d,
{
    let vals = Seq::new(9, |k: int| g[unit_cell(u, k)]);
    assert forall|k1: int, k2: int|
        0 <= k1 < vals.len() && 0 <= k2 < vals.len() && k1 != k2 implies vals[k1] != vals[k2] by {
        lemma_unit_cells_are_peers(u, k1, k2);
        lemma_unit_cells_are_peers(u, k2, k1);
    }
    assert(vals.no_duplicates());
    vals.unique_seq_to_set();
    vstd::set_lib::lemma_int_range(1, 10);
    assert forall|x: int| vals.to_set().contains(x) implies vstd::set_lib::set_int_range(
        1,
        10,
    ).contains(x) by {
        let k = choose|k: int| 0 <= k < vals.len() && vals[k] == x;
        lemma_unit_cells_are_peers(u, k, k);
    }
    vstd::set_lib::lemma_len_subset(vals.to_set(), vstd::set_lib::set_int_range(1, 10));
    vstd::set_lib::lemma_subset_equality(vals.to_set(), vstd::set_lib::set_int_range(1, 10));
    assert(vstd::set_lib::set_int_range(1, 10).contains(d));
    assert(vals.to_set().contains(d));
    assert(vals.contains(d));
    let k = choose|k: int| 0 <= k < vals.len() && vals[k] == d;
    assert(g[unit_cell(u, k)] == d);
}

/// In a valid complete grid, no unit repeats a digit.
pub proof fn lemma_unit_digit_unique(g: Seq<int>, u: int, k1: int, k2: int)
    requires
        valid_grid(g),
        0 <= u < 27,
        0 <= k1 < 9,
        0 <= k2 < 9,
        g[unit_cell(u, k1)] == g[unit_cell(u, k2)],
    ensures
        k1 == k2,
{
    lemma_unit_cells_are_peers(u, k1, k2);
    lemma_unit_cells_are_peers(u, k2, k1);
}

/// Fixing an available digit in an undetermined cell keeps the grid
/// well-formed and consistent, never unfixes a cell, and introduces no
/// new solutions.
pub proof fn lemma_fix_cell(s: Seq<Cell>, c: int, d: int)
    requires
        wf(s),
        in_range(c),
        !is_fixed(s, c),
        1 <= d <= 9,
        avail(s, c, d),
    ensures
        wf(s.update(c, Cell::Fixed(d as u8))),
        consistent(s) ==> consistent(s.update(c, Cell::Fixed(d as u8))),
        fixed_preserved(s, s.update(c, Cell::Fixed(d as u8))),
        undet_count(s.update(c, Cell::Fixed(d as u8)), 81) == undet_count(s, 81) - 1,
        forall|g: Seq<int>|
            solution_of(g, s.update(c, Cell::Fixed(d as u8))) ==> solution_of(g, s),
{
    let s2 = s.update(c, Cell::Fixed(d as u8));
    assert forall|i: int, e: int|
        in_range(i) && !is_fixed(s2, i) && 1 <= e <= 9 && avail(s2, i, e) implies stored_cand(
        s2,
        i,
        e,
    ) by {
        assert(avail(s, i, e)) by {
            assert forall|j: int| in_range(j) && peers(i, j) && is_fixed(s, j) implies val(s, j)
                != e by {
                assert(is_fixed(s2, j) && val(s2, j) == val(s, j));
            }
        }
        assert(stored_cand(s, i, e));
    }
    if consistent(s) {
        assert forall|i: int, j: int|
            in_range(i) && in_range(j) && i != j && peers(i, j) && is_fixed(s2, i) && is_fixed(
                s2,
                j,
            ) implies val(s2, i) != val(s2, j) by {
            if i == c {
                assert(val(s, j) != d);
            } else if j == c {
                assert(val(s, i) != d);
            }
        }
    }
    lemma_undet_count_fix(s, c, Cell::Fixed(d as u8), 81);
}

/// A naked single is a forced move: every solution places that digit
/// in that cell.
pub proof fn lemma_naked_single_sound(s: Seq<Cell>, c: int, d: int)
    requires
        wf(s),
        in_range(c),
        naked_single(s, c, d),
    ensures
        forall|g: Seq<int>|
            solution_of(g, s) ==> solution_of(g, s.update(c, Cell::Fixed(d as u8))),
{
    let s2 = s.update(c, Cell::Fixed(d as u8));
    assert forall|g: Seq<int>| solution_of(g, s) implies solution_of(g, s2) by {
        lemma_solution_avail(g, s, c);
        assert(g[c] == d);
        assert forall|i: int| in_range(i) && is_fixed(s2, i) implies g[i] == val(s2, i) by {
            if i != c {
                assert(is_fixed(s, i) && val(s, i) == val(s2, i));
            }
        }
    }
}

/// A hidden single is a forced move: every solution places that digit
/// in that cell.
pub proof fn lemma_hidden_single_sound(s: Seq<Cell>, c: int, d: int)
    requires
        wf(s),
        in_range(c),
        hidden_single(s, c, d),
    ensures
        forall|g: Seq<int>|
            solution_of(g, s) ==> solution_of(g, s.update(c, Cell::Fixed(d as u8))),
{
    let s2 = s.update(c, Cell::Fixed(d as u8));
    let u = choose|u: int|
        0 <= u < 27 && unit_contains(u, c) && forall|k: int|
            0 <= k < 9 && unit_cell(u, k) != c && !is_fixed(s, unit_cell(u, k)) ==> !avail(
                s,
                unit_cell(u, k),
                d,
            );
    let kc = choose|k: int| 0 <= k < 9 && unit_cell(u, k) == c;
    assert forall|g: Seq<int>| solution_of(g, s) implies solution_of(g, s2) by {
        lemma_unit_digit_exists(g, u, d);
        let k = choose|k: int| 0 <= k < 9 && g[unit_cell(u, k)] == d;
        let j = unit_cell(u, k);
        if j != c {
            lemma_unit_cells_are_peers(u, k, kc);
            lemma_unit_cells_are_peers(u, kc, k);
            if is_fixed(s, j) {
                assert(val(s, j) == g[j]);
                assert(!avail(s, c, d));
            } else {
                lemma_solution_avail(g, s, j);
            }
        }
        assert(g[c] == d);
        assert forall|i: int| in_range(i) && is_fixed(s2, i) implies g[i] == val(s2, i) by {
            if i != c {
                assert(is_fixed(s, i) && val(s, i) == val(s2, i));
            }
        }
    }
}

/// Replacing the candidate snapshot of an undetermined cell (by one
/// still covering every available digit) changes nothing the solver's
/// contracts observe.
pub proof fn lemma_replace_undet(s: Seq<Cell>, c: int, cs: CellS)
    requires
        wf(s),
        in_range(c),
        !is_fixed(s, c),
        forall|k: int| 0 <= k < 9 && avail(s, c, k + 1) ==> cs.possible_values@[k],
    ensures
        wf(s.update(c, Cell::Normal(cs))),
        consistent(s) == consistent(s.update(c, Cell::Normal(cs))),
        fixed_preserved(s, s.update(c, Cell::Normal(cs))),
        fixed_preserved(s.update(c, Cell::Normal(cs)), s),
        forall|g: Seq<int>|
            solution_of(g, s.update(c, Cell::Normal(cs))) == solution_of(g, s),
        undet_count(s.update(c, Cell::Normal(cs)), 81) == undet_count(s, 81),
        forall|i: int, e: int| avail(s.update(c, Cell::Normal(cs)), i, e) == avail(s, i, e),
{
    let s2 = s.update(c, Cell::Normal(cs));
    assert forall|i: int, e: int| avail(s2, i, e) == avail(s, i, e) by {
        if avail(s, i, e) {
            assert forall|j: int| in_range(j) && peers(i, j) && is_fixed(s2, j) implies val(
                s2,
                j,
            ) != e by {
                assert(j != c && is_fixed(s, j) && val(s, j) == val(s2, j));
            }
        }
        if avail(s2, i, e) {
            assert forall|j: int| in_range(j) && peers(i, j) && is_fixed(s, j) implies val(s, j)
                != e by {
                assert(j != c && is_fixed(s2, j) && val(s2, j) == val(s, j));
            }
        }
    }
    assert forall|i: int, e: int|
        in_range(i) && !is_fixed(s2, i) && 1 <= e <= 9 && avail(s2, i, e) implies stored_cand(
        s2,
        i,
        e,
    ) by {
        assert(avail(s, i, e));
        if i != c {
            assert(stored_cand(s, i, e));
        }
    }
    assert forall|g: Seq<int>| solution_of(g, s2) == solution_of(g, s) by {
        if solution_of(g, s) {
            assert forall|i: int| in_range(i) && is_fixed(s2, i) implies g[i] == val(s2, i) by {
                assert(i != c && is_fixed(s, i) && val(s, i) == val(s2, i));
            }
        }
        if solution_of(g, s2) {
            assert forall|i: int| in_range(i) && is_fixed(s, i) implies g[i] == val(s, i) by {
                assert(i != c && is_fixed(s2, i) && val(s2, i) == val(s, i));
            }
        }
    }
    lemma_undet_count_le(s, s2, 81);
    lemma_undet_count_le(s2, s, 81);
}

} // verus!
