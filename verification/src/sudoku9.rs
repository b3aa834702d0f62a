//! The fixed 9 x 9 sudoku claim: every row, column and 3 x 3 box of the grid
//! holds each of `1..=9` exactly once. The check walks the 27 groups in order
//! (rows, columns, boxes) and reports the first fault it meets.
use vstd::prelude::*;

use crate::sudoku::{array_cells, group_cells, is_permutation_of_range, is_sudoku, is_valid_sudoku};

verus! {

/// What is wrong with the first bad cell of a group.
#[derive(Debug, Clone, Copy, PartialEq, Eq)]
pub enum CellFault {
    /// The value is not in `1..=n`.
    OutOfRange,
    /// The value already occurred earlier in the group.
    Duplicate,
}

/// Why a 9 x 9 grid is refused.
#[derive(Debug, Clone, Copy, PartialEq, Eq)]
pub enum SudokuFault {
    /// The claimed size is not 9.
    WrongSize,
    /// A cell holds a value outside `1..=9`.
    OutOfRange,
    /// A row holds a value twice.
    DuplicateInRow,
    /// A column holds a value twice.
    DuplicateInColumn,
    /// A box holds a value twice.
    DuplicateInBox,
}

/// The fault of the first cell, read left to right, that is out of `1..=n`
/// or repeats an earlier cell; `None` when there is no such cell.
pub open spec fn first_fault(cells: Seq<u32>, n: nat) -> Option<CellFault>
    decreases cells.len(),
{
    if cells.len() == 0 {
        None
    } else {
        let prefix = cells.drop_last();
        match first_fault(prefix, n) {
            Some(f) => Some(f),
            None => {
                let v = cells.last();
                if v < 1 || v > n {
                    Some(CellFault::OutOfRange)
                } else if prefix.contains(v) {
                    Some(CellFault::Duplicate)
                } else {
                    None
                }
            },
        }
    }
}

/// The first of groups `0..k` that has a fault, with that fault.
pub open spec fn first_faulty_group(grid: Seq<u32>, k: nat) -> Option<(int, CellFault)>
    decreases k,
{
    if k == 0 {
        None
    } else {
        match first_faulty_group(grid, (k - 1) as nat) {
            Some(found) => Some(found),
            None => match first_fault(group_cells(grid, 9, 3, k - 1), 9) {
                Some(f) => Some((k - 1, f)),
                None => None,
            },
        }
    }
}

/// The answer of the 9 x 9 check: the size must be 9, then the first faulty
/// group decides the fault, named after the kind of group for a duplicate.
pub open spec fn sudoku_verdict(n: u32, grid: [[u32; 9]; 9]) -> Result<(), SudokuFault> {
    if n != 9 {
        Err(SudokuFault::WrongSize)
    } else {
        match first_faulty_group(array_cells(grid), 27) {
            None => Ok(()),
            Some((_, CellFault::OutOfRange)) => Err(SudokuFault::OutOfRange),
            Some((g, CellFault::Duplicate)) => Err(
                if g < 9 {
                    SudokuFault::DuplicateInRow
                } else if g < 18 {
                    SudokuFault::DuplicateInColumn
                } else {
                    SudokuFault::DuplicateInBox
                },
            ),
        }
    }
}

/// A sequence has no fault iff all its values are in `1..=n` and no two are equal.
pub proof fn lemma_first_fault_none(cells: Seq<u32>, n: nat)
    ensures
        first_fault(cells, n) is None <==> {
            &&& forall|i: int| 0 <= i < cells.len() ==> 1 <= #[trigger] cells[i] <= n
            &&& forall|i: int, j: int| 0 <= i < j < cells.len() ==> cells[i] != cells[j]
        },
    decreases cells.len(),
{
    if cells.len() > 0 {
        let prefix = cells.drop_last();
        lemma_first_fault_none(prefix, n);
        if first_fault(prefix, n) is None && first_fault(cells, n) is Some {
            let v = cells.last();
            if !(v < 1 || v > n) {
                let i = choose|i: int| 0 <= i < prefix.len() && prefix[i] == v;
                assert(cells[i] == cells[cells.len() - 1]);
            }
        }
        if first_fault(cells, n) is None {
            assert forall|i: int, j: int| 0 <= i < j < cells.len() implies cells[i] != cells[j] by {
                if j == cells.len() - 1 {
                    assert(prefix[i] == cells[i]);
                    assert(!prefix.contains(cells[j]));
                } else {
                    assert(prefix[i] == cells[i] && prefix[j] == cells[j]);
                }
            }
            assert forall|i: int| 0 <= i < cells.len() implies 1 <= #[trigger] cells[i] <= n by {
                if i < cells.len() - 1 {
                    assert(prefix[i] == cells[i]);
                }
            }
        }
    }
}

/// A fault found in a prefix is the fault of the whole sequence.
pub proof fn lemma_first_fault_prefix(cells: Seq<u32>, n: nat, k: int)
    requires
        0 <= k <= cells.len(),
        first_fault(cells.take(k), n) is Some,
    ensures
        first_fault(cells, n) == first_fault(cells.take(k), n),
    decreases cells.len() - k,
{
    if k < cells.len() {
        let next = cells.take(k + 1);
        assert(next.drop_last() =~= cells.take(k));
        lemma_first_fault_prefix(cells, n, k + 1);
    } else {
        assert(cells.take(k) =~= cells);
    }
}

/// Cell `(row, column)` of the grid is entry `9 * row + column` of its cells.
proof fn lemma_flatten_entry(grid: [[u32; 9]; 9], row: int, column: int)
    requires
        0 <= row < 9,
        0 <= column < 9,
    ensures
        array_cells(grid)[9 * row + column] == grid@[row]@[column],
{
    let i = 9 * row + column;
    assert(i / 9 == row && i % 9 == column) by (nonlinear_arith)
        requires
            i == 9 * row + column,
            0 <= column < 9,
    ;
}

/// The first fault of group `g` (rows `0..9`, columns `9..18`, boxes
/// `18..27`), walking its nine cells with a `seen` array.
fn group_fault(grid: &[[u32; 9]; 9], g: usize) -> (r: Option<CellFault>)
    requires
        g < 27,
    ensures
        r == first_fault(group_cells(array_cells(*grid), 9, 3, g as int), 9),
{
    let ghost cells = group_cells(array_cells(*grid), 9, 3, g as int);
    let mut seen = [false; 9];
    let mut p: usize = 0;
    assert(cells.take(0) =~= Seq::<u32>::empty());
    while p < 9
        invariant
            g < 27,
            p <= 9,
            cells == group_cells(array_cells(*grid), 9, 3, g as int),
            first_fault(cells.take(p as int), 9) is None,
            forall|s: int| 0 <= s < 9 ==> (#[trigger] seen@[s] <==> cells.take(p as int).contains((s + 1) as u32)),
        decreases 9 - p,
    {
        let row: usize;
        let column: usize;
        if g < 9 {
            row = g;
            column = p;
        } else if g < 18 {
            row = p;
            column = g - 9;
        } else {
            row = 3 * ((g - 18) / 3) + p / 3;
            column = 3 * ((g - 18) % 3) + p % 3;
        }
        proof {
            lemma_flatten_entry(*grid, row as int, column as int);
        }
        let value = grid[row][column];
        assert(value == cells[p as int]);
        let ghost next = cells.take(p + 1);
        assert(next.drop_last() =~= cells.take(p as int));
        assert(next.last() == value);
        if value < 1 || value > 9 {
            proof {
                lemma_first_fault_prefix(cells, 9, p + 1);
            }
            return Some(CellFault::OutOfRange);
        }
        let slot = value as usize - 1;
        if seen[slot] {
            proof {
                lemma_first_fault_prefix(cells, 9, p + 1);
            }
            return Some(CellFault::Duplicate);
        }
        seen[slot] = true;
        p += 1;
        assert forall|s: int| 0 <= s < 9 implies (#[trigger] seen@[s] <==> cells.take(p as int).contains((s + 1) as u32)) by {
            let v = (s + 1) as u32;
            if next.contains(v) && v != value {
                let i = choose|i: int| 0 <= i < next.len() && next[i] == v;
                assert(cells.take(p - 1)[i] == v);
            }
            if v == value {
                assert(next[p - 1] == value);
            }
        }
    }
    assert(cells.take(9) =~= cells);
    None
}

/// Once a faulty group is found among the first `k`, later groups do not change it.
proof fn lemma_first_faulty_group_stays(grid: Seq<u32>, k: nat, m: nat)
    requires
        k <= m,
        first_faulty_group(grid, k) is Some,
    ensures
        first_faulty_group(grid, m) == first_faulty_group(grid, k),
    decreases m - k,
{
    if k < m {
        lemma_first_faulty_group_stays(grid, k, (m - 1) as nat);
    }
}

/// No group among the first `k` has a fault iff each of them is a
/// permutation of `1..=9`.
proof fn lemma_first_faulty_group_none(grid: Seq<u32>, k: nat)
    ensures
        first_faulty_group(grid, k) is None <==> forall|g: int|
            0 <= g < k ==> is_permutation_of_range(#[trigger] group_cells(grid, 9, 3, g), 9),
    decreases k,
{
    if k > 0 {
        lemma_first_faulty_group_none(grid, (k - 1) as nat);
        lemma_first_fault_none(group_cells(grid, 9, 3, k - 1), 9);
        if first_faulty_group(grid, (k - 1) as nat) is None {
            assert forall|g: int| 0 <= g < k implies #[trigger] group_cells(grid, 9, 3, g).len() == 9 by {}
        }
    }
}

/// The 9 x 9 verdict accepts exactly the valid sudoku grids of size 9.
pub proof fn lemma_verdict_accepts_valid_grids(n: u32, grid: [[u32; 9]; 9])
    ensures
        sudoku_verdict(n, grid) is Ok <==> (n == 9 && is_valid_sudoku(array_cells(grid), 9, 3)),
{
    lemma_first_faulty_group_none(array_cells(grid), 27);
    assert(array_cells(grid).len() == 9 * 9);
}

/// The 9 x 9 claim is the general claim for `n = 9`: a grid passes the fixed
/// 9 x 9 check exactly when, read row by row, it is a sudoku of side 9.
pub proof fn lemma_verdict_matches_general_check(grid: [[u32; 9]; 9])
    ensures
        sudoku_verdict(9, grid) is Ok <==> is_sudoku(array_cells(grid), 9),
{
    lemma_verdict_accepts_valid_grids(9, grid);
    if is_sudoku(array_cells(grid), 9) {
        let b = choose|b: nat| #[trigger] is_valid_sudoku(array_cells(grid), 9, b);
        if b < 3 {
            assert(b * b < 9) by (nonlinear_arith)
                requires
                    b < 3,
            ;
        } else if b > 3 {
            assert(b * b > 9) by (nonlinear_arith)
                requires
                    b > 3,
            ;
        }
    }
}

/// Row `r` of the grid.
pub open spec fn row9(grid: [[u32; 9]; 9], r: int) -> Seq<u32> {
    Seq::new(9, |c: int| grid@[r]@[c])
}

/// Column `c` of the grid.
pub open spec fn column9(grid: [[u32; 9]; 9], c: int) -> Seq<u32> {
    Seq::new(9, |r: int| grid@[r]@[c])
}

/// Box `k` of the grid: box-row `k / 3`, box-column `k % 3`, read row by row.
pub open spec fn box9(grid: [[u32; 9]; 9], k: int) -> Seq<u32> {
    Seq::new(9, |p: int| grid@[3 * (k / 3) + p / 3]@[3 * (k % 3) + p % 3])
}

/// Two positions of `cells` hold the same value.
pub open spec fn has_repeat(cells: Seq<u32>) -> bool {
    exists|i: int, j: int| 0 <= i < j < cells.len() && cells[i] == cells[j]
}

/// Every row of the grid is a permutation of `1..=9`.
pub open spec fn rows_are_permutations(grid: [[u32; 9]; 9]) -> bool {
    forall|r: int| 0 <= r < 9 ==> is_permutation_of_range(#[trigger] row9(grid, r), 9)
}

/// Every column of the grid is a permutation of `1..=9`.
pub open spec fn columns_are_permutations(grid: [[u32; 9]; 9]) -> bool {
    forall|c: int| 0 <= c < 9 ==> is_permutation_of_range(#[trigger] column9(grid, c), 9)
}

/// Every box of the grid is a permutation of `1..=9`.
pub open spec fn boxes_are_permutations(grid: [[u32; 9]; 9]) -> bool {
    forall|k: int| 0 <= k < 9 ==> is_permutation_of_range(#[trigger] box9(grid, k), 9)
}

/// Some cell of the grid holds a value outside `1..=9`.
pub open spec fn has_cell_out_of_range(grid: [[u32; 9]; 9]) -> bool {
    exists|r: int, c: int| 0 <= r < 9 && 0 <= c < 9 && !(1 <= #[trigger] grid@[r]@[c] <= 9)
}

/// Group `g` of the row-major cells is row `g`, column `g - 9` or box `g - 18`
/// of the array.
proof fn lemma_group_of_array(grid: [[u32; 9]; 9], g: int)
    requires
        0 <= g < 27,
    ensures
        g < 9 ==> group_cells(array_cells(grid), 9, 3, g) == row9(grid, g),
        9 <= g < 18 ==> group_cells(array_cells(grid), 9, 3, g) == column9(grid, g - 9),
        18 <= g ==> group_cells(array_cells(grid), 9, 3, g) == box9(grid, g - 18),
{
    let cells = group_cells(array_cells(grid), 9, 3, g);
    if g < 9 {
        assert forall|j: int| 0 <= j < 9 implies cells[j] == row9(grid, g)[j] by {
            lemma_flatten_entry(grid, g, j);
        }
        assert(cells =~= row9(grid, g));
    } else if g < 18 {
        assert forall|j: int| 0 <= j < 9 implies cells[j] == column9(grid, g - 9)[j] by {
            lemma_flatten_entry(grid, j, g - 9);
        }
        assert(cells =~= column9(grid, g - 9));
    } else {
        let k = g - 18;
        assert forall|j: int| 0 <= j < 9 implies cells[j] == box9(grid, k)[j] by {
            lemma_flatten_entry(grid, 3 * (k / 3) + j / 3, 3 * (k % 3) + j % 3);
        }
        assert(cells =~= box9(grid, k));
    }
}

/// A duplicate fault names a repeated value; an out-of-range fault names a
/// value outside `1..=n`.
proof fn lemma_first_fault_some(cells: Seq<u32>, n: nat)
    ensures
        first_fault(cells, n) == Some(CellFault::Duplicate) ==> has_repeat(cells),
        first_fault(cells, n) == Some(CellFault::OutOfRange) ==> exists|i: int|
            0 <= i < cells.len() && !(1 <= #[trigger] cells[i] <= n),
    decreases cells.len(),
{
    if cells.len() > 0 {
        let prefix = cells.drop_last();
        lemma_first_fault_some(prefix, n);
        if first_fault(prefix, n) is Some {
            if first_fault(prefix, n) == Some(CellFault::Duplicate) {
                let (i, j) = choose|i: int, j: int| 0 <= i < j < prefix.len() && prefix[i] == prefix[j];
                assert(cells[i] == cells[j]);
            } else {
                let i = choose|i: int| 0 <= i < prefix.len() && !(1 <= #[trigger] prefix[i] <= n);
                assert(cells[i] == prefix[i]);
            }
        } else {
            let v = cells.last();
            if !(v < 1 || v > n) && prefix.contains(v) {
                let i = choose|i: int| 0 <= i < prefix.len() && prefix[i] == v;
                assert(cells[i] == cells[cells.len() - 1]);
            }
        }
    }
}

/// The first faulty group of `0..k`, when there is one, is a faulty group, and
/// every group before it is a permutation of `1..=9`.
proof fn lemma_first_faulty_group_some(grid: Seq<u32>, k: nat)
    ensures
        first_faulty_group(grid, k) matches Some((g, f)) ==> {
            &&& 0 <= g < k
            &&& first_fault(group_cells(grid, 9, 3, g), 9) == Some(f)
            &&& first_faulty_group(grid, g as nat) is None
        },
    decreases k,
{
    if k > 0 {
        lemma_first_faulty_group_some(grid, (k - 1) as nat);
    }
}

/// Each value of a box lies in some row.
proof fn lemma_box_value_in_row(grid: [[u32; 9]; 9], k: int, p: int)
    requires
        0 <= k < 9,
        0 <= p < 9,
    ensures
        ({
            let r = 3 * (k / 3) + p / 3;
            let c = 3 * (k % 3) + p % 3;
            &&& 0 <= r < 9
            &&& 0 <= c < 9
            &&& box9(grid, k)[p] == row9(grid, r)[c]
        }),
{
}

/// What the fixed 9 x 9 check answers, in terms of the grid itself:
/// a size other than 9 is refused first; a grid whose rows, columns and boxes
/// are all permutations of `1..=9` is accepted; otherwise the kind of the first
/// faulty group (rows, then columns, then boxes) names the fault, and each
/// fault names a real defect of the grid.
pub proof fn lemma_verdict_names_the_fault(n: u32, grid: [[u32; 9]; 9])
    ensures
        (sudoku_verdict(n, grid) == Err::<(), SudokuFault>(SudokuFault::WrongSize)) <==> n != 9,
        sudoku_verdict(n, grid) is Ok <==> (n == 9 && rows_are_permutations(grid)
            && columns_are_permutations(grid) && boxes_are_permutations(grid)),
        sudoku_verdict(n, grid) == Err::<(), SudokuFault>(SudokuFault::OutOfRange) ==> has_cell_out_of_range(grid),
        sudoku_verdict(n, grid) == Err::<(), SudokuFault>(SudokuFault::DuplicateInRow) ==> exists|r: int|
            0 <= r < 9 && has_repeat(#[trigger] row9(grid, r)),
        sudoku_verdict(n, grid) == Err::<(), SudokuFault>(SudokuFault::DuplicateInColumn) ==> {
            &&& rows_are_permutations(grid)
            &&& exists|c: int| 0 <= c < 9 && has_repeat(#[trigger] column9(grid, c))
        },
        sudoku_verdict(n, grid) == Err::<(), SudokuFault>(SudokuFault::DuplicateInBox) ==> {
            &&& rows_are_permutations(grid)
            &&& columns_are_permutations(grid)
            &&& exists|k: int| 0 <= k < 9 && has_repeat(#[trigger] box9(grid, k))
        },
        n == 9 && !rows_are_permutations(grid) ==> (sudoku_verdict(n, grid) == Err::<(), SudokuFault>(
            SudokuFault::OutOfRange) || sudoku_verdict(n, grid) == Err::<(), SudokuFault>(
            SudokuFault::DuplicateInRow)),
        n == 9 && rows_are_permutations(grid) && !columns_are_permutations(grid) ==> sudoku_verdict(n, grid)
            == Err::<(), SudokuFault>(SudokuFault::DuplicateInColumn),
        n == 9 && rows_are_permutations(grid) && columns_are_permutations(grid)
            && !boxes_are_permutations(grid) ==> sudoku_verdict(n, grid) == Err::<(), SudokuFault>(
            SudokuFault::DuplicateInBox),
{
    let cells = array_cells(grid);
    assert forall|g: int| 0 <= g < 27 implies {
        &&& g < 9 ==> #[trigger] group_cells(cells, 9, 3, g) == row9(grid, g)
        &&& 9 <= g < 18 ==> group_cells(cells, 9, 3, g) == column9(grid, g - 9)
        &&& 18 <= g ==> group_cells(cells, 9, 3, g) == box9(grid, g - 18)
    } by {
        lemma_group_of_array(grid, g);
    }
    lemma_first_faulty_group_none(cells, 27);
    lemma_first_faulty_group_some(cells, 27);
    // Validity is the three kinds of group together.
    assert((forall|g: int| 0 <= g < 27 ==> is_permutation_of_range(#[trigger] group_cells(cells, 9, 3, g), 9))
        <==> (rows_are_permutations(grid) && columns_are_permutations(grid) && boxes_are_permutations(grid))) by {
        if rows_are_permutations(grid) && columns_are_permutations(grid) && boxes_are_permutations(grid) {
            assert forall|g: int| 0 <= g < 27 implies is_permutation_of_range(#[trigger] group_cells(cells, 9, 3, g), 9) by {
                if g < 9 {
                    assert(is_permutation_of_range(row9(grid, g), 9));
                } else if g < 18 {
                    assert(is_permutation_of_range(column9(grid, g - 9), 9));
                } else {
                    assert(is_permutation_of_range(box9(grid, g - 18), 9));
                }
            }
        }
        if forall|g: int| 0 <= g < 27 ==> is_permutation_of_range(#[trigger] group_cells(cells, 9, 3, g), 9) {
            assert forall|r: int| 0 <= r < 9 implies is_permutation_of_range(#[trigger] row9(grid, r), 9) by {
                assert(is_permutation_of_range(group_cells(cells, 9, 3, r), 9));
            }
            assert forall|c: int| 0 <= c < 9 implies is_permutation_of_range(#[trigger] column9(grid, c), 9) by {
                assert(is_permutation_of_range(group_cells(cells, 9, 3, c + 9), 9));
            }
            assert forall|k: int| 0 <= k < 9 implies is_permutation_of_range(#[trigger] box9(grid, k), 9) by {
                assert(is_permutation_of_range(group_cells(cells, 9, 3, k + 18), 9));
            }
        }
    }
    if n == 9 {
        if let Some((g, f)) = first_faulty_group(cells, 27) {
            let group = group_cells(cells, 9, 3, g);
            lemma_first_fault_some(group, 9);
            lemma_first_faulty_group_none(cells, g as nat);
            // Groups before `g` are permutations.
            if g >= 9 {
                assert forall|r: int| 0 <= r < 9 implies is_permutation_of_range(#[trigger] row9(grid, r), 9) by {
                    assert(is_permutation_of_range(group_cells(cells, 9, 3, r), 9));
                }
            }
            if g >= 18 {
                assert forall|c: int| 0 <= c < 9 implies is_permutation_of_range(#[trigger] column9(grid, c), 9) by {
                    assert(is_permutation_of_range(group_cells(cells, 9, 3, c + 9), 9));
                }
            }
            if f == CellFault::OutOfRange {
                let i = choose|i: int| 0 <= i < group.len() && !(1 <= #[trigger] group[i] <= 9);
                if g < 9 {
                    assert(!(1 <= grid@[g]@[i] <= 9));
                } else if g < 18 {
                    assert(!(1 <= grid@[i]@[g - 9] <= 9));
                } else {
                    lemma_box_value_in_row(grid, g - 18, i);
                    let r = 3 * ((g - 18) / 3) + i / 3;
                    let c = 3 * ((g - 18) % 3) + i % 3;
                    assert(!(1 <= grid@[r]@[c] <= 9));
                }
                // With every row a permutation, no cell is out of range, so the
                // fault lies in a row.
                if g >= 9 {
                    if g < 18 {
                        assert(row9(grid, i)[g - 9] == grid@[i]@[g - 9]);
                        assert(is_permutation_of_range(row9(grid, i), 9));
                    } else {
                        lemma_box_value_in_row(grid, g - 18, i);
                        let r = 3 * ((g - 18) / 3) + i / 3;
                        assert(is_permutation_of_range(row9(grid, r), 9));
                    }
                    assert(false);
                }
            } else {
                if g < 9 {
                    assert(has_repeat(row9(grid, g)));
                } else if g < 18 {
                    assert(has_repeat(column9(grid, g - 9)));
                } else {
                    assert(has_repeat(box9(grid, g - 18)));
                }
            }
            // A later kind of group cannot come first while an earlier one fails.
            if !rows_are_permutations(grid) {
                let r = choose|r: int| 0 <= r < 9 && !is_permutation_of_range(#[trigger] row9(grid, r), 9);
                assert(!is_permutation_of_range(group_cells(cells, 9, 3, r), 9));
                assert(g < 9);
            }
            if !columns_are_permutations(grid) {
                let c = choose|c: int| 0 <= c < 9 && !is_permutation_of_range(#[trigger] column9(grid, c), 9);
                assert(!is_permutation_of_range(group_cells(cells, 9, 3, c + 9), 9));
                assert(g < 18);
            }
        }
    }
}

/// The checks of the 9 x 9 guest, in its order: the size must be 9, then the
/// rows, the columns and the boxes are walked cell by cell, and the first cell
/// out of range or seen before in its group decides the fault.
pub fn check_sudoku(n: u32, grid: &[[u32; 9]; 9]) -> (r: Result<(), SudokuFault>)
    ensures
        r == sudoku_verdict(n, *grid),
        (r == Err::<(), SudokuFault>(SudokuFault::WrongSize)) <==> n != 9,
        r is Ok <==> (n == 9 && rows_are_permutations(*grid) && columns_are_permutations(*grid)
            && boxes_are_permutations(*grid)),
        r == Err::<(), SudokuFault>(SudokuFault::OutOfRange) ==> has_cell_out_of_range(*grid),
        r == Err::<(), SudokuFault>(SudokuFault::DuplicateInRow) ==> exists|i: int|
            0 <= i < 9 && has_repeat(#[trigger] row9(*grid, i)),
        r == Err::<(), SudokuFault>(SudokuFault::DuplicateInColumn) ==> {
            &&& rows_are_permutations(*grid)
            &&& exists|c: int| 0 <= c < 9 && has_repeat(#[trigger] column9(*grid, c))
        },
        r == Err::<(), SudokuFault>(SudokuFault::DuplicateInBox) ==> {
            &&& rows_are_permutations(*grid)
            &&& columns_are_permutations(*grid)
            &&& exists|k: int| 0 <= k < 9 && has_repeat(#[trigger] box9(*grid, k))
        },
        n == 9 && !rows_are_permutations(*grid) ==> (r == Err::<(), SudokuFault>(SudokuFault::OutOfRange)
            || r == Err::<(), SudokuFault>(SudokuFault::DuplicateInRow)),
        n == 9 && rows_are_permutations(*grid) && !columns_are_permutations(*grid) ==> r == Err::<
            (),
            SudokuFault,
        >(SudokuFault::DuplicateInColumn),
        n == 9 && rows_are_permutations(*grid) && columns_are_permutations(*grid)
            && !boxes_are_permutations(*grid) ==> r == Err::<(), SudokuFault>(SudokuFault::DuplicateInBox),
{
    proof {
        lemma_verdict_names_the_fault(n, *grid);
    }
    if n != 9 {
        return Err(SudokuFault::WrongSize);
    }
    let mut g: usize = 0;
    while g < 27
        invariant
            g <= 27,
            n == 9,
            first_faulty_group(array_cells(*grid), g as nat) is None,
        decreases 27 - g,
    {
        match group_fault(grid, g) {
            Some(fault) => {
                proof {
                    lemma_first_faulty_group_stays(array_cells(*grid), (g + 1) as nat, 27);
                    lemma_verdict_names_the_fault(n, *grid);
                }
                return match fault {
                    CellFault::OutOfRange => Err(SudokuFault::OutOfRange),
                    CellFault::Duplicate => Err(
                        if g < 9 {
                            SudokuFault::DuplicateInRow
                        } else if g < 18 {
                            SudokuFault::DuplicateInColumn
                        } else {
                            SudokuFault::DuplicateInBox
                        },
                    ),
                };
            },
            None => {},
        }
        g += 1;
    }
    Ok(())
}

/// The public 9 x 9 sudoku claim of the Jolt guest: `true` exactly when `n`
/// is 9 and every row, column and 3 x 3 box of the grid is a permutation of
/// `1..=9`. Where the claim fails (the guest panics there, so no proof of it
/// exists), the answer is `false`.
pub fn sudoku(n: u32, grid: [[u32; 9]; 9]) -> (r: bool)
    ensures
        r == (n == 9 && is_valid_sudoku(array_cells(grid), 9, 3)),
        r == (n == 9 && rows_are_permutations(grid) && columns_are_permutations(grid)
            && boxes_are_permutations(grid)),
{
    proof {
        lemma_verdict_accepts_valid_grids(n, grid);
        lemma_verdict_names_the_fault(n, grid);
    }
    match check_sudoku(n, &grid) {
        Ok(()) => true,
        Err(_) => false,
    }
}

} // verus!
