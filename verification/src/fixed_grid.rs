//! The known-valid grid as an `N x N` array, for guests whose grid has a size
//! fixed at compile time.
use vstd::prelude::*;

use crate::generate::{lemma_pattern_is_valid, lemma_row_major, pattern_grid, pattern_value};
use crate::sudoku::{array_cells, is_valid_sudoku};

verus! {

/// The shift of row `r` in the base pattern: `b*(r%b) + r/b`.
pub open spec fn row_shift(b: int, r: int) -> int {
    b * (r % b) + r / b
}

/// The value written at `(r, c)`: `(B*(r%B) + r/B + c) mod N + 1`, cast to `u32`.
pub open spec fn cell_value(n: int, b: int, r: int, c: int) -> u32 {
    (((row_shift(b, r) + c) % n) + 1) as u32
}

/// The base pattern `value(r, c) = (B*(r%B) + r/B + c) mod N + 1` as an array.
/// When `B * B == N` it is a valid sudoku with boxes of side `B`.
pub fn valid_grid<const N: usize, const B: usize>() -> (grid: [[u32; N]; N])
    requires
        N == 0 || B > 0,
        forall|r: int| 0 <= r < N ==> #[trigger] row_shift(B as int, r) + N - 1 <= usize::MAX,
    ensures
        forall|r: int, c: int|
            0 <= r < N && 0 <= c < N ==> #[trigger] grid@[r]@[c] == cell_value(N as int, B as int, r, c),
        B * B == N && N <= u32::MAX ==> array_cells(grid) == pattern_grid(B as nat),
        B * B == N && N <= u32::MAX ==> is_valid_sudoku(array_cells(grid), N as nat, B as nat),
{
    let mut grid = [[0u32; N]; N];
    for r in 0..N
        invariant
            N == 0 || B > 0,
            forall|r: int| 0 <= r < N ==> #[trigger] row_shift(B as int, r) + N - 1 <= usize::MAX,
            forall|i: int, c: int|
                0 <= i < r && 0 <= c < N ==> #[trigger] grid@[i]@[c] == cell_value(N as int, B as int, i, c),
    {
        for c in 0..N
            invariant
                B > 0,
                0 <= r < N,
                row_shift(B as int, r as int) + N - 1 <= usize::MAX,
                forall|i: int, k: int|
                    0 <= i < r && 0 <= k < N ==> #[trigger] grid@[i]@[k] == cell_value(N as int, B as int, i, k),
                forall|k: int| 0 <= k < c ==> #[trigger] grid@[r as int]@[k] == cell_value(N as int, B as int, r as int, k),
        {
            assert(0 <= B * (r % B)) by (nonlinear_arith)
                requires
                    B > 0,
            ;
            grid[r][c] = ((B * (r % B) + r / B + c) % N + 1) as u32;
        }
    }
    proof {
        if B * B == N && N <= u32::MAX {
            let n = N as int;
            let b = B as int;
            if N > 0 {
                assert forall|i: int| 0 <= i < n * n implies #[trigger] array_cells(grid)[i] == pattern_grid(B as nat)[i] by {
                    assert(0 <= i / n < n && 0 <= i % n < n) by (nonlinear_arith)
                        requires
                            0 <= i < n * n,
                            n > 0,
                    ;
                    assert(pattern_value(B as nat, i / n, i % n) == cell_value(n, b, i / n, i % n));
                }
            }
            assert(array_cells(grid) =~= pattern_grid(B as nat));
            if B > 0 {
                lemma_pattern_is_valid(B as nat);
            } else {
                assert(is_valid_sudoku(array_cells(grid), 0, 0));
            }
            assert(is_valid_sudoku(array_cells(grid), N as nat, B as nat));
        }
    }
    grid
}

} // verus!
