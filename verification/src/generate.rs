//! The known-valid grid that the hosts hand to the sudoku guests.
//!
//! For `n = b * b`, the base pattern `value(r, c) = (b*(r%b) + r/b + c) mod n + 1`
//! is a valid sudoku for every box side `b`, so one formula serves all sizes.
use vstd::arithmetic::div_mod::*;
use vstd::prelude::*;

use crate::sudoku::{
    group_cells,
    group_source,
    is_perfect_square,
    is_permutation_of_range,
    is_sudoku,
    is_valid_sudoku,
    lemma_group_source,
    lemma_square_root_unique,
};

verus! {

/// The value of cell `(r, c)` in the base pattern of box side `b`, `n = b * b`.
pub open spec fn pattern_value(b: nat, r: int, c: int) -> u32 {
    let b = b as int;
    (((b * (r % b) + r / b + c) % (b * b)) + 1) as u32
}

/// The base pattern of box side `b`, row-major, `n * n` cells for `n = b * b`.
pub open spec fn pattern_grid(b: nat) -> Seq<u32> {
    let n = (b * b) as int;
    Seq::new((n * n) as nat, |i: int| pattern_value(b, i / n, i % n))
}

/// Entry `n * r + c` of a row-major grid of side `n` is cell `(r, c)`.
pub proof fn lemma_row_major(n: int, r: int, c: int)
    requires
        n > 0,
        r >= 0,
        0 <= c < n,
    ensures
        (n * r + c) / n == r,
        (n * r + c) % n == c,
{
    assert(n * r + c == r * n + c) by (nonlinear_arith);
    lemma_fundamental_div_mod_converse(n * r + c, n, r, c);
}

/// Shifting two different residues by the same amount keeps them different.
proof fn lemma_shift_distinct(k: int, x: int, y: int, n: int)
    requires
        n > 0,
        0 <= x < n,
        0 <= y < n,
        x != y,
    ensures
        (k + x) % n != (k + y) % n,
{
    lemma_fundamental_div_mod(k + x, n);
    lemma_fundamental_div_mod(k + y, n);
    let q1 = (k + x) / n;
    let q2 = (k + y) / n;
    if (k + x) % n == (k + y) % n {
        assert(x - y == n * (q1 - q2)) by (nonlinear_arith)
            requires
                k + x == n * q1 + (k + x) % n,
                k + y == n * q2 + (k + y) % n,
                (k + x) % n == (k + y) % n,
        ;
        assert(false) by (nonlinear_arith)
            requires
                x - y == n * (q1 - q2),
                -n < x - y < n,
                x != y,
                n > 0,
        ;
    }
}

/// The map `j -> b*(j%b) + j/b` sends `0..b*b` into itself without collisions.
proof fn lemma_transpose(b: int, i: int, j: int)
    requires
        b > 0,
        0 <= i < b * b,
        0 <= j < b * b,
    ensures
        0 <= b * (j % b) + j / b < b * b,
        i != j ==> b * (i % b) + i / b != b * (j % b) + j / b,
{
    lemma_fundamental_div_mod(i, b);
    lemma_fundamental_div_mod(j, b);
    assert(0 <= i / b < b && 0 <= j / b < b) by (nonlinear_arith)
        requires
            i == b * (i / b) + i % b,
            j == b * (j / b) + j % b,
            0 <= i % b < b,
            0 <= j % b < b,
            0 <= i < b * b,
            0 <= j < b * b,
    ;
    assert(0 <= b * (j % b) + j / b < b * b) by (nonlinear_arith)
        requires
            0 <= j % b < b,
            0 <= j / b < b,
    ;
    if i != j && b * (i % b) + i / b == b * (j % b) + j / b {
        let w = b * (i % b) + i / b;
        assert(w == (i % b) * b + i / b && w == (j % b) * b + j / b) by (nonlinear_arith)
            requires
                w == b * (i % b) + i / b,
                w == b * (j % b) + j / b,
        ;
        lemma_fundamental_div_mod_converse(w, b, i % b, i / b);
        lemma_fundamental_div_mod_converse(w, b, j % b, j / b);
    }
}

/// Within the base pattern, position `j` of group `g` holds
/// `(k + f(j)) mod n + 1` for a shift `k` of the group and a map `f` that is
/// `j` itself for rows and boxes and the transpose above for columns.
proof fn lemma_pattern_group_entry(b: nat, g: int, j: int)
    requires
        b > 0,
        (b * b) <= u32::MAX,
        0 <= g < 3 * (b * b),
        0 <= j < b * b,
    ensures
        ({
            let n = (b * b) as int;
            let bi = b as int;
            let v = group_cells(pattern_grid(b), b * b, b, g)[j] as int;
            &&& g < n ==> v == (bi * (g % bi) + g / bi + j) % n + 1
            &&& n <= g < 2 * n ==> v == ((g - n) + (bi * (j % bi) + j / bi)) % n + 1
            &&& 2 * n <= g ==> v == ((g - 2 * n) / bi + bi * ((g - 2 * n) % bi) + j) % n + 1
        }),
{
    let n = (b * b) as int;
    let bi = b as int;
    let src = group_source(b * b, b, g, j);
    lemma_group_source(b * b, b, g, j, 0, 0);
    assert(n > 0) by (nonlinear_arith)
        requires
            n == bi * bi,
            bi > 0,
    ;
    lemma_row_major(n, src.0, src.1);
    assert(n * src.0 + src.1 < n * n) by (nonlinear_arith)
        requires
            0 <= src.0 < n,
            0 <= src.1 < n,
    ;
    let v = group_cells(pattern_grid(b), b * b, b, g)[j];
    assert(v == pattern_value(b, src.0, src.1));
    let m = (bi * (src.0 % bi) + src.0 / bi + src.1) % n;
    assert(0 <= m < n);
    assert(v as int == m + 1);
    if 2 * n <= g {
        let k = g - 2 * n;
        lemma_box_cell(bi, k, j);
    }
}

/// Cell `j` of box `k` lies in row `r = b*(k/b) + j/b`, column
/// `c = b*(k%b) + j%b`, and `b*(r%b) + r/b + c == k/b + b*(k%b) + j`.
proof fn lemma_box_cell(b: int, k: int, j: int)
    requires
        b > 0,
        0 <= k < b * b,
        0 <= j < b * b,
    ensures
        ({
            let r = b * (k / b) + j / b;
            let c = b * (k % b) + j % b;
            b * (r % b) + r / b + c == k / b + b * (k % b) + j
        }),
{
    lemma_fundamental_div_mod(k, b);
    lemma_fundamental_div_mod(j, b);
    assert(0 <= j / b < b && 0 <= k / b < b) by (nonlinear_arith)
        requires
            k == b * (k / b) + k % b,
            j == b * (j / b) + j % b,
            0 <= k % b < b,
            0 <= j % b < b,
            0 <= k < b * b,
            0 <= j < b * b,
    ;
    let r = b * (k / b) + j / b;
    assert(r == (k / b) * b + j / b) by (nonlinear_arith)
        requires
            r == b * (k / b) + j / b,
    ;
    lemma_fundamental_div_mod_converse(r, b, k / b, j / b);
}

/// The base pattern of every box side is a valid sudoku.
pub proof fn lemma_pattern_is_valid(b: nat)
    requires
        b > 0,
        b * b <= u32::MAX,
    ensures
        is_valid_sudoku(pattern_grid(b), b * b, b),
{
    let n = (b * b) as int;
    let bi = b as int;
    assert(n > 0) by (nonlinear_arith)
        requires
            n == bi * bi,
            bi > 0,
    ;
    assert forall|g: int| 0 <= g < 3 * n implies is_permutation_of_range(
        #[trigger] group_cells(pattern_grid(b), b * b, b, g),
        b * b,
    ) by {
        let cells = group_cells(pattern_grid(b), b * b, b, g);
        assert forall|i: int| 0 <= i < n implies 1 <= #[trigger] cells[i] <= n by {
            lemma_pattern_group_entry(b, g, i);
        }
        assert forall|i: int, j: int| 0 <= i < j < n implies cells[i] != cells[j] by {
            lemma_pattern_group_entry(b, g, i);
            lemma_pattern_group_entry(b, g, j);
            if g < n {
                lemma_shift_distinct(bi * (g % bi) + g / bi, i, j, n);
            } else if g < 2 * n {
                lemma_transpose(bi, i, j);
                lemma_transpose(bi, j, i);
                lemma_shift_distinct(g - n, bi * (i % bi) + i / bi, bi * (j % bi) + j / bi, n);
            } else {
                lemma_shift_distinct((g - 2 * n) / bi + bi * ((g - 2 * n) % bi), i, j, n);
            }
        }
    }
}

/// A known-valid solved sudoku of size `n` (`n` a perfect square), row-major,
/// values `1..=n`: the base pattern of box side `b = sqrt(n)`.
pub fn valid_grid(n: usize) -> (grid: Vec<u32>)
    requires
        n >= 1,
        is_perfect_square(n as nat),
        n * n <= usize::MAX,
    ensures
        forall|b: nat| b * b == n ==> grid@ == pattern_grid(b),
        is_sudoku(grid@, n as nat),
{
    let ghost root = choose|r: nat| #[trigger] (r * r) == n;
    assert(n <= u32::MAX) by (nonlinear_arith)
        requires
            n * n <= usize::MAX,
            usize::MAX <= 0xffff_ffff_ffff_ffff,
            n >= 1,
    ;
    let mut b: usize = 1;
    proof {
        assert(1 <= root <= n) by (nonlinear_arith)
            requires
                root * root == n,
                n >= 1,
        ;
    }
    while b * b < n
        invariant
            1 <= b <= root <= n,
            b * b <= n,
            root * root == n,
            n * n <= usize::MAX,
        decreases root - b,
    {
        proof {
            if b == root {
                assert(false);
            }
            assert((b + 1) * (b + 1) <= n) by (nonlinear_arith)
                requires
                    b + 1 <= root,
                    root * root == n,
            ;
        }
        b += 1;
    }
    proof {
        lemma_square_root_unique(root, b as nat, n as nat);
    }
    assert(3 * n <= usize::MAX) by (nonlinear_arith)
        requires
            n * n <= usize::MAX,
            usize::MAX >= 6,
    ;
    let mut grid: Vec<u32> = vec![0u32; n * n];
    for r in 0..n
        invariant
            b * b == n,
            b >= 1,
            n <= u32::MAX,
            n * n <= usize::MAX,
            3 * n <= usize::MAX,
            grid@.len() == n * n,
            forall|i: int| 0 <= i < n * r ==> #[trigger] grid@[i] == pattern_value(b as nat, i / n as int, i % n as int),
    {
        for c in 0..n
            invariant
                b * b == n,
                b >= 1,
                n <= u32::MAX,
                n * n <= usize::MAX,
                3 * n <= usize::MAX,
                0 <= r < n,
                grid@.len() == n * n,
                forall|i: int| 0 <= i < n * r + c ==> #[trigger] grid@[i] == pattern_value(b as nat, i / n as int, i % n as int),
        {
            assert(n * r + c < n * n && n * r + c + 1 == n * r + (c + 1)) by (nonlinear_arith)
                requires
                    r < n,
                    c < n,
            ;
            assert(b * (r % b) < n) by (nonlinear_arith)
                requires
                    0 <= r % b < b,
                    b * b == n,
                    b >= 1,
            ;
            assert(r / b < n) by (nonlinear_arith)
                requires
                    r < n,
                    b >= 1,
            ;
            proof {
                lemma_row_major(n as int, r as int, c as int);
            }
            grid[n * r + c] = ((b * (r % b) + r / b + c) % n) as u32 + 1;
        }
        assert(n * r + n == n * (r + 1)) by (nonlinear_arith);
    }
    proof {
        assert(grid@ =~= pattern_grid(b as nat));
        assert forall|s: nat| s * s == n implies grid@ == pattern_grid(s) by {
            lemma_square_root_unique(b as nat, s, n as nat);
        }
        lemma_pattern_is_valid(b as nat);
        assert(is_valid_sudoku(grid@, n as nat, b as nat));
    }
    grid
}

} // verus!
