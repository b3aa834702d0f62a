//! Validity of a completed n x n sudoku grid.
//!
//! A grid of side `n = b * b` is stored row-major. Its `3n` groups are the `n`
//! rows, then the `n` columns, then the `n` boxes of side `b`; the grid is a
//! valid sudoku when every group is a permutation of `{1, ..., n}`.
use vstd::arithmetic::div_mod::*;
use vstd::prelude::*;
use vstd::set_lib::*;

verus! {

/// The cells of an `N x N` array, row by row.
pub open spec fn array_cells<const N: usize>(grid: [[u32; N]; N]) -> Seq<u32> {
    Seq::new((N * N) as nat, |i: int| grid@[i / (N as int)]@[i % (N as int)])
}

/// Row `r` of a row-major grid of side `n`.
pub open spec fn row_cells(grid: Seq<u32>, n: nat, r: int) -> Seq<u32> {
    Seq::new(n, |c: int| grid[n * r + c])
}

/// Column `c` of a row-major grid of side `n`.
pub open spec fn column_cells(grid: Seq<u32>, n: nat, c: int) -> Seq<u32> {
    Seq::new(n, |r: int| grid[n * r + c])
}

/// Box `k` of a row-major grid of side `n` with boxes of side `b`: the box in
/// box-row `k / b` and box-column `k % b`, read row by row.
pub open spec fn box_cells(grid: Seq<u32>, n: nat, b: nat, k: int) -> Seq<u32> {
    let b = b as int;
    Seq::new(n, |p: int| grid[n * (b * (k / b) + p / b) + (b * (k % b) + p % b)])
}

/// Group `g` of the grid: rows for `g < n`, columns for `n <= g < 2n`, boxes
/// for `2n <= g < 3n`.
pub open spec fn group_cells(grid: Seq<u32>, n: nat, b: nat, g: int) -> Seq<u32> {
    if g < n {
        row_cells(grid, n, g)
    } else if g < 2 * n {
        column_cells(grid, n, g - n)
    } else {
        box_cells(grid, n, b, g - 2 * n)
    }
}

/// The grid cell `(row, column)` that supplies position `j` of group `g`.
pub open spec fn group_source(n: nat, b: nat, g: int, j: int) -> (int, int) {
    if g < n {
        (g, j)
    } else if g < 2 * n {
        (j, g - n)
    } else {
        let k = g - 2 * n;
        let b = b as int;
        (b * (k / b) + j / b, b * (k % b) + j % b)
    }
}

/// Cell `s` comes before cell `(r, c)` in row-major order.
pub open spec fn precedes(s: (int, int), r: int, c: int) -> bool {
    s.0 < r || (s.0 == r && s.1 < c)
}

/// `cells` is a permutation of `{1, ..., n}`: `n` values, each in range, no two equal.
pub open spec fn is_permutation_of_range(cells: Seq<u32>, n: nat) -> bool {
    &&& cells.len() == n
    &&& forall|i: int| 0 <= i < n ==> 1 <= #[trigger] cells[i] <= n
    &&& forall|i: int, j: int| 0 <= i < j < n ==> cells[i] != cells[j]
}

/// A valid sudoku of side `n = b * b`: `n * n` cells, and every one of the
/// `3n` groups is a permutation of `{1, ..., n}`.
pub open spec fn is_valid_sudoku(grid: Seq<u32>, n: nat, b: nat) -> bool {
    &&& b * b == n
    &&& grid.len() == n * n
    &&& forall|g: int| 0 <= g < 3 * n ==> is_permutation_of_range(#[trigger] group_cells(grid, n, b, g), n)
}

/// Box coordinates: for `x, y < b * b`, the box index `u = b*(x/b) + y/b` and
/// the position `v = b*(x%b) + y%b` are both below `b * b`, and the same map
/// applied to `(u, v)` gives back `(x, y)`.
pub proof fn lemma_box_swap(b: int, x: int, y: int)
    requires
        b > 0,
        0 <= x < b * b,
        0 <= y < b * b,
    ensures
        0 <= b * (x / b) + y / b < b * b,
        0 <= b * (x % b) + y % b < b * b,
        b * ((b * (x / b) + y / b) / b) + (b * (x % b) + y % b) / b == x,
        b * ((b * (x / b) + y / b) % b) + (b * (x % b) + y % b) % b == y,
{
    lemma_fundamental_div_mod(x, b);
    lemma_fundamental_div_mod(y, b);
    let qx = x / b;
    let rx = x % b;
    let qy = y / b;
    let ry = y % b;
    assert(0 <= qx < b && 0 <= qy < b) by (nonlinear_arith)
        requires
            x == b * qx + rx,
            y == b * qy + ry,
            0 <= rx < b,
            0 <= ry < b,
            0 <= x < b * b,
            0 <= y < b * b,
    ;
    let u = b * qx + qy;
    let v = b * rx + ry;
    assert(0 <= u < b * b && 0 <= v < b * b) by (nonlinear_arith)
        requires
            u == b * qx + qy,
            v == b * rx + ry,
            0 <= qx < b,
            0 <= qy < b,
            0 <= rx < b,
            0 <= ry < b,
    ;
    assert(u == qx * b + qy && v == rx * b + ry) by (nonlinear_arith)
        requires
            u == b * qx + qy,
            v == b * rx + ry,
    ;
    lemma_fundamental_div_mod_converse(u, b, qx, qy);
    lemma_fundamental_div_mod_converse(v, b, rx, ry);
}

/// Squares of naturals are strictly increasing.
pub proof fn lemma_square_strictly_increasing(x: nat, y: nat)
    requires
        x < y,
    ensures
        x * x < y * y,
{
    assert(x * x < y * y) by (nonlinear_arith)
        requires
            x < y,
    ;
}

/// The square after `r` fits in a word whenever `r * r` does not pass `n`.
pub open spec fn next_square_fits(r: nat, n: nat) -> bool {
    r * r <= n ==> (r + 1) * (r + 1) <= usize::MAX
}

/// `n` is the square of a natural number.
pub open spec fn is_perfect_square(n: nat) -> bool {
    exists|r: nat| #[trigger] (r * r) == n
}

/// The largest `b` with `b * b <= n`, found by counting up.
fn square_root_floor(n: usize) -> (b: usize)
    requires
        forall|r: nat| #[trigger] next_square_fits(r, n as nat),
    ensures
        b * b <= n < (b + 1) * (b + 1),
{
    let mut b: usize = 0;
    loop
        invariant
            forall|r: nat| #[trigger] next_square_fits(r, n as nat),
            b * b <= n,
        decreases n - b,
    {
        assert(next_square_fits(b as nat, n as nat));
        assert(b + 1 <= (b + 1) * (b + 1)) by (nonlinear_arith);
        assert(b <= n) by (nonlinear_arith)
            requires
                b * b <= n,
        ;
        if (b + 1) * (b + 1) <= n {
            b += 1;
        } else {
            return b;
        }
    }
}

/// If `r * r == n`, then `r` is the only natural whose square is `n`, and every
/// natural whose square does not pass `n` is at most `r`.
pub proof fn lemma_square_root_unique(r: nat, s: nat, n: nat)
    requires
        r * r == n,
        s * s <= n,
    ensures
        s <= r,
        s * s == n ==> s == r,
{
    if r < s {
        lemma_square_strictly_increasing(r, s);
    }
    if s < r && s * s == n {
        lemma_square_strictly_increasing(s, r);
    }
}

/// `r` is the exact square root of `n`, and the square after it fits in a word.
pub open spec fn is_exact_root_with_room(r: nat, n: nat) -> bool {
    r * r == n && (r + 1) * (r + 1) <= usize::MAX
}

/// Box side b = sqrt(n); n must be a perfect square. The root is found by
/// counting up while `(b + 1)^2 <= n`, so the square after the root must fit
/// in a word.
pub fn box_side(n: usize) -> (b: usize)
    requires
        exists|r: nat| is_exact_root_with_room(r, n as nat),
    ensures
        b * b == n,
{
    let ghost r = choose|r: nat| is_exact_root_with_room(r, n as nat);
    assert forall|s: nat| #[trigger] next_square_fits(s, n as nat) by {
        if s * s <= n {
            lemma_square_root_unique(r, s, n as nat);
            assert((s + 1) * (s + 1) <= (r + 1) * (r + 1)) by (nonlinear_arith)
                requires
                    s <= r,
            ;
        }
    }
    let b = square_root_floor(n);
    proof {
        lemma_square_root_unique(r, b as nat, n as nat);
        if b < r {
            assert((b + 1) * (b + 1) <= r * r) by (nonlinear_arith)
                requires
                    b + 1 <= r,
            ;
        }
    }
    b
}

/// Every source cell of a group lies in the grid, and the one cell `(r, c)`
/// of the grid supplies exactly three group positions: in its row, its column
/// and its box.
pub proof fn lemma_group_source(n: nat, b: nat, g: int, j: int, r: int, c: int)
    requires
        b * b == n,
        0 <= g < 3 * n,
        0 <= j < n,
        0 <= r < n,
        0 <= c < n,
    ensures
        0 <= group_source(n, b, g, j).0 < n,
        0 <= group_source(n, b, g, j).1 < n,
        group_source(n, b, g, j) == (r, c) <==> {
            ||| (g == r && j == c)
            ||| (g == n + c && j == r)
            ||| (g == 2 * n + (b * (r / b as int) + c / b as int) && j == b * (r % b as int) + c % b as int)
        },
{
    let bi = b as int;
    assert(bi > 0) by (nonlinear_arith)
        requires
            bi >= 0,
            bi * bi == n,
            n > 0,
    ;
    lemma_box_swap(bi, r, c);
    if g >= 2 * n {
        lemma_box_swap(bi, g - 2 * n, j);
    }
}

/// The n cells of every group: n rows, then n columns, then n boxes.
/// `b` is the box side of `n` (`b * b == n`), and the first `n * n` cells of
/// `grid` are read row-major.
pub fn groups(grid: &[u32], n: usize, b: usize) -> (result: Vec<Vec<u32>>)
    requires
        grid@.len() >= n * n,
        b * b == n,
    ensures
        result@.len() == 3 * n,
        forall|g: int| 0 <= g < 3 * n ==> (#[trigger] result@[g])@ == group_cells(grid@, n as nat, b as nat, g),
{
    let len = grid.len();
    assert(3 * n <= usize::MAX) by (nonlinear_arith)
        requires
            n * n <= len,
            len <= usize::MAX,
            usize::MAX >= 6,
    ;
    let mut result = vec![vec![0u32; n]; 3 * n];
    assert forall|g: int, j: int| 0 <= g < 3 * n && 0 <= j < n implies
        group_source(n as nat, b as nat, g, j).0 >= 0 by {
        lemma_group_source(n as nat, b as nat, g, j, 0, 0);
    }
    for r in 0..n
        invariant
            grid@.len() >= n * n,
            n * n <= usize::MAX,
            3 * n <= usize::MAX,
            b * b == n,
            result@.len() == 3 * n,
            forall|g: int| 0 <= g < 3 * n ==> (#[trigger] result@[g])@.len() == n,
            forall|g: int, j: int|
                0 <= g < 3 * n && 0 <= j < n && group_source(n as nat, b as nat, g, j).0 < r ==> {
                    let s = group_source(n as nat, b as nat, g, j);
                    #[trigger] result@[g]@[j] == grid@[n * s.0 + s.1]
                },
    {
        assert forall|g: int, j: int| 0 <= g < 3 * n && 0 <= j < n implies
            (precedes(group_source(n as nat, b as nat, g, j), r as int, 0) <==> group_source(n as nat, b as nat, g, j).0 < r) by {
            lemma_group_source(n as nat, b as nat, g, j, r as int, 0);
        }
        for c in 0..n
            invariant
                grid@.len() >= n * n,
                n * n <= usize::MAX,
                3 * n <= usize::MAX,
                b * b == n,
                0 <= r < n,
                result@.len() == 3 * n,
                forall|g: int| 0 <= g < 3 * n ==> (#[trigger] result@[g])@.len() == n,
                forall|g: int, j: int|
                    0 <= g < 3 * n && 0 <= j < n && precedes(group_source(n as nat, b as nat, g, j), r as int, c as int) ==> {
                        let s = group_source(n as nat, b as nat, g, j);
                        #[trigger] result@[g]@[j] == grid@[n * s.0 + s.1]
                    },
        {
            assert(n * r <= n * r + c < n * n) by (nonlinear_arith)
                requires
                    r < n,
                    c < n,
            ;
            let ghost before = result@;
            let val = grid[n * r + c];
            result[r][c] = val;
            result[n + c][r] = val;
            proof {
                assert(b > 0) by (nonlinear_arith)
                    requires
                        b * b == n,
                        r < n,
                ;
                lemma_box_swap(b as int, r as int, c as int);
            }
            let box_id = b * (r / b) + c / b;
            let pos = b * (r % b) + c % b;
            result[2 * n + box_id][pos] = val;
            assert forall|g: int, j: int|
                0 <= g < 3 * n && 0 <= j < n && precedes(group_source(n as nat, b as nat, g, j), r as int, c + 1) implies {
                    let s = group_source(n as nat, b as nat, g, j);
                    #[trigger] result@[g]@[j] == grid@[n * s.0 + s.1]
                } by {
                lemma_group_source(n as nat, b as nat, g, j, r as int, c as int);
                if group_source(n as nat, b as nat, g, j) != (r as int, c as int) {
                    assert(precedes(group_source(n as nat, b as nat, g, j), r as int, c as int));
                    assert(result@[g]@[j] == before[g]@[j]);
                }
            }
        }
        assert forall|g: int, j: int| 0 <= g < 3 * n && 0 <= j < n implies
            (precedes(group_source(n as nat, b as nat, g, j), r as int, n as int) <==> group_source(n as nat, b as nat, g, j).0 < r + 1) by {
            lemma_group_source(n as nat, b as nat, g, j, r as int, 0);
        }
    }
    assert forall|g: int| 0 <= g < 3 * n implies (#[trigger] result@[g])@ == group_cells(grid@, n as nat, b as nat, g) by {
        assert forall|j: int| 0 <= j < n implies result@[g]@[j] == group_cells(grid@, n as nat, b as nat, g)[j] by {
            lemma_group_source(n as nat, b as nat, g, j, 0, 0);
        }
        assert(result@[g]@ =~= group_cells(grid@, n as nat, b as nat, g));
    }
    result
}

/// A group is a permutation of `1..=n` iff every value lands in range once.
pub fn is_permutation(cells: &[u32], n: usize) -> (r: bool)
    ensures
        r == is_permutation_of_range(cells@, n as nat),
{
    let mut seen = vec![false; n];
    let ghost mut values: Set<int> = Set::empty();
    proof {
        lemma_int_range(1, n + 1);
    }
    for i in 0..cells.len()
        invariant
            seen@.len() == n,
            set_int_range(1, n + 1).finite(),
            set_int_range(1, n + 1).len() == n,
            values.finite(),
            values.len() == i,
            values.subset_of(set_int_range(1, n + 1)),
            forall|v: int| 1 <= v <= n ==> (seen@[v - 1] <==> values.contains(v)),
            forall|x: int| #[trigger] values.contains(x) ==> exists|j: int| 0 <= j < i && cells@[j] == x,
            forall|j: int| 0 <= j < i ==> 1 <= #[trigger] cells@[j] <= n && values.contains(cells@[j] as int),
            forall|j: int, k: int| 0 <= j < k < i ==> cells@[j] != cells@[k],
    {
        let v = cells[i];
        if v < 1 || v as usize > n {
            return false;
        }
        let idx = v as usize - 1;
        if seen[idx] {
            proof {
                assert(values.contains(v as int));
                let j = choose|j: int| 0 <= j < i && cells@[j] == v as int;
                assert(cells@[j] == cells@[i as int]);
            }
            return false;
        }
        seen.set(idx, true);
        proof {
            values = values.insert(v as int);
        }
    }
    proof {
        lemma_len_subset(values, set_int_range(1, n + 1));
    }
    for k in 0..n
        invariant
            seen@.len() == n,
            forall|j: int| 0 <= j < k ==> seen@[j],
            set_int_range(1, n + 1).finite(),
            set_int_range(1, n + 1).len() == n,
            values.finite(),
            values.len() == cells@.len(),
            values.subset_of(set_int_range(1, n + 1)),
            forall|v: int| 1 <= v <= n ==> (seen@[v - 1] <==> values.contains(v)),
    {
        if !seen[k] {
            proof {
                if cells@.len() == n {
                    lemma_subset_equality(values, set_int_range(1, n + 1));
                    assert(set_int_range(1, n + 1).contains(k + 1));
                    assert(values.contains(k + 1));
                }
            }
            return false;
        }
    }
    proof {
        assert(set_int_range(1, n + 1).subset_of(values)) by {
            assert forall|x: int| set_int_range(1, n + 1).contains(x) implies values.contains(x) by {
                assert(seen@[x - 1]);
            }
        }
        lemma_len_subset(set_int_range(1, n + 1), values);
    }
    true
}

/// `grid` is a valid sudoku of side `n` for some box side.
pub open spec fn is_sudoku(grid: Seq<u32>, n: nat) -> bool {
    exists|b: nat| #[trigger] is_valid_sudoku(grid, n, b)
}

/// Why a grid of side `n` is refused.
#[derive(Debug, Clone, Copy, PartialEq, Eq)]
pub enum GridError {
    /// The grid does not hold `n * n` cells.
    WrongCellCount,
    /// `n` is not a perfect square, so the grid has no boxes.
    NotPerfectSquare,
    /// Some row, column or box is not a permutation of `1..=n`.
    NotPermutation,
}

/// When `n * n` fits in a word, so does the square after every root candidate.
proof fn lemma_next_square_fits(n: nat)
    requires
        n * n <= usize::MAX,
    ensures
        forall|r: nat| #[trigger] next_square_fits(r, n),
{
    assert forall|r: nat| #[trigger] next_square_fits(r, n) by {
        if r * r <= n {
            assert((r + 1) * (r + 1) <= usize::MAX) by (nonlinear_arith)
                requires
                    r * r <= n,
                    n * n <= usize::MAX,
                    usize::MAX >= 4,
            ;
        }
    }
}

/// The check of the sudoku guest: a grid of side `n`, row-major, is accepted
/// exactly when it holds `n * n` cells, `n` is a perfect square, and each of
/// the `3n` groups is a permutation of `1..=n`.
pub fn check_grid(n: u32, grid: &[u32]) -> (r: Result<(), GridError>)
    ensures
        (r == Err::<(), GridError>(GridError::WrongCellCount)) <==> grid@.len() != n * n,
        (r == Err::<(), GridError>(GridError::NotPerfectSquare)) <==> (grid@.len() == n * n
            && !is_perfect_square(n as nat)),
        r is Ok <==> is_sudoku(grid@, n as nat),
{
    let size = n as usize;
    let len = grid.len();
    match size.checked_mul(size) {
        None => {
            proof {
                assert(!is_sudoku(grid@, size as nat));
            }
            return Err(GridError::WrongCellCount);
        },
        Some(cells) => {
            if len != cells {
                proof {
                    if grid@.len() == size * size {
                        assert(false);
                    }
                    assert(!is_sudoku(grid@, size as nat));
                }
                return Err(GridError::WrongCellCount);
            }
        },
    }
    proof {
        lemma_next_square_fits(size as nat);
    }
    let b = square_root_floor(size);
    if b * b != size {
        proof {
            assert forall|r: nat| #[trigger] (r * r) != size by {
                if r * r == size {
                    lemma_square_root_unique(r, b as nat, size as nat);
                    if b < r {
                        assert((b + 1) * (b + 1) <= r * r) by (nonlinear_arith)
                            requires
                                b + 1 <= r,
                        ;
                    }
                }
            }
            assert forall|c: nat| !#[trigger] is_valid_sudoku(grid@, size as nat, c) by {
                assert(c * c != size);
            }
        }
        return Err(GridError::NotPerfectSquare);
    }
    let all = groups(grid, size, b);
    let mut g: usize = 0;
    while g < all.len()
        invariant
            size == n,
            grid@.len() == size * size,
            b * b == size,
            all@.len() == 3 * size,
            forall|k: int| 0 <= k < 3 * size ==> (#[trigger] all@[k])@ == group_cells(grid@, size as nat, b as nat, k),
            forall|k: int| 0 <= k < g ==> is_permutation_of_range(#[trigger] group_cells(grid@, size as nat, b as nat, k), size as nat),
            g <= all.len(),
        decreases all.len() - g,
    {
        if !is_permutation(all[g].as_slice(), size) {
            proof {
                assert forall|c: nat| !#[trigger] is_valid_sudoku(grid@, size as nat, c) by {
                    if c * c == size {
                        lemma_square_root_unique(b as nat, c, size as nat);
                        assert(!is_permutation_of_range(group_cells(grid@, size as nat, c, g as int), size as nat));
                    }
                }
                assert((b as nat) * (b as nat) == n as nat);
            }
            return Err(GridError::NotPermutation);
        }
        g += 1;
    }
    assert(is_valid_sudoku(grid@, size as nat, b as nat));
    Ok(())
}

} // verus!
