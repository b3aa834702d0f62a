use zkvm_fib_bench::fixed_grid::valid_grid as valid_array;
use zkvm_fib_bench::generate::valid_grid;
use zkvm_fib_bench::sudoku::check_grid;
use zkvm_fib_bench::sudoku9::{check_sudoku, sudoku};

fn cells<const N: usize>(grid: &[[u32; N]; N]) -> Vec<u32> {
    grid.iter().flat_map(|row| row.iter().copied()).collect()
}

#[test]
fn array_grids_match_vector_grids() {
    assert_eq!(cells(&valid_array::<1, 1>()), valid_grid(1));
    assert_eq!(cells(&valid_array::<4, 2>()), valid_grid(4));
    assert_eq!(cells(&valid_array::<9, 3>()), valid_grid(9));
    assert_eq!(cells(&valid_array::<16, 4>()), valid_grid(16));
}

#[test]
fn four_by_four_array() {
    assert_eq!(
        valid_array::<4, 2>(),
        [[1, 2, 3, 4], [3, 4, 1, 2], [2, 3, 4, 1], [4, 1, 2, 3]]
    );
}

#[test]
fn array_grids_pass_the_guest_checks() {
    let grid = valid_array::<9, 3>();
    assert_eq!(check_sudoku(9, &grid), Ok(()));
    assert!(sudoku(9, grid));
    assert_eq!(check_grid(16, &cells(&valid_array::<16, 4>())), Ok(()));
    assert_eq!(check_grid(4, &cells(&valid_array::<4, 2>())), Ok(()));
}

#[test]
fn formula_for_a_box_side_that_is_not_the_root() {
    // N = 6, B = 2: value(r, c) = (2*(r%2) + r/2 + c) mod 6 + 1.
    let grid = valid_array::<6, 2>();
    assert_eq!(grid[0], [1, 2, 3, 4, 5, 6]);
    assert_eq!(grid[1], [3, 4, 5, 6, 1, 2]);
    assert_eq!(grid[5], [5, 6, 1, 2, 3, 4]);
}

#[test]
fn empty_array_grid() {
    let grid = valid_array::<0, 0>();
    assert_eq!(grid.len(), 0);
}
