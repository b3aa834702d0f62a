use zkvm_fib_bench::generate::valid_grid;
use zkvm_fib_bench::sudoku::{box_side, check_grid, groups, is_permutation, GridError};

#[test]
fn box_side_of_squares() {
    assert_eq!(box_side(0), 0);
    assert_eq!(box_side(1), 1);
    assert_eq!(box_side(4), 2);
    assert_eq!(box_side(9), 3);
    assert_eq!(box_side(16), 4);
    assert_eq!(box_side(10_000), 100);
}

#[test]
fn permutation_cases() {
    assert!(is_permutation(&[2, 1, 3], 3));
    assert!(is_permutation(&[1], 1));
    assert!(is_permutation(&[], 0));
    assert!(!is_permutation(&[1, 1, 3], 3));
    assert!(!is_permutation(&[0, 1, 2], 3));
    assert!(!is_permutation(&[1, 2, 4], 3));
    assert!(!is_permutation(&[1, 2], 3));
    assert!(!is_permutation(&[1, 2, 3, 1], 3));
    assert!(!is_permutation(&[1, 2, 3, 4], 3));
    assert!(!is_permutation(&[1], 0));
}

#[test]
fn groups_of_a_four_by_four_grid() {
    let grid: Vec<u32> = (1..=16).collect();
    let g = groups(&grid, 4, 2);
    assert_eq!(g.len(), 12);
    assert_eq!(g[0], vec![1, 2, 3, 4]);
    assert_eq!(g[3], vec![13, 14, 15, 16]);
    assert_eq!(g[4], vec![1, 5, 9, 13]);
    assert_eq!(g[7], vec![4, 8, 12, 16]);
    assert_eq!(g[8], vec![1, 2, 5, 6]);
    assert_eq!(g[9], vec![3, 4, 7, 8]);
    assert_eq!(g[10], vec![9, 10, 13, 14]);
    assert_eq!(g[11], vec![11, 12, 15, 16]);
}

#[test]
fn groups_read_only_the_first_cells() {
    let grid: Vec<u32> = (1..=20).collect();
    let g = groups(&grid, 4, 2);
    assert_eq!(g[3], vec![13, 14, 15, 16]);
    assert_eq!(g[11], vec![11, 12, 15, 16]);
}

#[test]
fn valid_grids_are_accepted() {
    for n in [1u32, 4, 9, 16, 25, 36] {
        let grid = valid_grid(n as usize);
        assert_eq!(check_grid(n, &grid), Ok(()));
    }
}

#[test]
fn empty_grid_of_size_zero_is_accepted() {
    assert_eq!(check_grid(0, &[]), Ok(()));
}

#[test]
fn wrong_cell_count() {
    let grid = valid_grid(9);
    assert_eq!(check_grid(9, &grid[..80]), Err(GridError::WrongCellCount));
    assert_eq!(check_grid(4, &grid), Err(GridError::WrongCellCount));
    assert_eq!(check_grid(u32::MAX, &grid), Err(GridError::WrongCellCount));
}

#[test]
fn not_a_perfect_square() {
    let grid: Vec<u32> = vec![1, 2, 2, 1];
    assert_eq!(check_grid(2, &grid), Err(GridError::NotPerfectSquare));
    let grid: Vec<u32> = vec![1, 2, 3, 2, 3, 1, 3, 1, 2];
    assert_eq!(check_grid(3, &grid), Err(GridError::NotPerfectSquare));
}

#[test]
fn not_a_permutation() {
    let mut grid = valid_grid(9);
    grid[40] = 0;
    assert_eq!(check_grid(9, &grid), Err(GridError::NotPermutation));

    let mut grid = valid_grid(9);
    grid.swap(0, 1);
    assert_eq!(check_grid(9, &grid), Err(GridError::NotPermutation));

    // A Latin square whose boxes repeat values.
    let latin: Vec<u32> = (0..81u32).map(|i| (i / 9 + i % 9) % 9 + 1).collect();
    assert_eq!(check_grid(9, &latin), Err(GridError::NotPermutation));
}
