use zkvm_fib_bench::generate::valid_grid;
use zkvm_fib_bench::sudoku::{groups, is_permutation};

#[test]
fn four_by_four_pattern() {
    assert_eq!(
        valid_grid(4),
        vec![1, 2, 3, 4, 3, 4, 1, 2, 2, 3, 4, 1, 4, 1, 2, 3]
    );
}

#[test]
fn one_by_one_pattern() {
    assert_eq!(valid_grid(1), vec![1]);
}

#[test]
fn nine_by_nine_first_rows() {
    let g = valid_grid(9);
    assert_eq!(g.len(), 81);
    assert_eq!(&g[0..9], &[1, 2, 3, 4, 5, 6, 7, 8, 9]);
    assert_eq!(&g[9..18], &[4, 5, 6, 7, 8, 9, 1, 2, 3]);
    assert_eq!(&g[27..36], &[2, 3, 4, 5, 6, 7, 8, 9, 1]);
}

#[test]
fn every_group_of_generated_grids_is_a_permutation() {
    for b in 1usize..=7 {
        let n = b * b;
        let grid = valid_grid(n);
        assert_eq!(grid.len(), n * n);
        for group in groups(&grid, n, b) {
            assert!(is_permutation(&group, n));
        }
    }
}
