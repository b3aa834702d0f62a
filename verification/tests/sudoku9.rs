use zkvm_fib_bench::fixed_grid::valid_grid as valid_array;
use zkvm_fib_bench::generate::valid_grid;
use zkvm_fib_bench::sudoku::check_grid;
use zkvm_fib_bench::sudoku9::{check_sudoku, sudoku, SudokuFault};

fn to_array(cells: &[u32]) -> [[u32; 9]; 9] {
    let mut grid = [[0u32; 9]; 9];
    for r in 0..9 {
        for c in 0..9 {
            grid[r][c] = cells[9 * r + c];
        }
    }
    grid
}

fn solved() -> [[u32; 9]; 9] {
    valid_array::<9, 3>()
}

#[test]
fn solved_grid_is_a_sudoku() {
    let grid = solved();
    assert_eq!(check_sudoku(9, &grid), Ok(()));
    assert!(sudoku(9, grid));
}

#[test]
fn size_must_be_nine() {
    assert_eq!(check_sudoku(4, &solved()), Err(SudokuFault::WrongSize));
    assert_eq!(check_sudoku(16, &solved()), Err(SudokuFault::WrongSize));
}

#[test]
fn cell_out_of_range() {
    let mut grid = solved();
    grid[4][4] = 10;
    assert_eq!(check_sudoku(9, &grid), Err(SudokuFault::OutOfRange));
    grid[4][4] = 0;
    assert_eq!(check_sudoku(9, &grid), Err(SudokuFault::OutOfRange));
}

#[test]
fn duplicate_in_row() {
    let mut grid = solved();
    grid[0][1] = grid[0][0];
    assert_eq!(check_sudoku(9, &grid), Err(SudokuFault::DuplicateInRow));
}

#[test]
fn duplicate_in_column() {
    let mut grid = solved();
    grid[3].swap(0, 1);
    assert_eq!(check_sudoku(9, &grid), Err(SudokuFault::DuplicateInColumn));
}

#[test]
fn duplicate_in_box() {
    let latin: Vec<u32> = (0..81u32).map(|i| (i / 9 + i % 9) % 9 + 1).collect();
    assert_eq!(check_sudoku(9, &to_array(&latin)), Err(SudokuFault::DuplicateInBox));
}

#[test]
fn first_fault_in_scan_order_wins() {
    let mut grid = solved();
    grid[5][0] = 42;
    grid[2][8] = grid[2][7];
    assert_eq!(check_sudoku(9, &grid), Err(SudokuFault::DuplicateInRow));

    let mut grid = solved();
    grid[1][2] = grid[1][0];
    grid[1][5] = 0;
    assert_eq!(check_sudoku(9, &grid), Err(SudokuFault::DuplicateInRow));

    let mut grid = solved();
    grid[1][2] = 0;
    grid[1][5] = grid[1][0];
    assert_eq!(check_sudoku(9, &grid), Err(SudokuFault::OutOfRange));
}

#[test]
fn nine_by_nine_check_agrees_with_general_check() {
    let base = valid_grid(9);
    let mut variants: Vec<Vec<u32>> = vec![base.clone()];
    let mut v = base.clone();
    v.swap(0, 1);
    variants.push(v);
    let mut v = base.clone();
    v[80] = 11;
    variants.push(v);
    variants.push((0..81u32).map(|i| (i / 9 + i % 9) % 9 + 1).collect());
    for cells in variants {
        let fixed = check_sudoku(9, &to_array(&cells)).is_ok();
        let general = check_grid(9, &cells).is_ok();
        assert_eq!(fixed, general);
    }
}
