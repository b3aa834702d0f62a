# zkvm_fib_bench

The computations that the guests of a zkVM benchmark prove, written in Verus
and verified:

- `fibonacci`: `F(n) mod 7919` and `F(n+1) mod 7919` by the linear recurrence
  (`fib`, `linear`) and by fast doubling (`fast_doubling`); both are proved to
  return the same pair. Also the bounds-check claim `10 <= x <= 100`.
- `sudoku`: the generic n x n validity check (`check_grid`) with its parts
  `box_side`, `groups` and `is_permutation`.
- `sudoku9`: the fixed 9 x 9 claim (`sudoku`, `check_sudoku`), proved to agree
  with the generic check for n = 9.
- `generate`: the known-valid grid (`valid_grid`), proved to be a valid sudoku
  for every box side; `fixed_grid` builds the same grid as an `N x N` array.

`app/` is a command-line driver that runs the guest computations natively and
prints what each guest commits.
