# fastdoku

A complete sudoku solver, verified with Verus. It solves any 9x9 puzzle, counts
solutions up to a limit (a limit of two checks uniqueness), validates solutions,
and generates random minimal puzzles.

## What is proved

`src/grid.rs` says what a complete grid is, which grids solve a puzzle, and how
many there are. Against that, every engine is proved to

- return a solution exactly if there is one, and only a true solution;
- count the solutions exactly, up to the limit.

Where a puzzle has several solutions, each engine is also proved to return the
one that comes first in its own order of search: `band` and `simd` branch on the
first cell with the fewest candidates of the largest part of the boards at rest
(`src/rest.rs`), the others follow the courses that their modules describe.

So all engines agree on every puzzle, and where no puzzle of a batch has several
solutions they give the same results for it. The generator is proved to return puzzles
with exactly one solution, from which no clue can be taken away, and the state of
the random numbers decides which. Reading and writing puzzle lines is proved
against a description of the format, and so is that one undoes the other.
`src/laws.rs` collects what holds of the library as a whole.

The one thing believed without proof is what the standard library says of
`String::push`.

## Engines

| module     | idea                                                             |
|------------|------------------------------------------------------------------|
| `triad`    | boxes with triad margins, bands of configurations                |
| `jcz`      | one word per band and digit, locked candidates by table lookup   |
| `band`     | band words with an assignment queue and a pass over the stacks   |
| `simd`     | each digit in both orientations, lane by lane, cardinality rules |
| `baseline` | candidate masks per cell, unit scans, locked candidates          |

`route` sends a puzzle to `jcz`, and to `triad` if `jcz` finds it hard.

Triads are an idea of Tom Dillon's, from tdoku (BSD-2-Clause). The word per band
and digit is an idea of JCZSolve's.

## Layout

- `src/`: the library, all of it verified. `bits`, `grid`, `minirow`, `boards`,
  `layout`, `rest` and `branch` are the model that the engines share.
- `tests/`: tests.
- `app/`: the command line (`solve`, `check`, `bench`, `gen`).
