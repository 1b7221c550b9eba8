//! Checking digits against their row, column and 3x3 box.

use vstd::prelude::*;
use crate::board::{before, clear_of, conflict_at, fits, grid, is_grid, peers, validation_outcome, EMPTY};

verus! {

/// The top-left cell of the 3x3 box that holds `(row, col)`.
pub fn get_subcell_root(row: usize, col: usize) -> (r: (usize, usize))
    requires
        row < 9,
        col < 9,
    ensures
        r.0 == row / 3 * 3,
        r.1 == col / 3 * 3,
{
    (row / 3 * 3, col / 3 * 3)
}

/// Whether `num` may stand at `(row, col)`: no other cell of the 3x3 block
/// with top-left cell `(sub_cell_x, sub_cell_y)`, of its row or of its column
/// holds it. Where that cell is the top-left cell of its own box, this is
/// the Sudoku rule.
/// The cell's own content is not compared, so the check serves both a
/// candidate for an empty cell and a digit already in place.
pub fn valid_position(
    num: char,
    sub_cell_x: usize,
    sub_cell_y: usize,
    row: usize,
    col: usize,
    board: &Vec<Vec<char>>,
) -> (r: bool)
    requires
        is_grid(grid(board@)),
        row < 9,
        col < 9,
        sub_cell_x <= 6,
        sub_cell_y <= 6,
    ensures
        r == clear_of(
            grid(board@),
            num,
            row as int,
            col as int,
            sub_cell_x as int,
            sub_cell_y as int,
        ),
        sub_cell_x == row / 3 * 3 && sub_cell_y == col / 3 * 3 ==> r == fits(
            grid(board@),
            num,
            row as int,
            col as int,
        ),
{
    let ghost g = grid(board@);
    assert(forall|i: int| 0 <= i < 9 ==> g[i] == #[trigger] board@[i]@);
    let mut x: usize = sub_cell_x;
    while x < sub_cell_x + 3
        invariant
            sub_cell_x <= x <= sub_cell_x + 3,
            g == grid(board@),
            is_grid(g),
            forall|i: int| 0 <= i < 9 ==> g[i] == #[trigger] board@[i]@,
            row < 9,
            col < 9,
            sub_cell_x <= 6,
            sub_cell_y <= 6,
            forall|r2: int, c2: int|
                sub_cell_x <= r2 < x && sub_cell_y <= c2 < sub_cell_y + 3 && !(r2 == row && c2
                    == col) ==> #[trigger] g[r2][c2] != num,
        decreases sub_cell_x + 3 - x,
    {
        let mut y: usize = sub_cell_y;
        while y < sub_cell_y + 3
            invariant
                sub_cell_x <= x < sub_cell_x + 3,
                sub_cell_y <= y <= sub_cell_y + 3,
                g == grid(board@),
                is_grid(g),
                forall|i: int| 0 <= i < 9 ==> g[i] == #[trigger] board@[i]@,
                row < 9,
                col < 9,
                sub_cell_x <= 6,
                sub_cell_y <= 6,
                forall|r2: int, c2: int|
                    sub_cell_x <= r2 < x && sub_cell_y <= c2 < sub_cell_y + 3 && !(r2 == row && c2
                        == col) ==> #[trigger] g[r2][c2] != num,
                forall|c2: int|
                    sub_cell_y <= c2 < y && !(x == row && c2 == col) ==> #[trigger] g[x as int][c2]
                        != num,
            decreases sub_cell_y + 3 - y,
        {
            if !(x == row && y == col) && board[x][y] == num {
                assert(sub_cell_x == row / 3 * 3 && sub_cell_y == col / 3 * 3 ==> peers(
                    row as int,
                    col as int,
                    x as int,
                    y as int,
                ));
                assert(g[x as int][y as int] == num);
                return false;
            }
            y += 1;
        }
        x += 1;
    }
    let mut x: usize = 0;
    while x < 9
        invariant
            x <= 9,
            g == grid(board@),
            is_grid(g),
            forall|i: int| 0 <= i < 9 ==> g[i] == #[trigger] board@[i]@,
            row < 9,
            col < 9,
            forall|r2: int| 0 <= r2 < x && r2 != row ==> #[trigger] g[r2][col as int] != num,
        decreases 9 - x,
    {
        if x != row && board[x][col] == num {
            assert(peers(row as int, col as int, x as int, col as int));
            assert(g[x as int][col as int] == num);
            return false;
        }
        x += 1;
    }
    let mut y: usize = 0;
    while y < 9
        invariant
            y <= 9,
            g == grid(board@),
            is_grid(g),
            forall|i: int| 0 <= i < 9 ==> g[i] == #[trigger] board@[i]@,
            row < 9,
            col < 9,
            forall|c2: int| 0 <= c2 < y && c2 != col ==> #[trigger] g[row as int][c2] != num,
        decreases 9 - y,
    {
        if y != col && board[row][y] == num {
            assert(peers(row as int, col as int, row as int, y as int));
            assert(g[row as int][y as int] == num);
            return false;
        }
        y += 1;
    }
    if sub_cell_x == row / 3 * 3 && sub_cell_y == col / 3 * 3 {
        assert forall|r2: int, c2: int|
            0 <= r2 < 9 && 0 <= c2 < 9 && peers(row as int, col as int, r2, c2) implies #[trigger] g[r2][c2]
            != num by {
            if r2 == row {
            } else if c2 == col {
            } else {
                assert(sub_cell_x <= r2 < sub_cell_x + 3);
                assert(sub_cell_y <= c2 < sub_cell_y + 3);
            }
        }
    }
    true
}

/// Checks every filled cell of `board` against its peers. Returns the first
/// conflicting cell in row-major order, or `Ok(())` when there is none.
pub fn validate_puzzle(board: &Vec<Vec<char>>) -> (r: Result<(), (usize, usize)>)
    requires
        is_grid(grid(board@)),
    ensures
        validation_outcome(grid(board@), r),
{
    let ghost g = grid(board@);
    assert(forall|i: int| 0 <= i < 9 ==> g[i] == #[trigger] board@[i]@);
    let mut row: usize = 0;
    while row < 9
        invariant
            row <= 9,
            g == grid(board@),
            is_grid(g),
            forall|i: int| 0 <= i < 9 ==> g[i] == #[trigger] board@[i]@,
            forall|r: int, c: int|
                0 <= r < row && 0 <= c < 9 ==> !#[trigger] conflict_at(g, r, c),
        decreases 9 - row,
    {
        let mut col: usize = 0;
        while col < 9
            invariant
                row < 9,
                col <= 9,
                g == grid(board@),
                is_grid(g),
                forall|i: int| 0 <= i < 9 ==> g[i] == #[trigger] board@[i]@,
                forall|r: int, c: int|
                    0 <= r < 9 && 0 <= c < 9 && (r < row || (r == row && c < col))
                        ==> !#[trigger] conflict_at(g, r, c),
            decreases 9 - col,
        {
            let c = board[row][col];
            let (root_x, root_y) = get_subcell_root(row, col);
            if c != EMPTY {
                if !valid_position(c, root_x, root_y, row, col, board) {
                    assert(conflict_at(g, row as int, col as int));
                    return Err((row, col));
                }
            }
            col += 1;
        }
        row += 1;
    }
    Ok(())
}

/// Validation has one possible outcome on a given board, so validating an
/// unchanged board again gives the same result.
pub proof fn lemma_validation_deterministic(
    g: Seq<Seq<char>>,
    r1: Result<(), (usize, usize)>,
    r2: Result<(), (usize, usize)>,
)
    requires
        validation_outcome(g, r1),
        validation_outcome(g, r2),
    ensures
        r1 == r2,
{
    match (r1, r2) {
        (Ok(_), Err((row, col))) => {
            assert(conflict_at(g, row as int, col as int));
        },
        (Err((row, col)), Ok(_)) => {
            assert(conflict_at(g, row as int, col as int));
        },
        (Err((a, b)), Err((c, d))) => {
            if before(a as int, b as int, c as int, d as int) {
                assert(conflict_at(g, a as int, b as int));
            } else if before(c as int, d as int, a as int, b as int) {
                assert(conflict_at(g, c as int, d as int));
            } else {
                assert(a == c && b == d);
            }
        },
        (Ok(u), Ok(v)) => {
            assert(u == v);
        },
    }
}

} // verus!
