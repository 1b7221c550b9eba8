//! Random boards: digits placed one at a time at random empty cells, each
//! kept only while the whole board stays consistent.

use rand::Rng;
use vstd::prelude::*;
use crate::board::{
    before, consistent, digit_char, filled_count, grid, is_digit, is_grid, lemma_empty_count,
    lemma_fill_counts_one, only_digits, put, saturated, set_cell, validation_outcome, EMPTY,
};
use crate::validate::validate_puzzle;

verus! {

/// How many random cells one placement draws before it gives up.
pub const CELL_TRIES: u32 = 1000;

/// How many random digits one placement tries in its cell before it gives up.
pub const DIGIT_TRIES: u32 = 1000;

/// Relies on rand's `Rng::gen_range` on `thread_rng()`: a value drawn from
/// `[low, high)`. It panics when `low >= high`, which `requires` rules out.
#[verifier::external_body]
fn random_in(low: u32, high: u32) -> (r: u32)
    requires
        low < high,
    ensures
        low <= r < high,
{
    rand::thread_rng().gen_range(low, high)
}

/// A board with every cell empty.
fn new_empty_board() -> (b: Vec<Vec<char>>)
    ensures
        is_grid(grid(b@)),
        forall|r: int, c: int| 0 <= r < 9 && 0 <= c < 9 ==> #[trigger] grid(b@)[r][c] == EMPTY,
{
    let mut b: Vec<Vec<char>> = Vec::with_capacity(9);
    let mut r: usize = 0;
    while r < 9
        invariant
            r <= 9,
            b@.len() == r,
            forall|i: int| 0 <= i < r ==> (#[trigger] b@[i])@.len() == 9,
            forall|i: int, c: int| 0 <= i < r && 0 <= c < 9 ==> #[trigger] b@[i]@[c] == EMPTY,
        decreases 9 - r,
    {
        let mut row: Vec<char> = Vec::with_capacity(9);
        let mut c: usize = 0;
        while c < 9
            invariant
                c <= 9,
                row@.len() == c,
                forall|j: int| 0 <= j < c ==> #[trigger] row@[j] == EMPTY,
            decreases 9 - c,
        {
            row.push(EMPTY);
            c += 1;
        }
        b.push(row);
        r += 1;
    }
    assert forall|r: int| 0 <= r < 9 implies #[trigger] grid(b@)[r] == b@[r]@ by {}
    b
}

/// Writes `digit` into the empty cell `(row, col)` and keeps it when the
/// board still validates; otherwise the cell is emptied again. Returns
/// whether the digit was kept.
pub fn try_place(board: &mut Vec<Vec<char>>, row: usize, col: usize, digit: char) -> (kept: bool)
    requires
        is_grid(grid(old(board)@)),
        row < 9,
        col < 9,
        grid(old(board)@)[row as int][col as int] == EMPTY,
    ensures
        is_grid(grid(final(board)@)),
        kept == consistent(put(grid(old(board)@), row as int, col as int, digit)),
        kept ==> grid(final(board)@) == put(grid(old(board)@), row as int, col as int, digit),
        !kept ==> grid(final(board)@) == grid(old(board)@),
{
    let ghost g0 = grid(board@);
    set_cell(board, row, col, digit);
    let ghost g1 = grid(board@);
    if validate_puzzle(board).is_ok() {
        return true;
    }
    set_cell(board, row, col, EMPTY);
    assert(put(g1, row as int, col as int, EMPTY) =~~= g0);
    false
}

/// Places the first digit that fits, trying the empty cells in row-major
/// order and the digits in ascending order. Returns whether a digit was
/// placed; it fails only on a saturated board, which it leaves as it was.
pub fn place_first_fit(board: &mut Vec<Vec<char>>) -> (placed: bool)
    requires
        is_grid(grid(old(board)@)),
        consistent(grid(old(board)@)),
        only_digits(grid(old(board)@)),
    ensures
        is_grid(grid(final(board)@)),
        consistent(grid(final(board)@)),
        only_digits(grid(final(board)@)),
        placed ==> filled_count(grid(final(board)@)) == filled_count(grid(old(board)@)) + 1,
        !placed ==> grid(final(board)@) == grid(old(board)@),
        !placed ==> saturated(grid(old(board)@)),
{
    let ghost g0 = grid(board@);
    assert(forall|i: int| 0 <= i < 9 ==> g0[i] == #[trigger] board@[i]@);
    let mut row: usize = 0;
    while row < 9
        invariant
            row <= 9,
            g0 == grid(board@),
            g0 == grid(old(board)@),
            is_grid(g0),
            consistent(g0),
            only_digits(g0),
            forall|i: int| 0 <= i < 9 ==> g0[i] == #[trigger] board@[i]@,
            forall|r: int, c: int, d: char|
                0 <= r < row && 0 <= c < 9 && g0[r][c] == EMPTY && is_digit(d) ==> !consistent(
                    #[trigger] put(g0, r, c, d),
                ),
        decreases 9 - row,
    {
        let mut col: usize = 0;
        while col < 9
            invariant
                row < 9,
                col <= 9,
                g0 == grid(board@),
                g0 == grid(old(board)@),
                is_grid(g0),
                consistent(g0),
                only_digits(g0),
                forall|i: int| 0 <= i < 9 ==> g0[i] == #[trigger] board@[i]@,
                forall|r: int, c: int, d: char|
                    0 <= r < 9 && 0 <= c < 9 && before(r, c, row as int, col as int) && g0[r][c]
                        == EMPTY && is_digit(d) ==> !consistent(#[trigger] put(g0, r, c, d)),
            decreases 9 - col,
        {
            if board[row][col] == EMPTY {
                let mut n: u8 = 1;
                while n <= 9
                    invariant
                        1 <= n <= 10,
                        row < 9,
                        col < 9,
                        g0 == grid(board@),
                        g0 == grid(old(board)@),
                        is_grid(g0),
                        consistent(g0),
                        only_digits(g0),
                        g0[row as int][col as int] == EMPTY,
                        forall|i: int| 0 <= i < 9 ==> g0[i] == #[trigger] board@[i]@,
                        forall|r: int, c: int, d: char|
                            0 <= r < 9 && 0 <= c < 9 && before(r, c, row as int, col as int)
                                && g0[r][c] == EMPTY && is_digit(d) ==> !consistent(
                                #[trigger] put(g0, r, c, d),
                            ),
                        forall|d: char|
                            is_digit(d) && (d as int) < n + '0' as int ==> !consistent(
                                #[trigger] put(g0, row as int, col as int, d),
                            ),
                    decreases 10 - n,
                {
                    let d = digit_char(n);
                    if try_place(board, row, col, d) {
                        proof {
                            lemma_fill_counts_one(g0, row as int, col as int, d);
                            lemma_put_digit(g0, row as int, col as int, d);
                        }
                        return true;
                    }
                    n += 1;
                }
            }
            col += 1;
        }
        row += 1;
    }
    false
}

/// Writing a digit keeps every cell empty or a digit.
proof fn lemma_put_digit(g: Seq<Seq<char>>, r: int, c: int, d: char)
    requires
        is_grid(g),
        only_digits(g),
        0 <= r < 9,
        0 <= c < 9,
        is_digit(d),
    ensures
        only_digits(put(g, r, c, d)),
{
    let g1 = put(g, r, c, d);
    assert forall|r2: int, c2: int| 0 <= r2 < 9 && 0 <= c2 < 9 implies #[trigger] g1[r2][c2]
        == EMPTY || is_digit(g1[r2][c2]) by {
        if !(r2 == r && c2 == c) {
            assert(g1[r2][c2] == g[r2][c2]);
        }
    }
}

/// Places one digit: draws random cells until one is empty, then random
/// digits for it until the board validates. Where either search runs out of
/// tries, it places the first digit that fits in row-major order instead.
/// Returns whether a digit was placed; that fails only on a saturated board,
/// which is left as it was.
pub fn place_random_digit(board: &mut Vec<Vec<char>>) -> (placed: bool)
    requires
        is_grid(grid(old(board)@)),
        consistent(grid(old(board)@)),
        only_digits(grid(old(board)@)),
    ensures
        is_grid(grid(final(board)@)),
        consistent(grid(final(board)@)),
        only_digits(grid(final(board)@)),
        placed ==> filled_count(grid(final(board)@)) == filled_count(grid(old(board)@)) + 1,
        !placed ==> grid(final(board)@) == grid(old(board)@),
        !placed ==> saturated(grid(old(board)@)),
{
    let ghost g0 = grid(board@);
    assert(forall|i: int| 0 <= i < 9 ==> g0[i] == #[trigger] board@[i]@);
    let mut found = false;
    let mut row: usize = 0;
    let mut col: usize = 0;
    let mut tries: u32 = 0;
    while !found && tries < CELL_TRIES
        invariant
            g0 == grid(board@),
            is_grid(g0),
            forall|i: int| 0 <= i < 9 ==> g0[i] == #[trigger] board@[i]@,
            tries <= CELL_TRIES,
            found ==> row < 9 && col < 9 && g0[row as int][col as int] == EMPTY,
        decreases CELL_TRIES - tries,
    {
        let r = random_in(0, 9) as usize;
        let c = random_in(0, 9) as usize;
        if board[r][c] == EMPTY {
            row = r;
            col = c;
            found = true;
        }
        tries += 1;
    }
    if found {
        let mut digit_tries: u32 = 0;
        while digit_tries < DIGIT_TRIES
            invariant
                g0 == grid(board@),
                g0 == grid(old(board)@),
                is_grid(g0),
                consistent(g0),
                only_digits(g0),
                row < 9,
                col < 9,
                g0[row as int][col as int] == EMPTY,
            decreases DIGIT_TRIES - digit_tries,
        {
            let d = digit_char(random_in(1, 10) as u8);
            if try_place(board, row, col, d) {
                proof {
                    lemma_fill_counts_one(g0, row as int, col as int, d);
                    lemma_put_digit(g0, row as int, col as int, d);
                }
                return true;
            }
            digit_tries += 1;
        }
    }
    place_first_fit(board)
}

/// Generates a board whose filled cells never conflict. A target count is
/// drawn from `[min, max)` and digits are placed one at a time until the
/// board holds that many, or until no empty cell can take a digit.
pub fn generate_puzzle(min: u32, max: u32) -> (b: Vec<Vec<char>>)
    requires
        min < max,
    ensures
        is_grid(grid(b@)),
        only_digits(grid(b@)),
        validation_outcome(grid(b@), Ok(())),
        filled_count(grid(b@)) < max,
        min <= filled_count(grid(b@)) || saturated(grid(b@)),
{
    let numbers_to_generate = random_in(min, max);
    let mut board = new_empty_board();
    proof {
        lemma_empty_count(grid(board@));
    }
    let mut i: u32 = 0;
    let mut stuck = false;
    while i < numbers_to_generate && !stuck
        invariant
            min <= numbers_to_generate < max,
            i <= numbers_to_generate,
            is_grid(grid(board@)),
            consistent(grid(board@)),
            only_digits(grid(board@)),
            filled_count(grid(board@)) == i,
            stuck ==> saturated(grid(board@)),
        decreases numbers_to_generate - i + if stuck {
            0int
        } else {
            1int
        },
    {
        if place_random_digit(&mut board) {
            i += 1;
        } else {
            stuck = true;
        }
    }
    board
}

} // verus!
