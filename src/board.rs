//! The mathematical model of a board, and the facts about it that the
//! solver, the validator and the generator share.

use vstd::prelude::*;

verus! {

/// The character that marks an empty cell.
pub const EMPTY: char = '.';

/// The model of a board: row `r` of `grid(b)` is the view of `b[r]`.
pub open spec fn grid(b: Seq<Vec<char>>) -> Seq<Seq<char>> {
    b.map_values(|row: Vec<char>| row@)
}

/// Nine rows of nine cells.
pub open spec fn is_grid(g: Seq<Seq<char>>) -> bool {
    &&& g.len() == 9
    &&& forall|r: int| 0 <= r < 9 ==> #[trigger] g[r].len() == 9
}

pub open spec fn is_digit(ch: char) -> bool {
    '1' as int <= ch as int <= '9' as int
}

/// `(r2, c2)` is another cell of the row, the column or the 3x3 box of `(r1, c1)`.
pub open spec fn peers(r1: int, c1: int, r2: int, c2: int) -> bool {
    &&& !(r1 == r2 && c1 == c2)
    &&& (r1 == r2 || c1 == c2 || (r1 / 3 == r2 / 3 && c1 / 3 == c2 / 3))
}

/// No peer of `(r, c)` holds `d`; the cell itself is not looked at.
pub open spec fn fits(g: Seq<Seq<char>>, d: char, r: int, c: int) -> bool {
    forall|r2: int, c2: int|
        0 <= r2 < 9 && 0 <= c2 < 9 && peers(r, c, r2, c2) ==> #[trigger] g[r2][c2] != d
}

/// No cell of the 3x3 block with top-left cell `(sx, sy)`, of row `r` or of
/// column `c`, other than `(r, c)` itself, holds `d`.
pub open spec fn clear_of(g: Seq<Seq<char>>, d: char, r: int, c: int, sx: int, sy: int) -> bool {
    &&& forall|r2: int, c2: int|
        sx <= r2 < sx + 3 && sy <= c2 < sy + 3 && !(r2 == r && c2 == c) ==> #[trigger] g[r2][c2]
            != d
    &&& forall|r2: int| 0 <= r2 < 9 && r2 != r ==> #[trigger] g[r2][c] != d
    &&& forall|c2: int| 0 <= c2 < 9 && c2 != c ==> #[trigger] g[r][c2] != d
}

/// The cell `(r, c)` is filled and a peer holds the same character.
pub open spec fn conflict_at(g: Seq<Seq<char>>, r: int, c: int) -> bool {
    g[r][c] != EMPTY && !fits(g, g[r][c], r, c)
}

/// No filled cell conflicts with a peer.
pub open spec fn consistent(g: Seq<Seq<char>>) -> bool {
    forall|r: int, c: int| 0 <= r < 9 && 0 <= c < 9 ==> !#[trigger] conflict_at(g, r, c)
}

/// `(r1, c1)` comes before `(r2, c2)` in row-major order.
pub open spec fn before(r1: int, c1: int, r2: int, c2: int) -> bool {
    r1 < r2 || (r1 == r2 && c1 < c2)
}

/// `res` is what validating `g` must give: the first conflicting cell in
/// row-major order, or `Ok` when there is none.
pub open spec fn validation_outcome(g: Seq<Seq<char>>, res: Result<(), (usize, usize)>) -> bool {
    match res {
        Ok(_) => consistent(g),
        Err((row, col)) => {
            &&& row < 9
            &&& col < 9
            &&& conflict_at(g, row as int, col as int)
            &&& forall|r: int, c: int|
                0 <= r < 9 && 0 <= c < 9 && before(r, c, row as int, col as int)
                    ==> !#[trigger] conflict_at(g, r, c)
        },
    }
}

/// `s` completes `g`: it keeps every filled cell of `g`, and puts in each
/// empty cell of `g` a digit that no peer of that cell holds in `s`.
pub open spec fn is_completion(g: Seq<Seq<char>>, s: Seq<Seq<char>>) -> bool {
    &&& is_grid(s)
    &&& forall|r: int, c: int|
        0 <= r < 9 && 0 <= c < 9 && g[r][c] != EMPTY ==> #[trigger] s[r][c] == g[r][c]
    &&& forall|r: int, c: int|
        0 <= r < 9 && 0 <= c < 9 && g[r][c] == EMPTY ==> is_digit(#[trigger] s[r][c]) && fits(
            s,
            s[r][c],
            r,
            c,
        )
}

/// Some assignment of digits to the empty cells of `g` completes it.
pub open spec fn solvable(g: Seq<Seq<char>>) -> bool {
    exists|s: Seq<Seq<char>>| is_completion(g, s)
}

/// The positions of the empty cells among the first `n` cells of `g`, in
/// row-major order.
pub open spec fn empty_cells_upto(g: Seq<Seq<char>>, n: int) -> Seq<(int, int)>
    decreases n,
{
    if n <= 0 {
        Seq::empty()
    } else if g[(n - 1) / 9][(n - 1) % 9] == EMPTY {
        empty_cells_upto(g, n - 1).push(((n - 1) / 9, (n - 1) % 9))
    } else {
        empty_cells_upto(g, n - 1)
    }
}

/// The positions of the empty cells of `g`, in row-major order.
pub open spec fn empty_cells(g: Seq<Seq<char>>) -> Seq<(int, int)> {
    empty_cells_upto(g, 81)
}

/// Read at the positions `ps[k..]` in turn, `a` is no greater than `b`: at
/// the first position where they differ, `a` holds the smaller character.
pub open spec fn lex_le_from(
    a: Seq<Seq<char>>,
    b: Seq<Seq<char>>,
    ps: Seq<(int, int)>,
    k: int,
) -> bool
    decreases ps.len() - k,
{
    if k < 0 || k >= ps.len() {
        true
    } else {
        let (r, c) = ps[k];
        (a[r][c] as int) < (b[r][c] as int) || (a[r][c] == b[r][c] && lex_le_from(a, b, ps, k + 1))
    }
}

/// Every cell is empty or holds a digit.
pub open spec fn only_digits(g: Seq<Seq<char>>) -> bool {
    forall|r: int, c: int|
        0 <= r < 9 && 0 <= c < 9 ==> #[trigger] g[r][c] == EMPTY || is_digit(g[r][c])
}

/// No empty cell of `g` can take a digit without a clash.
pub open spec fn saturated(g: Seq<Seq<char>>) -> bool {
    forall|r: int, c: int, d: char|
        0 <= r < 9 && 0 <= c < 9 && g[r][c] == EMPTY && is_digit(d) ==> !consistent(
            #[trigger] put(g, r, c, d),
        )
}

/// `g` with the cell `(r, c)` set to `v`.
pub open spec fn put(g: Seq<Seq<char>>, r: int, c: int, v: char) -> Seq<Seq<char>> {
    g.update(r, g[r].update(c, v))
}

/// The number of filled cells among the first `n` cells of `row`.
pub open spec fn filled_in_row(row: Seq<char>, n: int) -> nat
    decreases n,
{
    if n <= 0 {
        0
    } else {
        filled_in_row(row, n - 1) + if row[n - 1] != EMPTY {
            1nat
        } else {
            0nat
        }
    }
}

/// The number of filled cells in the first `n` rows of `g`.
pub open spec fn filled_in_rows(g: Seq<Seq<char>>, n: int) -> nat
    decreases n,
{
    if n <= 0 {
        0
    } else {
        filled_in_rows(g, n - 1) + filled_in_row(g[n - 1], 9)
    }
}

/// The number of filled cells of a board.
pub open spec fn filled_count(g: Seq<Seq<char>>) -> nat {
    filled_in_rows(g, 9)
}

proof fn lemma_row_fill(row: Seq<char>, c: int, v: char, n: int)
    requires
        0 <= c < row.len(),
        0 <= n <= row.len(),
        row[c] == EMPTY,
        v != EMPTY,
    ensures
        filled_in_row(row.update(c, v), n) == filled_in_row(row, n) + if c < n {
            1int
        } else {
            0int
        },
    decreases n,
{
    if n > 0 {
        lemma_row_fill(row, c, v, n - 1);
    }
}

proof fn lemma_rows_replace(g: Seq<Seq<char>>, r: int, new_row: Seq<char>, n: int)
    requires
        0 <= r < g.len(),
        0 <= n <= g.len(),
    ensures
        filled_in_rows(g.update(r, new_row), n) == filled_in_rows(g, n) + if r < n {
            filled_in_row(new_row, 9) - filled_in_row(g[r], 9)
        } else {
            0int
        },
    decreases n,
{
    if n > 0 {
        lemma_rows_replace(g, r, new_row, n - 1);
    }
}

/// Filling one empty cell adds one to the count of filled cells.
pub proof fn lemma_fill_counts_one(g: Seq<Seq<char>>, r: int, c: int, v: char)
    requires
        is_grid(g),
        0 <= r < 9,
        0 <= c < 9,
        g[r][c] == EMPTY,
        v != EMPTY,
    ensures
        filled_count(put(g, r, c, v)) == filled_count(g) + 1,
{
    lemma_row_fill(g[r], c, v, 9);
    lemma_rows_replace(g, r, g[r].update(c, v), 9);
}

proof fn lemma_empty_rows_count(g: Seq<Seq<char>>, n: int)
    requires
        is_grid(g),
        0 <= n <= 9,
        forall|r: int, c: int| 0 <= r < 9 && 0 <= c < 9 ==> #[trigger] g[r][c] == EMPTY,
    ensures
        filled_in_rows(g, n) == 0,
    decreases n,
{
    if n > 0 {
        lemma_empty_rows_count(g, n - 1);
        lemma_empty_row_count(g[n - 1], 9);
    }
}

proof fn lemma_empty_row_count(row: Seq<char>, n: int)
    requires
        0 <= n <= row.len(),
        forall|c: int| 0 <= c < row.len() ==> #[trigger] row[c] == EMPTY,
    ensures
        filled_in_row(row, n) == 0,
    decreases n,
{
    if n > 0 {
        lemma_empty_row_count(row, n - 1);
    }
}

/// A board of empty cells has no filled cell.
pub proof fn lemma_empty_count(g: Seq<Seq<char>>)
    requires
        is_grid(g),
        forall|r: int, c: int| 0 <= r < 9 && 0 <= c < 9 ==> #[trigger] g[r][c] == EMPTY,
    ensures
        filled_count(g) == 0,
{
    lemma_empty_rows_count(g, 9);
}

/// The character of the digit `n`.
pub fn digit_char(n: u8) -> (d: char)
    requires
        1 <= n <= 9,
    ensures
        is_digit(d),
        d as int == n + '0' as int,
{
    (n + '0' as u8) as char
}

/// Writes `v` into the cell `(r, c)` of `board`.
pub fn set_cell(board: &mut Vec<Vec<char>>, r: usize, c: usize, v: char)
    requires
        is_grid(grid(old(board)@)),
        r < 9,
        c < 9,
    ensures
        grid(final(board)@) == put(grid(old(board)@), r as int, c as int, v),
{
    assert(grid(old(board)@)[r as int] == old(board)@[r as int]@);
    board[r][c] = v;
    assert(grid(board@) =~= put(grid(old(board)@), r as int, c as int, v));
}

} // verus!
