//! Depth-first backtracking over the empty cells of a board.

use vstd::prelude::*;
use crate::board::{
    before, conflict_at, consistent, digit_char, empty_cells, empty_cells_upto, fits, grid, is_completion,
    is_digit, is_grid, lex_le_from, peers, put, set_cell, solvable, validation_outcome, EMPTY,
};
use crate::validate::{get_subcell_root, valid_position, validate_puzzle};

verus! {

/// The position of a cell that was empty when the search began.
#[derive(Debug, Clone, Copy)]
pub struct EmptyCell {
    pub row: usize,
    pub col: usize,
}

/// The positions that `cells` lists.
pub open spec fn positions(cells: Seq<EmptyCell>) -> Seq<(int, int)> {
    cells.map_values(|e: EmptyCell| (e.row as int, e.col as int))
}

/// The cell `(r, c)` is among `cells[idx..]`.
pub open spec fn listed(cells: Seq<EmptyCell>, idx: int, r: int, c: int) -> bool {
    exists|k: int| idx <= k < cells.len() && (#[trigger] cells[k]).row == r && cells[k].col == c
}

/// From `idx` on, `cells` lists distinct empty cells of `g`.
pub open spec fn cells_open(g: Seq<Seq<char>>, cells: Seq<EmptyCell>, idx: int) -> bool {
    &&& 0 <= idx <= cells.len()
    &&& forall|k: int|
        idx <= k < cells.len() ==> {
            &&& (#[trigger] cells[k]).row < 9
            &&& cells[k].col < 9
            &&& g[cells[k].row as int][cells[k].col as int] == EMPTY
        }
    &&& forall|k1: int, k2: int|
        idx <= k1 < k2 < cells.len() ==> !(#[trigger] cells[k1].row == #[trigger] cells[k2].row
            && cells[k1].col == cells[k2].col)
}

/// Every empty cell of `g` is among `cells[idx..]`.
pub open spec fn all_listed(g: Seq<Seq<char>>, cells: Seq<EmptyCell>, idx: int) -> bool {
    forall|r: int, c: int|
        0 <= r < 9 && 0 <= c < 9 && #[trigger] g[r][c] == EMPTY ==> listed(cells, idx, r, c)
}

/// `s` fills the cells `cells[idx..]` of `g`: every other cell keeps its
/// content, and each listed cell holds a digit that no peer holds in `s`.
pub open spec fn fills(
    g: Seq<Seq<char>>,
    s: Seq<Seq<char>>,
    cells: Seq<EmptyCell>,
    idx: int,
) -> bool {
    &&& is_grid(s)
    &&& forall|r: int, c: int|
        0 <= r < 9 && 0 <= c < 9 && !listed(cells, idx, r, c) ==> #[trigger] s[r][c] == g[r][c]
    &&& forall|k: int|
        idx <= k < cells.len() ==> {
            &&& is_digit(s[(#[trigger] cells[k]).row as int][cells[k].col as int])
            &&& fits(
                s,
                s[cells[k].row as int][cells[k].col as int],
                cells[k].row as int,
                cells[k].col as int,
            )
        }
}

/// Some choice of digits for `cells[idx..]` fills them in `g`.
pub open spec fn fillable(g: Seq<Seq<char>>, cells: Seq<EmptyCell>, idx: int) -> bool {
    exists|s: Seq<Seq<char>>| fills(g, s, cells, idx)
}

/// A filling of `cells[idx..]` that holds `s[p]` at the first listed cell
/// `p` fills the rest once `p` is written.
proof fn lemma_fill_step(g: Seq<Seq<char>>, cells: Seq<EmptyCell>, idx: int, s: Seq<Seq<char>>)
    requires
        is_grid(g),
        cells_open(g, cells, idx),
        idx < cells.len(),
        fills(g, s, cells, idx),
    ensures
        fills(
            put(g, cells[idx].row as int, cells[idx].col as int, s[cells[idx].row as int][cells[idx].col as int]),
            s,
            cells,
            idx + 1,
        ),
{
    let p = cells[idx];
    let g1 = put(g, p.row as int, p.col as int, s[p.row as int][p.col as int]);
    assert forall|r: int, c: int|
        0 <= r < 9 && 0 <= c < 9 && !listed(cells, idx + 1, r, c) implies #[trigger] s[r][c]
        == g1[r][c] by {
        if r == p.row && c == p.col {
        } else {
            assert(g1[r][c] == g[r][c]);
            if listed(cells, idx, r, c) {
                let k = choose|k: int|
                    idx <= k < cells.len() && (#[trigger] cells[k]).row == r && cells[k].col == c;
                assert(k != idx);
                assert(listed(cells, idx + 1, r, c));
            }
        }
    }
}

/// A filling of `cells[idx + 1..]` in `g` with the digit `d` written at the
/// first listed cell `p`, where no peer of `p` in `g` holds `d`, fills
/// `cells[idx..]` in `g`.
proof fn lemma_fill_back(
    g: Seq<Seq<char>>,
    cells: Seq<EmptyCell>,
    idx: int,
    d: char,
    s: Seq<Seq<char>>,
)
    requires
        is_grid(g),
        cells_open(g, cells, idx),
        idx < cells.len(),
        is_digit(d),
        fits(g, d, cells[idx].row as int, cells[idx].col as int),
        fills(put(g, cells[idx].row as int, cells[idx].col as int, d), s, cells, idx + 1),
    ensures
        fills(g, s, cells, idx),
{
    let p = cells[idx];
    let (pr, pc) = (p.row as int, p.col as int);
    let g1 = put(g, pr, pc, d);
    assert(!listed(cells, idx + 1, pr, pc)) by {
        if listed(cells, idx + 1, pr, pc) {
            let k = choose|k: int|
                idx + 1 <= k < cells.len() && (#[trigger] cells[k]).row == pr && cells[k].col == pc;
            assert(cells[idx].row == cells[k].row);
        }
    }
    assert(s[pr][pc] == d) by {
        assert(g1[pr][pc] == d);
    }
    assert forall|r: int, c: int|
        0 <= r < 9 && 0 <= c < 9 && !listed(cells, idx, r, c) implies #[trigger] s[r][c]
        == g[r][c] by {
        if listed(cells, idx + 1, r, c) {
            let k = choose|k: int|
                idx + 1 <= k < cells.len() && (#[trigger] cells[k]).row == r && cells[k].col == c;
            assert(listed(cells, idx, r, c));
        }
        assert(cells[idx].row == pr);
        assert(!(r == pr && c == pc));
        assert(g1[r][c] == g[r][c]);
    }
    assert forall|r3: int, c3: int|
        0 <= r3 < 9 && 0 <= c3 < 9 && peers(pr, pc, r3, c3) implies #[trigger] s[r3][c3] != d by {
        if listed(cells, idx + 1, r3, c3) {
            let k = choose|k: int|
                idx + 1 <= k < cells.len() && (#[trigger] cells[k]).row == r3 && cells[k].col == c3;
            assert(fits(s, s[r3][c3], r3, c3));
            assert(peers(r3, c3, pr, pc));
        } else {
            assert(g1[r3][c3] == g[r3][c3]);
        }
    }
    assert forall|k: int| idx <= k < cells.len() implies {
        &&& is_digit(s[(#[trigger] cells[k]).row as int][cells[k].col as int])
        &&& fits(
            s,
            s[cells[k].row as int][cells[k].col as int],
            cells[k].row as int,
            cells[k].col as int,
        )
    } by {
        if k == idx {
        }
    }
}

/// Where a peer of the first listed cell `p` holds `d` in `g`, no filling of
/// `cells[idx..]` puts `d` at `p`.
proof fn lemma_fill_blocked(
    g: Seq<Seq<char>>,
    cells: Seq<EmptyCell>,
    idx: int,
    d: char,
    s: Seq<Seq<char>>,
)
    requires
        is_grid(g),
        cells_open(g, cells, idx),
        idx < cells.len(),
        is_digit(d),
        !fits(g, d, cells[idx].row as int, cells[idx].col as int),
        fills(g, s, cells, idx),
    ensures
        s[cells[idx].row as int][cells[idx].col as int] != d,
{
    let p = cells[idx];
    let (pr, pc) = (p.row as int, p.col as int);
    let (r2, c2) = choose|r2: int, c2: int|
        0 <= r2 < 9 && 0 <= c2 < 9 && peers(pr, pc, r2, c2) && #[trigger] g[r2][c2] == d;
    if listed(cells, idx, r2, c2) {
        let k = choose|k: int|
            idx <= k < cells.len() && (#[trigger] cells[k]).row == r2 && cells[k].col == c2;
        assert(g[r2][c2] == EMPTY);
    }
    assert(s[r2][c2] == g[r2][c2]);
    assert(fits(s, s[pr][pc], pr, pc));
}

/// Filling the first listed cell moves the list on by one.
proof fn lemma_cells_advance(g: Seq<Seq<char>>, cells: Seq<EmptyCell>, idx: int, d: char)
    requires
        is_grid(g),
        cells_open(g, cells, idx),
        idx < cells.len(),
    ensures
        cells_open(put(g, cells[idx].row as int, cells[idx].col as int, d), cells, idx + 1),
{
    let p = cells[idx];
    let g1 = put(g, p.row as int, p.col as int, d);
    assert forall|k: int| idx + 1 <= k < cells.len() implies {
        &&& (#[trigger] cells[k]).row < 9
        &&& cells[k].col < 9
        &&& g1[cells[k].row as int][cells[k].col as int] == EMPTY
    } by {
        assert(cells[idx].row == cells[k].row ==> cells[idx].col != cells[k].col);
    }
}

/// Where `cells` lists every empty cell of `g`, each once, filling the
/// listed cells is completing the board.
proof fn lemma_fills_complete(g: Seq<Seq<char>>, cells: Seq<EmptyCell>, s: Seq<Seq<char>>)
    requires
        is_grid(g),
        cells_open(g, cells, 0),
        all_listed(g, cells, 0),
    ensures
        fills(g, s, cells, 0) == is_completion(g, s),
{
    if fills(g, s, cells, 0) {
        assert forall|r: int, c: int|
            0 <= r < 9 && 0 <= c < 9 && g[r][c] != EMPTY implies #[trigger] s[r][c] == g[r][c] by {
            if listed(cells, 0, r, c) {
                let k = choose|k: int|
                    0 <= k < cells.len() && (#[trigger] cells[k]).row == r && cells[k].col == c;
            }
        }
        assert forall|r: int, c: int|
            0 <= r < 9 && 0 <= c < 9 && g[r][c] == EMPTY implies is_digit(#[trigger] s[r][c])
            && fits(s, s[r][c], r, c) by {
            assert(listed(cells, 0, r, c));
            let k = choose|k: int|
                0 <= k < cells.len() && (#[trigger] cells[k]).row == r && cells[k].col == c;
        }
    }
    if is_completion(g, s) {
        assert forall|r: int, c: int|
            0 <= r < 9 && 0 <= c < 9 && !listed(cells, 0, r, c) implies #[trigger] s[r][c]
            == g[r][c] by {
            if g[r][c] == EMPTY {
                assert(listed(cells, 0, r, c));
            }
        }
        assert forall|k: int| 0 <= k < cells.len() implies {
            &&& is_digit(s[(#[trigger] cells[k]).row as int][cells[k].col as int])
            &&& fits(
                s,
                s[cells[k].row as int][cells[k].col as int],
                cells[k].row as int,
                cells[k].col as int,
            )
        } by {
            assert(g[cells[k].row as int][cells[k].col as int] == EMPTY);
        }
    }
}

/// Tries the digits `1` to `9`, in that order, at `cells[idx]`, and for each
/// one that fits goes on with the next cell. Returns whether digits can be
/// chosen for `cells[idx..]` so that each fits among its peers. On success
/// the board holds the first such choice when the listed cells are read in
/// order; on failure it is as it was. Cells that are not listed are never
/// changed.
pub fn calculate_value(idx: usize, cells: &Vec<EmptyCell>, board: &mut Vec<Vec<char>>) -> (r: bool)
    requires
        is_grid(grid(old(board)@)),
        cells_open(grid(old(board)@), cells@, idx as int),
    ensures
        is_grid(grid(final(board)@)),
        r == fillable(grid(old(board)@), cells@, idx as int),
        r ==> fills(grid(old(board)@), grid(final(board)@), cells@, idx as int),
        r ==> forall|s: Seq<Seq<char>>| #[trigger]
            fills(grid(old(board)@), s, cells@, idx as int) ==> lex_le_from(
                grid(final(board)@),
                s,
                positions(cells@),
                idx as int,
            ),
        !r ==> grid(final(board)@) == grid(old(board)@),
    decreases cells@.len() - idx,
{
    let ghost g0 = grid(board@);
    if idx == cells.len() {
        assert(fills(g0, g0, cells@, idx as int));
        return true;
    }
    let cell = cells[idx];
    let row = cell.row;
    let col = cell.col;
    let next = idx + 1;
    let (sub_cell_x, sub_cell_y) = get_subcell_root(row, col);
    let mut n: u8 = 1;
    while n <= 9
        invariant
            1 <= n <= 10,
            grid(board@) == g0,
            g0 == grid(old(board)@),
            is_grid(g0),
            cells_open(g0, cells@, idx as int),
            idx < cells@.len(),
            next == idx + 1,
            row == cells@[idx as int].row,
            col == cells@[idx as int].col,
            row < 9,
            col < 9,
            g0[row as int][col as int] == EMPTY,
            sub_cell_x == row / 3 * 3,
            sub_cell_y == col / 3 * 3,
            forall|s: Seq<Seq<char>>|
                #[trigger] fills(g0, s, cells@, idx as int) ==> s[row as int][col as int] as int
                    >= n + '0' as int,
        decreases 10 - n,
    {
        let d = digit_char(n);
        if valid_position(d, sub_cell_x, sub_cell_y, row, col, board) {
            set_cell(board, row, col, d);
            proof {
                lemma_cells_advance(g0, cells@, idx as int, d);
            }
            let ghost g1 = grid(board@);
            if calculate_value(next, cells, board) {
                proof {
                    let fin = grid(board@);
                    lemma_fill_back(g0, cells@, idx as int, d, fin);
                    assert(fin[row as int][col as int] == d) by {
                        assert(g1[row as int][col as int] == d);
                    }
                    assert(positions(cells@)[idx as int] == (row as int, col as int));
                    assert forall|s: Seq<Seq<char>>| #[trigger]
                        fills(g0, s, cells@, idx as int) implies lex_le_from(
                        fin,
                        s,
                        positions(cells@),
                        idx as int,
                    ) by {
                        if s[row as int][col as int] == d {
                            lemma_fill_step(g0, cells@, idx as int, s);
                            assert(fills(g1, s, cells@, idx + 1));
                        }
                    }
                }
                return true;
            }
            assert forall|s: Seq<Seq<char>>| #[trigger]
                fills(g0, s, cells@, idx as int) implies s[row as int][col as int] as int >= n + 1
                + '0' as int by {
                if s[row as int][col as int] == d {
                    lemma_fill_step(g0, cells@, idx as int, s);
                    assert(fills(g1, s, cells@, idx + 1));
                    assert(false);
                }
            }
            set_cell(board, row, col, EMPTY);
            assert(put(g1, row as int, col as int, EMPTY) =~~= g0);
        } else {
            assert forall|s: Seq<Seq<char>>| #[trigger]
                fills(g0, s, cells@, idx as int) implies s[row as int][col as int] as int >= n + 1
                + '0' as int by {
                lemma_fill_blocked(g0, cells@, idx as int, d, s);
            }
        }
        n += 1;
    }
    assert(!fillable(g0, cells@, idx as int)) by {
        if fillable(g0, cells@, idx as int) {
            let s = choose|s: Seq<Seq<char>>| fills(g0, s, cells@, idx as int);
            assert(cells@[idx as int].row == row);
            assert(is_digit(s[row as int][col as int]));
        }
    }
    false
}

/// Fills the empty cells of `board` by backtracking and returns whether it
/// succeeded. A board whose given digits already clash is refused. On
/// success the board holds the completion that comes first when the empty
/// cells are read in row-major order; on failure it is left as it was.
pub fn solve(board: &mut Vec<Vec<char>>) -> (r: bool)
    requires
        is_grid(grid(old(board)@)),
    ensures
        is_grid(grid(final(board)@)),
        r == (consistent(grid(old(board)@)) && solvable(grid(old(board)@))),
        r ==> is_completion(grid(old(board)@), grid(final(board)@)),
        r ==> forall|s: Seq<Seq<char>>| #[trigger]
            is_completion(grid(old(board)@), s) ==> lex_le_from(
                grid(final(board)@),
                s,
                empty_cells(grid(old(board)@)),
                0,
            ),
        !r ==> grid(final(board)@) == grid(old(board)@),
{
    let ghost g = grid(board@);
    if validate_puzzle(board).is_err() {
        return false;
    }
    let mut available_cells: Vec<EmptyCell> = Vec::with_capacity(81);
    let mut row: usize = 0;
    while row < 9
        invariant
            row <= 9,
            g == grid(board@),
            is_grid(g),
            positions(available_cells@) == empty_cells_upto(g, row * 9),
            forall|i: int| 0 <= i < 9 ==> g[i] == #[trigger] board@[i]@,
            forall|k: int|
                0 <= k < available_cells@.len() ==> {
                    &&& (#[trigger] available_cells@[k]).row < row
                    &&& available_cells@[k].col < 9
                    &&& g[available_cells@[k].row as int][available_cells@[k].col as int] == EMPTY
                },
            forall|k1: int, k2: int|
                0 <= k1 < k2 < available_cells@.len() ==> before(
                    (#[trigger] available_cells@[k1]).row as int,
                    available_cells@[k1].col as int,
                    (#[trigger] available_cells@[k2]).row as int,
                    available_cells@[k2].col as int,
                ),
            forall|r: int, c: int|
                0 <= r < row && 0 <= c < 9 && #[trigger] g[r][c] == EMPTY ==> exists|k: int|
                    0 <= k < available_cells@.len() && (#[trigger] available_cells@[k]).row == r
                        && available_cells@[k].col == c,
        decreases 9 - row,
    {
        let mut col: usize = 0;
        while col < 9
            invariant
                row < 9,
                col <= 9,
                g == grid(board@),
                is_grid(g),
                positions(available_cells@) == empty_cells_upto(g, row * 9 + col),
                forall|i: int| 0 <= i < 9 ==> g[i] == #[trigger] board@[i]@,
                forall|k: int|
                    0 <= k < available_cells@.len() ==> {
                        &&& before(
                            (#[trigger] available_cells@[k]).row as int,
                            available_cells@[k].col as int,
                            row as int,
                            col as int,
                        )
                        &&& available_cells@[k].col < 9
                        &&& g[available_cells@[k].row as int][available_cells@[k].col as int]
                            == EMPTY
                    },
                forall|k1: int, k2: int|
                    0 <= k1 < k2 < available_cells@.len() ==> before(
                        (#[trigger] available_cells@[k1]).row as int,
                        available_cells@[k1].col as int,
                        (#[trigger] available_cells@[k2]).row as int,
                        available_cells@[k2].col as int,
                    ),
                forall|r: int, c: int|
                    0 <= r < 9 && 0 <= c < 9 && before(r, c, row as int, col as int)
                        && #[trigger] g[r][c] == EMPTY ==> exists|k: int|
                        0 <= k < available_cells@.len() && (#[trigger] available_cells@[k]).row
                            == r && available_cells@[k].col == c,
            decreases 9 - col,
        {
            let c = board[row][col];
            assert((row * 9 + col) / 9 == row && (row * 9 + col) % 9 == col as int);
            if c == EMPTY {
                let ghost prev = available_cells@;
                available_cells.push(EmptyCell { row, col });
                assert(available_cells@[prev.len() as int] == EmptyCell { row, col });
                assert forall|r: int, c2: int|
                    0 <= r < 9 && 0 <= c2 < 9 && before(r, c2, row as int, col as int + 1)
                        && #[trigger] g[r][c2] == EMPTY implies exists|k: int|
                        0 <= k < available_cells@.len() && (#[trigger] available_cells@[k]).row
                            == r && available_cells@[k].col == c2 by {
                    if r == row && c2 == col {
                        assert(available_cells@[prev.len() as int].row == r);
                    } else {
                        let k = choose|k: int|
                            0 <= k < prev.len() && (#[trigger] prev[k]).row == r && prev[k].col
                                == c2;
                        assert(available_cells@[k] == prev[k]);
                    }
                }
                assert(positions(available_cells@) =~= empty_cells_upto(g, row * 9 + col + 1));
            }
            col += 1;
        }
        row += 1;
    }
    assert(positions(available_cells@) == empty_cells(g));
    assert(all_listed(g, available_cells@, 0));
    let ok = calculate_value(0, &available_cells, board);
    assert forall|s: Seq<Seq<char>>|
        #[trigger] fills(g, s, available_cells@, 0) == is_completion(g, s) by {
        lemma_fills_complete(g, available_cells@, s);
    }
    proof {
        if solvable(g) {
            let s = choose|s: Seq<Seq<char>>| is_completion(g, s);
            assert(fills(g, s, available_cells@, 0));
        }
        if ok {
            assert forall|s: Seq<Seq<char>>| #[trigger] is_completion(g, s) implies lex_le_from(
                grid(board@),
                s,
                empty_cells(g),
                0,
            ) by {
                lemma_fills_complete(g, available_cells@, s);
            }
        }
    }
    ok
}

/// Solves `board` in place, with the completion that comes first when the
/// empty cells are read in row-major order. Where the given digits already
/// clash, or the board has no completion, it is left as it was.
pub fn solve_puzzle(board: &mut Vec<Vec<char>>)
    requires
        is_grid(grid(old(board)@)),
    ensures
        is_grid(grid(final(board)@)),
        consistent(grid(old(board)@)) && solvable(grid(old(board)@)) ==> is_completion(
            grid(old(board)@),
            grid(final(board)@),
        ),
        consistent(grid(old(board)@)) && solvable(grid(old(board)@)) ==> forall|s: Seq<Seq<char>>| #[trigger]
            is_completion(grid(old(board)@), s) ==> lex_le_from(
                grid(final(board)@),
                s,
                empty_cells(grid(old(board)@)),
                0,
            ),
        !(consistent(grid(old(board)@)) && solvable(grid(old(board)@))) ==> grid(final(board)@)
            == grid(old(board)@),
{
    solve(board);
}

/// A completion of a board that validates also validates: the digits the
/// solver adds never clash with one another nor with the given ones.
pub proof fn lemma_solution_validates(g: Seq<Seq<char>>, s: Seq<Seq<char>>)
    requires
        is_grid(g),
        validation_outcome(g, Ok(())),
        is_completion(g, s),
    ensures
        validation_outcome(s, Ok(())),
{
    assert forall|r: int, c: int| 0 <= r < 9 && 0 <= c < 9 implies !#[trigger] conflict_at(s, r, c) by {
        if g[r][c] != EMPTY {
            assert(s[r][c] == g[r][c]);
            assert(!conflict_at(g, r, c));
            assert forall|r2: int, c2: int|
                0 <= r2 < 9 && 0 <= c2 < 9 && peers(r, c, r2, c2) implies #[trigger] s[r2][c2]
                != s[r][c] by {
                if g[r2][c2] == EMPTY {
                    assert(fits(s, s[r2][c2], r2, c2));
                    assert(peers(r2, c2, r, c));
                } else {
                    assert(g[r2][c2] != g[r][c]);
                }
            }
        }
    }
}

/// The character of digit number `v`: `'1'` for `0` up to `'9'` for `8`.
pub open spec fn digit_for(v: int) -> char {
    if v == 0 {
        '1'
    } else if v == 1 {
        '2'
    } else if v == 2 {
        '3'
    } else if v == 3 {
        '4'
    } else if v == 4 {
        '5'
    } else if v == 5 {
        '6'
    } else if v == 6 {
        '7'
    } else if v == 7 {
        '8'
    } else {
        '9'
    }
}

/// The digit number of cell `(r, c)` in a fixed full grid: each band of
/// three rows shifts by three, and each band by one more.
pub open spec fn pattern_value(r: int, c: int) -> int {
    (3 * (r % 3) + r / 3 + c) % 9
}

/// A full grid in which no two peers hold the same digit.
pub open spec fn pattern_grid() -> Seq<Seq<char>> {
    Seq::new(9, |r: int| Seq::new(9, |c: int| digit_for(pattern_value(r, c))))
}

proof fn lemma_shift_distinct(x: int, y: int, k: int)
    requires
        0 <= x < 9,
        0 <= y < 9,
        x != y,
        0 <= k,
    ensures
        (x + k) % 9 != (y + k) % 9,
{
    assert((x + k) % 9 != (y + k) % 9) by (nonlinear_arith)
        requires
            0 <= x < 9,
            0 <= y < 9,
            x != y,
            0 <= k,
    ;
}

proof fn lemma_pattern_peers_differ(r: int, c: int, r2: int, c2: int)
    requires
        0 <= r < 9,
        0 <= c < 9,
        0 <= r2 < 9,
        0 <= c2 < 9,
        peers(r, c, r2, c2),
    ensures
        pattern_value(r, c) != pattern_value(r2, c2),
{
    if r == r2 {
        lemma_shift_distinct(c, c2, 3 * (r % 3) + r / 3);
    } else if c == c2 {
        lemma_shift_distinct(3 * (r % 3) + r / 3, 3 * (r2 % 3) + r2 / 3, c);
    } else {
        assert(r / 3 == r2 / 3 && c / 3 == c2 / 3);
        lemma_shift_distinct(
            3 * (r % 3) + c % 3,
            3 * (r2 % 3) + c2 % 3,
            r / 3 + 3 * (c / 3),
        );
        assert(c == 3 * (c / 3) + c % 3);
        assert(c2 == 3 * (c2 / 3) + c2 % 3);
    }
}

/// A board of empty cells has a completion, so the solver succeeds on it.
pub proof fn lemma_empty_board_solvable(g: Seq<Seq<char>>)
    requires
        is_grid(g),
        forall|r: int, c: int| 0 <= r < 9 && 0 <= c < 9 ==> #[trigger] g[r][c] == EMPTY,
    ensures
        solvable(g),
{
    let s = pattern_grid();
    assert forall|r: int, c: int|
        0 <= r < 9 && 0 <= c < 9 && g[r][c] == EMPTY implies is_digit(#[trigger] s[r][c])
        && fits(s, s[r][c], r, c) by {
        assert forall|r2: int, c2: int|
            0 <= r2 < 9 && 0 <= c2 < 9 && peers(r, c, r2, c2) implies #[trigger] s[r2][c2]
            != s[r][c] by {
            lemma_pattern_peers_differ(r, c, r2, c2);
        }
    }
    assert(is_completion(g, s));
}

} // verus!
