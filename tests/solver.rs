use sudoku::generate::{generate_puzzle, place_first_fit, place_random_digit, try_place};
use sudoku::solve::{calculate_value, solve, solve_puzzle, EmptyCell};
use sudoku::validate::{get_subcell_root, valid_position, validate_puzzle};

fn board_from(rows: [&str; 9]) -> Vec<Vec<char>> {
    rows.iter().map(|r| r.chars().collect()).collect()
}

fn empty_board() -> Vec<Vec<char>> {
    vec![vec!['.'; 9]; 9]
}

fn filled(board: &Vec<Vec<char>>) -> usize {
    board.iter().map(|r| r.iter().filter(|c| **c != '.').count()).sum()
}

fn canonical_puzzle() -> Vec<Vec<char>> {
    vec![
        vec!['5', '3', '.', '.', '7', '.', '.', '.', '.'],
        vec!['6', '.', '.', '1', '9', '5', '.', '.', '.'],
        vec!['.', '9', '8', '.', '.', '.', '.', '6', '.'],
        vec!['8', '.', '.', '.', '6', '.', '.', '.', '3'],
        vec!['4', '.', '.', '8', '.', '3', '.', '.', '1'],
        vec!['7', '.', '.', '.', '2', '.', '.', '.', '6'],
        vec!['.', '6', '.', '.', '.', '.', '2', '8', '.'],
        vec!['.', '.', '.', '4', '1', '9', '.', '.', '5'],
        vec!['.', '.', '.', '.', '8', '.', '.', '7', '9'],
    ]
}

fn canonical_solution() -> Vec<Vec<char>> {
    vec![
        vec!['5', '3', '4', '6', '7', '8', '9', '1', '2'],
        vec!['6', '7', '2', '1', '9', '5', '3', '4', '8'],
        vec!['1', '9', '8', '3', '4', '2', '5', '6', '7'],
        vec!['8', '5', '9', '7', '6', '1', '4', '2', '3'],
        vec!['4', '2', '6', '8', '5', '3', '7', '9', '1'],
        vec!['7', '1', '3', '9', '2', '4', '8', '5', '6'],
        vec!['9', '6', '1', '5', '3', '7', '2', '8', '4'],
        vec!['2', '8', '7', '4', '1', '9', '6', '3', '5'],
        vec!['3', '4', '5', '2', '8', '6', '1', '7', '9'],
    ]
}

#[test]
fn test_solver() {
    let mut input = canonical_puzzle();
    let result = canonical_solution();

    solve_puzzle(&mut input);

    assert_eq!(input, result);
}

#[test]
fn test_generator() {
    let puzzle = generate_puzzle(20, 30);

    assert_eq!(validate_puzzle(&puzzle), Ok(()));
}

#[test]
fn solve_reports_success_on_the_canonical_puzzle() {
    let mut input = canonical_puzzle();
    assert!(solve(&mut input));
    assert_eq!(input, canonical_solution());
}

#[test]
fn solved_board_validates() {
    let mut input = canonical_puzzle();
    solve_puzzle(&mut input);
    assert_eq!(validate_puzzle(&input), Ok(()));
}

#[test]
fn solving_a_full_valid_board_keeps_it() {
    let mut board = canonical_solution();
    assert!(solve(&mut board));
    assert_eq!(board, canonical_solution());
}

#[test]
fn duplicate_in_row_gives_first_cell() {
    let mut board = empty_board();
    board[0][0] = '5';
    board[0][4] = '5';
    assert_eq!(validate_puzzle(&board), Err((0, 0)));
}

#[test]
fn duplicate_in_column_gives_first_cell() {
    let mut board = empty_board();
    board[2][3] = '7';
    board[6][3] = '7';
    assert_eq!(validate_puzzle(&board), Err((2, 3)));
}

#[test]
fn duplicate_in_box_gives_first_cell() {
    let mut board = empty_board();
    board[3][3] = '4';
    board[5][5] = '4';
    assert_eq!(validate_puzzle(&board), Err((3, 3)));
}

#[test]
fn first_conflict_in_row_major_order_wins() {
    let mut board = canonical_solution();
    board[8][0] = '9';
    board[4][4] = '2';
    assert_eq!(validate_puzzle(&board), Err((4, 1)));
}

#[test]
fn validation_is_repeatable() {
    let mut board = empty_board();
    board[1][1] = '3';
    board[1][7] = '3';
    let first = validate_puzzle(&board);
    let second = validate_puzzle(&board);
    assert_eq!(first, second);
    assert_eq!(first, Err((1, 1)));
    let good = canonical_solution();
    assert_eq!(validate_puzzle(&good), validate_puzzle(&good));
}

#[test]
fn empty_board_validates() {
    assert_eq!(validate_puzzle(&empty_board()), Ok(()));
}

#[test]
fn generated_boards_validate_and_stay_under_max() {
    for _ in 0..5 {
        let puzzle = generate_puzzle(20, 30);
        assert_eq!(validate_puzzle(&puzzle), Ok(()));
        assert!(filled(&puzzle) < 30);
        assert_eq!(puzzle.len(), 9);
        assert!(puzzle.iter().all(|r| r.len() == 9));
    }
}

#[test]
fn generator_with_one_target_places_one_digit() {
    let puzzle = generate_puzzle(1, 2);
    assert_eq!(filled(&puzzle), 1);
    let digit = puzzle.iter().flatten().find(|c| **c != '.').copied();
    assert!(matches!(digit, Some('1'..='9')));
}

#[test]
fn place_random_digit_fills_one_cell_of_an_empty_board() {
    let mut board = empty_board();
    assert!(place_random_digit(&mut board));
    assert_eq!(filled(&board), 1);
    assert_eq!(validate_puzzle(&board), Ok(()));
}

#[test]
fn contradictory_board_is_left_unchanged() {
    let given = board_from([
        "11234567.",
        "........8",
        "........9",
        ".........",
        ".........",
        ".........",
        ".........",
        ".........",
        ".........",
    ]);
    let mut board = given.clone();
    assert!(!solve(&mut board));
    assert_eq!(board, given);
    let mut again = given.clone();
    solve_puzzle(&mut again);
    assert_eq!(again, given);
}

#[test]
fn empty_board_is_solvable() {
    let mut board = empty_board();
    assert!(solve(&mut board));
    assert_eq!(filled(&board), 81);
    assert!(board.iter().flatten().all(|c| ('1'..='9').contains(c)));
    assert_eq!(validate_puzzle(&board), Ok(()));
    assert_eq!(board[0], vec!['1', '2', '3', '4', '5', '6', '7', '8', '9']);
}

#[test]
fn subcell_root_is_top_left_of_box() {
    assert_eq!(get_subcell_root(0, 0), (0, 0));
    assert_eq!(get_subcell_root(4, 7), (3, 6));
    assert_eq!(get_subcell_root(8, 2), (6, 0));
}

#[test]
fn valid_position_checks_box_row_and_column() {
    let board = canonical_puzzle();
    // '4' is the digit of the solution at (0, 2).
    assert!(valid_position('4', 0, 0, 0, 2, &board));
    // '5' already stands in row 0.
    assert!(!valid_position('5', 0, 0, 0, 2, &board));
    // '6' stands in the box, at (1, 0).
    assert!(!valid_position('6', 0, 0, 0, 2, &board));
    // '8' stands in column 2 at (2, 2).
    assert!(!valid_position('8', 0, 0, 1, 2, &board));
    // A filled cell is not compared with itself.
    assert!(valid_position('5', 0, 0, 0, 0, &board));
}

#[test]
fn calculate_value_fills_listed_cells() {
    let mut board = canonical_solution();
    board[0][2] = '.';
    board[8][8] = '.';
    let cells = vec![EmptyCell { row: 0, col: 2 }, EmptyCell { row: 8, col: 8 }];
    assert!(calculate_value(0, &cells, &mut board));
    assert_eq!(board, canonical_solution());
}

#[test]
fn calculate_value_restores_cells_on_failure() {
    let mut board = board_from([
        "12345678.",
        "........9",
        ".........",
        ".........",
        ".........",
        ".........",
        ".........",
        ".........",
        "........1",
    ]);
    let given = board.clone();
    let cells = vec![EmptyCell { row: 0, col: 8 }];
    assert!(!calculate_value(0, &cells, &mut board));
    assert_eq!(board, given);
}

#[test]
fn small_targets_are_always_reached() {
    for _ in 0..5 {
        let puzzle = generate_puzzle(5, 10);
        let n = filled(&puzzle);
        assert!(n >= 5 && n < 10);
        assert_eq!(validate_puzzle(&puzzle), Ok(()));
    }
}

#[test]
fn try_place_keeps_a_fitting_digit() {
    let mut board = canonical_puzzle();
    let mut expected = canonical_puzzle();
    expected[0][2] = '4';
    assert!(try_place(&mut board, 0, 2, '4'));
    assert_eq!(board, expected);
}

#[test]
fn try_place_rejects_a_clashing_digit() {
    let mut board = canonical_puzzle();
    assert!(!try_place(&mut board, 0, 2, '9'));
    assert_eq!(board, canonical_puzzle());
}

#[test]
fn clashing_givens_are_refused_even_where_cells_could_be_filled() {
    let given = board_from([
        "55.......",
        "111111111",
        "111111111",
        "111111111",
        "111111111",
        "111111111",
        "111111111",
        "111111111",
        "111111111",
    ]);
    let mut board = given.clone();
    assert!(!solve(&mut board));
    assert_eq!(board, given);
    let mut again = given.clone();
    solve_puzzle(&mut again);
    assert_eq!(again, given);
}

#[test]
fn calculate_value_leaves_unlisted_cells_alone() {
    let mut board = canonical_solution();
    board[0][2] = '.';
    board[8][8] = '.';
    let mut expected = board.clone();
    expected[0][2] = '4';
    let cells = vec![EmptyCell { row: 0, col: 2 }];
    assert!(calculate_value(0, &cells, &mut board));
    assert_eq!(board, expected);
}

#[test]
fn calculate_value_past_the_end_succeeds_without_change() {
    let mut board = canonical_puzzle();
    let cells = vec![EmptyCell { row: 0, col: 2 }];
    assert!(calculate_value(1, &cells, &mut board));
    assert_eq!(board, canonical_puzzle());
}

#[test]
fn valid_position_uses_the_block_it_is_given() {
    let board = canonical_puzzle();
    // '6' stands in the real box of (0, 2), but not in the block at (6, 6).
    assert!(valid_position('6', 6, 6, 0, 2, &board));
    // The block at (3, 3) holds a '6', at (3, 4).
    assert!(!valid_position('6', 3, 3, 0, 2, &board));
}

#[test]
fn place_first_fit_takes_first_cell_and_smallest_digit() {
    let mut board = canonical_puzzle();
    let mut expected = canonical_puzzle();
    expected[0][2] = '1';
    assert!(place_first_fit(&mut board));
    assert_eq!(board, expected);
}

#[test]
fn placement_fails_only_on_a_saturated_board() {
    let mut full = canonical_solution();
    assert!(!place_random_digit(&mut full));
    assert_eq!(full, canonical_solution());
    assert!(!place_first_fit(&mut full));
    assert_eq!(full, canonical_solution());

    let mut one_gap = canonical_solution();
    one_gap[4][4] = '.';
    assert!(place_random_digit(&mut one_gap));
    assert_eq!(one_gap, canonical_solution());
}

#[test]
fn generated_cells_are_empty_or_digits() {
    let puzzle = generate_puzzle(20, 30);
    assert!(puzzle
        .iter()
        .flatten()
        .all(|c| *c == '.' || ('1'..='9').contains(c)));
    assert!(filled(&puzzle) >= 20);
}
