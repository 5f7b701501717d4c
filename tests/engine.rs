use rand::rngs::StdRng;
use rand::SeedableRng;
use sudoku_gen::board::{
    board_chars, check_valid, get_box, get_col, get_house, get_row, new_board, set_value, Board,
};
use sudoku_gen::deduce::{propagate, set_hidden_single, set_naked_single, set_single, LogicResult};
use sudoku_gen::generate::{nth_candidate, unset_cells, BoardInfo, GenStatus, Generator};
use sudoku_gen::mask::{get_value, is_value_set, value_count, value_mask, ALL_VALUES, VALUE_SET};
use sudoku_gen::search::{best_cell, count_solutions};

const PUZZLE_ROWS: [&str; 9] = [
    "53..7....",
    "6..195...",
    ".98....6.",
    "8...6...3",
    "4..8.3..1",
    "7...2...6",
    ".6....28.",
    "...419..5",
    "....8..79",
];

const SOLUTION_ROWS: [&str; 9] = [
    "534678912",
    "672195348",
    "198342567",
    "859761423",
    "426853791",
    "713924856",
    "961537284",
    "287419635",
    "345286179",
];

fn parse_board(text: &str) -> Board {
    assert_eq!(text.len(), 81);
    let mut board = new_board();
    for (cell, ch) in text.bytes().enumerate() {
        if ch != b'.' {
            let value = (ch - b'0') as u32;
            assert!(set_value(&mut board, cell, value));
        }
    }
    board
}

fn puzzle() -> Board {
    parse_board(&PUZZLE_ROWS.concat())
}

fn solution() -> Board {
    parse_board(&SOLUTION_ROWS.concat())
}

fn assigned_count(board: &Board) -> usize {
    board.iter().filter(|m| **m & VALUE_SET != 0).count()
}

#[test]
fn mask_helpers() {
    assert_eq!(value_mask(1), 1);
    assert_eq!(value_mask(5), 16);
    assert_eq!(value_mask(9), 256);
    assert!(is_value_set(VALUE_SET | 4));
    assert!(!is_value_set(ALL_VALUES));
    assert_eq!(value_count(ALL_VALUES), 9);
    assert_eq!(value_count(VALUE_SET | 16), 1);
    assert_eq!(value_count(0b1010), 2);
    assert_eq!(get_value(0b1010), 2);
    assert_eq!(get_value(VALUE_SET | 256), 9);
    assert_eq!(get_value(0), 0);
    assert_eq!(nth_candidate(0b1010, 0), 2);
    assert_eq!(nth_candidate(0b1010, 1), 4);
}

#[test]
fn house_tables() {
    assert_eq!(get_row(2), [18, 19, 20, 21, 22, 23, 24, 25, 26]);
    assert_eq!(get_col(4), [4, 13, 22, 31, 40, 49, 58, 67, 76]);
    assert_eq!(get_box(4), [30, 31, 32, 39, 40, 41, 48, 49, 50]);
    assert_eq!(get_box(8), [60, 61, 62, 69, 70, 71, 78, 79, 80]);
    assert_eq!(get_house(9), get_col(0));
    assert_eq!(get_house(26), get_box(8));
}

#[test]
fn fresh_board() {
    let board = new_board();
    assert!(board.iter().all(|m| *m == ALL_VALUES));
    assert!(check_valid(&board));
    assert_eq!(unset_cells(board).len(), 81);
    let blank = BoardInfo::new_blank();
    assert_eq!(blank.given_count, 0);
    assert_eq!(blank.board, board);
    let info = BoardInfo::new(board, 3);
    assert_eq!(info.given_count, 3);
}

#[test]
fn assign_eliminates_from_peers() {
    let mut board = new_board();
    assert!(set_value(&mut board, 40, 5));
    assert_eq!(board[40], VALUE_SET | 16);
    // row, column and box peers lose 5
    assert_eq!(board[36], ALL_VALUES & !16);
    assert_eq!(board[4], ALL_VALUES & !16);
    assert_eq!(board[30], ALL_VALUES & !16);
    // other cells keep it
    assert_eq!(board[0], ALL_VALUES);
    assert_eq!(assigned_count(&board), 1);
    let unset = unset_cells(board);
    assert_eq!(unset.len(), 80);
    assert!(!unset.contains(&40));
}

#[test]
fn assign_twice_is_idempotent() {
    let mut board = new_board();
    assert!(set_value(&mut board, 10, 7));
    let after_first = board;
    assert!(set_value(&mut board, 10, 7));
    assert_eq!(board, after_first);
}

#[test]
fn assign_over_other_value_fails() {
    let mut board = new_board();
    assert!(set_value(&mut board, 0, 5));
    let before = board;
    assert!(!set_value(&mut board, 0, 3));
    assert_eq!(board, before);
}

#[test]
fn assign_excluded_value_fails() {
    let mut board = new_board();
    assert!(set_value(&mut board, 0, 5));
    let before = board;
    assert!(!set_value(&mut board, 1, 5));
    assert_eq!(board, before);
}

#[test]
fn assign_emptying_peer_fails() {
    let mut board = new_board();
    board[1] = value_mask(5);
    assert!(!set_value(&mut board, 0, 5));
}

#[test]
fn two_fives_in_a_row_is_invalid() {
    let mut board = new_board();
    let row = [5u32, 5, 1, 2, 3, 4, 6, 7, 8];
    for (col, value) in row.iter().enumerate() {
        board[col] = value_mask(*value) | VALUE_SET;
    }
    assert!(!check_valid(&board));
}

#[test]
fn empty_cell_is_invalid() {
    let mut board = new_board();
    board[80] = 0;
    assert!(!check_valid(&board));
    let mut committed_empty = new_board();
    committed_empty[3] = VALUE_SET;
    assert!(!check_valid(&committed_empty));
}

#[test]
fn uncovered_house_is_invalid() {
    let mut board = new_board();
    for cell in get_box(0) {
        board[cell] &= !value_mask(9);
    }
    assert!(!check_valid(&board));
}

#[test]
fn solved_board_is_valid_with_each_value_once() {
    let board = solution();
    assert!(check_valid(&board));
    assert_eq!(assigned_count(&board), 81);
    for h in 0..27 {
        let mut seen = [0usize; 10];
        for cell in get_house(h) {
            seen[get_value(board[cell]) as usize] += 1;
        }
        assert!(seen[1..].iter().all(|n| *n == 1));
    }
}

#[test]
fn naked_single_found() {
    let mut board = new_board();
    assert_eq!(set_naked_single(&mut board), LogicResult::NONE);
    board[5] = value_mask(3);
    assert_eq!(set_naked_single(&mut board), LogicResult::CHANGED);
    assert_eq!(board[5], VALUE_SET | value_mask(3));
    assert_eq!(board[0], ALL_VALUES & !value_mask(3));
    let mut broken = new_board();
    broken[7] = 0;
    assert_eq!(set_naked_single(&mut broken), LogicResult::INVALID);
}

#[test]
fn hidden_single_found() {
    let mut board = new_board();
    assert_eq!(set_hidden_single(&mut board), LogicResult::NONE);
    for cell in 1..9 {
        board[cell] &= !value_mask(1);
    }
    assert_eq!(set_hidden_single(&mut board), LogicResult::CHANGED);
    assert_eq!(board[0], VALUE_SET | value_mask(1));
    assert_eq!(board[9], ALL_VALUES & !value_mask(1));
}

#[test]
fn hidden_single_uncovered_house() {
    let mut board = new_board();
    for cell in 0..9 {
        board[cell] &= !value_mask(4);
    }
    assert_eq!(set_hidden_single(&mut board), LogicResult::INVALID);
    let mut board2 = new_board();
    for cell in 0..9 {
        board2[cell] &= !value_mask(4);
    }
    assert_eq!(set_single(&mut board2), LogicResult::INVALID);
}

#[test]
fn propagation_solves_easy_puzzle() {
    let mut board = puzzle();
    assert_eq!(assigned_count(&board), 30);
    let (result, steps) = propagate(&mut board);
    assert_eq!(result, LogicResult::NONE);
    assert!(steps <= 51);
    assert_eq!(assigned_count(&board), 30 + steps);
    assert_eq!(board, solution());
}

#[test]
fn propagation_leaves_solved_board_alone() {
    let mut board = solution();
    let before = board;
    assert_eq!(propagate(&mut board), (LogicResult::NONE, 0));
    assert_eq!(board, before);
}

#[test]
fn branching_cell_choice() {
    let mut board = new_board();
    assert_eq!(best_cell(&board), 0);
    board[20] = value_mask(1) | value_mask(2) | value_mask(3);
    assert_eq!(best_cell(&board), 20);
    board[50] = value_mask(1) | value_mask(2);
    assert_eq!(best_cell(&board), 50);
    board[10] = value_mask(4) | value_mask(5);
    assert_eq!(best_cell(&board), 10);
    assert_eq!(best_cell(&solution()), 81);
}

#[test]
fn blank_board_has_many_solutions() {
    assert_eq!(count_solutions(&new_board(), 2), 2);
}

#[test]
fn known_puzzle_is_unique() {
    assert_eq!(count_solutions(&puzzle(), 2), 1);
}

#[test]
fn solved_board_counts_once() {
    let board = solution();
    assert_eq!(count_solutions(&board, 1), 1);
    assert_eq!(count_solutions(&board, 2), 1);
    assert_eq!(count_solutions(&board, 100), 1);
}

#[test]
fn count_capped_at_zero() {
    assert_eq!(count_solutions(&new_board(), 0), 0);
}

#[test]
fn contradictory_board_has_no_solution() {
    let mut board = puzzle();
    // two cells of the top-left box each forced to 4
    board[1] = value_mask(4);
    board[10] = value_mask(4);
    assert_eq!(count_solutions(&board, 2), 0);
}

#[test]
fn underdetermined_puzzle_has_several_solutions() {
    let rows = [
        "53..7....",
        "6..195...",
        ".98....6.",
        "8...6...3",
        "4..8.3..1",
        "7...2...6",
        ".........",
        ".........",
        ".........",
    ];
    assert_eq!(count_solutions(&parse_board(&rows.concat()), 2), 2);
}

#[test]
fn record_characters() {
    let chars = board_chars(&puzzle());
    assert_eq!(String::from_utf8(chars).unwrap(), PUZZLE_ROWS.concat());
    let full = board_chars(&solution());
    assert_eq!(String::from_utf8(full).unwrap(), SOLUTION_ROWS.concat());
}

fn run_generator(num_givens: usize, seed: u64) -> Board {
    let mut rng = StdRng::seed_from_u64(seed);
    let mut generator = Generator::new(num_givens);
    for _ in 0..1_000_000 {
        match generator.step(&mut rng) {
            GenStatus::Working => {}
            GenStatus::Done(board) => return board,
            GenStatus::Impossible => panic!("search ran out of branches"),
        }
    }
    panic!("construction did not finish")
}

#[test]
fn construction_of_full_board_is_valid() {
    let board = run_generator(81, 7);
    assert_eq!(assigned_count(&board), 81);
    assert!(check_valid(&board));
    assert_eq!(count_solutions(&board, 2), 1);
}

#[test]
fn construction_reaches_requested_givens() {
    for (givens, seed) in [(0usize, 1u64), (1, 2), (20, 3), (30, 4)] {
        let board = run_generator(givens, seed);
        assert_eq!(assigned_count(&board), givens);
        assert!(count_solutions(&board, 2) <= 2);
    }
}
