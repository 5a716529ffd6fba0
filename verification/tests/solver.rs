use ku::board::Board;
use ku::calc::{Block, Cell, Col, House, Row};
use ku::parse::parse_puzzle;
use ku::solve::solve;

const SEVENTEEN: &str =
    "000000010400000000020000000000050407008000300001090000300400200050100000000806000";
const SEVENTEEN_SOLUTION: &str =
    "693784512487512936125963874932651487568247391741398625319475268856129743274836159";
// The same puzzle with the single `1` clue of the first row removed: two or
// more completions become possible.
const AMBIGUOUS: &str =
    "000000000400000000020000000000050407008000300001090000300400200050100000000806000";

fn board_of(text: &str) -> Board {
    match parse_puzzle(text) {
        Ok(b) => b,
        Err(_) => panic!("puzzle should parse"),
    }
}

fn assert_valid_complete(text: &str) {
    let digits: Vec<u8> = text.chars().map(|c| c.to_digit(10).unwrap() as u8).collect();
    assert_eq!(digits.len(), 81);
    for unit in 0..9usize {
        let mut row = [false; 10];
        let mut col = [false; 10];
        let mut block = [false; 10];
        for k in 0..9usize {
            let r = digits[unit * 9 + k] as usize;
            let c = digits[k * 9 + unit] as usize;
            let bi = (unit / 3) * 27 + (unit % 3) * 3 + (k / 3) * 9 + k % 3;
            let b = digits[bi] as usize;
            assert!(r >= 1 && c >= 1 && b >= 1, "incomplete grid");
            assert!(!row[r], "digit repeated in row {}", unit);
            assert!(!col[c], "digit repeated in column {}", unit);
            assert!(!block[b], "digit repeated in block {}", unit);
            row[r] = true;
            col[c] = true;
            block[b] = true;
        }
    }
}

#[test]
fn seventeen_clue_unique_solution() {
    let board = board_of(SEVENTEEN);
    let solved = solve(board, true).expect("unique puzzle must not be ambiguous");
    let solved = solved.expect("unique puzzle must be solvable");
    assert_eq!(solved.to_1d_string(), SEVENTEEN_SOLUTION);
}

#[test]
fn removing_a_clue_makes_it_ambiguous() {
    let board = board_of(AMBIGUOUS);
    let ret = solve(board, true);
    assert!(ret.is_err(), "a puzzle with two completions must report non-uniqueness");
}

#[test]
fn first_hit_mode_finds_the_same_solution() {
    let board = board_of(SEVENTEEN);
    let solved = solve(board, false).unwrap().expect("solvable");
    assert_eq!(solved.to_1d_string(), SEVENTEEN_SOLUTION);
}

#[test]
fn empty_board_solves_to_some_valid_grid() {
    let board = Board::new();
    let solved = solve(board, false).unwrap().expect("an empty board has completions");
    let text = solved.to_1d_string();
    assert_valid_complete(&text);
}

#[test]
fn solved_houses_are_permutations() {
    let board = board_of(SEVENTEEN);
    let solved = solve(board, false).unwrap().unwrap();
    assert_valid_complete(&solved.to_1d_string());
}

#[test]
fn contradictory_givens_fail_immediately() {
    let mut text = String::from("55");
    text.push_str(&"0".repeat(79));
    let nums: Vec<u8> = text.chars().map(|c| c.to_digit(10).unwrap() as u8).collect();
    assert!(Board::from_puzzle(nums).is_err());
}

#[test]
fn canonical_string_round_trips_givens() {
    let board = board_of(SEVENTEEN);
    assert_eq!(board.to_1d_string(), SEVENTEEN);
}

#[test]
fn mark_rejects_a_conflicting_redo() {
    let board = board_of(SEVENTEEN);
    let mut b = board;
    // cell 7 holds the given 1 (stored as 0)
    assert!(b.mark(Cell(7), 0).is_ok());
    let mut b2 = board;
    let err = b2.mark(Cell(7), 4).unwrap_err();
    assert_eq!(err.target.0, 7);
    assert_eq!(err.attempted_val, 4);
    assert_eq!(err.solved_val, Some(0));
}

#[test]
fn mark_rejects_an_excluded_digit_without_change() {
    let mut b = Board::new();
    assert!(b.mark(Cell(0), 4).is_ok());
    let before = b.to_1d_string();
    // cell 1 shares the first row: digit 5 (stored 4) is excluded there
    let err = b.mark(Cell(1), 4).unwrap_err();
    assert_eq!(err.target.0, 1);
    assert_eq!(err.attempted_val, 4);
    assert_eq!(err.solved_val, None);
    assert_eq!(b.to_1d_string(), before);
}

#[test]
fn most_certain_starts_at_the_first_cell() {
    let board = Board::new();
    let (cell, poss) = board.most_certain().expect("empty board has unsolved cells");
    assert_eq!(cell.0, 0);
    assert_eq!(poss.count, 9);
    assert_eq!(poss.mask, 0b111111111);
}

#[test]
fn complete_board_has_no_most_certain_cell() {
    let board = board_of(SEVENTEEN_SOLUTION);
    assert!(board.most_certain().is_none());
}

#[test]
fn geometry_of_a_middle_cell() {
    let cell = Cell(40);
    assert_eq!(cell.row().0, 4);
    assert_eq!(cell.col().0, 4);
    assert_eq!(cell.block().0, 4);
}

#[test]
fn house_cells_enumerate_their_members() {
    let row: Vec<u8> = Row(1).cells().iter().map(|c| c.0).collect();
    assert_eq!(row, vec![9, 10, 11, 12, 13, 14, 15, 16, 17]);
    let col: Vec<u8> = Col(2).cells().iter().map(|c| c.0).collect();
    assert_eq!(col, vec![2, 11, 20, 29, 38, 47, 56, 65, 74]);
    let block: Vec<u8> = Block(4).cells().iter().map(|c| c.0).collect();
    assert_eq!(block, vec![30, 31, 32, 39, 40, 41, 48, 49, 50]);
    assert_eq!(Row(1).start().0, 9);
    assert_eq!(Col(2).start().0, 2);
    assert_eq!(Block(4).start().0, 30);
}

#[test]
fn number_to_mask_sets_one_bit() {
    assert_eq!(ku::calc::number_to_mask(0), 1);
    assert_eq!(ku::calc::number_to_mask(3), 8);
    assert_eq!(ku::calc::number_to_mask(8), 256);
}

#[test]
fn count_bits_matches_popcount() {
    assert_eq!(ku::board::count_bits(0), 0);
    assert_eq!(ku::board::count_bits(0b111111111), 9);
    assert_eq!(ku::board::count_bits(0b101010101), 5);
}
