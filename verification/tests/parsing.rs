use ku::parse::{parse_puzzle, ParseError};
use ku::predictive;

const SEVENTEEN: &str =
    "000000010400000000020000000000050407008000300001090000300400200050100000000806000";

#[test]
fn literal_text_parses_to_its_own_canonical_string() {
    let board = parse_puzzle(SEVENTEEN).expect("valid puzzle text");
    assert_eq!(board.to_1d_string(), SEVENTEEN);
}

#[test]
fn compact_base64_form_parses_to_the_same_board() {
    let bytes = predictive::encode(SEVENTEEN).expect("solvable puzzle encodes");
    let wrapped = base64::encode_config(&bytes, base64::URL_SAFE_NO_PAD);
    assert!(wrapped.len() < 81);
    let board = parse_puzzle(&wrapped).expect("compact form parses");
    assert_eq!(board.to_1d_string(), SEVENTEEN);
}

#[test]
fn overlong_text_is_invalid() {
    let mut text = String::from(SEVENTEEN);
    text.push('0');
    let err = parse_puzzle(&text).unwrap_err();
    assert!(matches!(err, ParseError::Invalid(_)));
}

#[test]
fn malformed_base64_is_a_transport_error() {
    let err = parse_puzzle("!!!").unwrap_err();
    assert!(matches!(err, ParseError::Transport(_)));
}

#[test]
fn contradictory_text_is_unsolvable() {
    let mut text = String::from("55");
    text.push_str(&"0".repeat(79));
    let err = parse_puzzle(&text).unwrap_err();
    assert!(matches!(err, ParseError::Unsolvable(_)));
}

#[test]
fn non_digit_characters_count_as_blanks() {
    let text = ".".repeat(81);
    let board = parse_puzzle(&text).expect("blanks-only grid parses");
    assert_eq!(board.to_1d_string(), "0".repeat(81));
}
