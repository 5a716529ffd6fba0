use ku::predictive;
use ku::simple;

const SEVENTEEN: &str =
    "000000010400000000020000000000050407008000300001090000300400200050100000000806000";
const SEVENTEEN_SOLUTION: &str =
    "693784512487512936125963874932651487568247391741398625319475268856129743274836159";

#[test]
fn predictive_round_trip_seventeen_clues() {
    let bytes = predictive::encode(SEVENTEEN).expect("solvable puzzle encodes");
    assert!(bytes.len() <= 72, "encoded form stays within the documented bound");
    let text = predictive::decode(bytes).expect("own encoding decodes");
    assert_eq!(text, SEVENTEEN);
}

#[test]
fn predictive_round_trip_alternating_mask() {
    // every second cell of the solved grid blanked: exercises the short hole
    // runs and the implied-given elision densely
    let puzzle: String = SEVENTEEN_SOLUTION
        .chars()
        .enumerate()
        .map(|(i, c)| if i % 2 == 0 { '0' } else { c })
        .collect();
    let bytes = predictive::encode(&puzzle).expect("solvable");
    assert!(bytes.len() <= 72);
    let text = predictive::decode(bytes).expect("own encoding decodes");
    assert_eq!(text, puzzle);
}

#[test]
fn predictive_round_trip_all_holes() {
    let puzzle = "0".repeat(81);
    let bytes = predictive::encode(&puzzle).expect("empty board is solvable");
    assert!(bytes.len() <= 72);
    let text = predictive::decode(bytes).expect("own encoding decodes");
    assert_eq!(text, puzzle);
}

#[test]
fn predictive_round_trip_no_holes() {
    let bytes = predictive::encode(SEVENTEEN_SOLUTION).expect("a full grid encodes");
    let text = predictive::decode(bytes).expect("own encoding decodes");
    assert_eq!(text, SEVENTEEN_SOLUTION);
}

#[test]
fn predictive_rejects_contradictory_puzzle() {
    let mut text = String::from("55");
    text.push_str(&"0".repeat(79));
    assert!(predictive::encode(&text).is_err());
}

#[test]
fn simple_round_trip_seventeen_clues() {
    let bytes = simple::encode(SEVENTEEN);
    assert_eq!(simple::decode(bytes), SEVENTEEN);
}

#[test]
fn simple_round_trip_full_grid() {
    let bytes = simple::encode(SEVENTEEN_SOLUTION);
    assert_eq!(simple::decode(bytes), SEVENTEEN_SOLUTION);
}

#[test]
fn simple_collapses_zero_runs() {
    let zeros = "0".repeat(81);
    let bytes = simple::encode(&zeros);
    // eleven runs of seven zeros (nibble 15) and one run of four (nibble 12)
    assert_eq!(bytes, vec![0xff, 0xff, 0xff, 0xff, 0xff, 0xfc]);
    assert_eq!(simple::decode(bytes), zeros);
}

#[test]
fn simple_single_zero_is_one_nibble() {
    let bytes = simple::encode("102");
    // nibbles 1, 0, 2 -> bytes 0x10, 0x20
    assert_eq!(bytes, vec![0x10, 0x20]);
}

#[test]
fn trivial_encode_packs_pairs() {
    assert_eq!(simple::trivial_encode("123"), vec![0x12, 0x30]);
    assert_eq!(simple::trivial_encode("1234"), vec![0x12, 0x34]);
    assert_eq!(simple::trivial_encode(""), Vec::<u8>::new());
}

#[test]
fn patterns_stride_modulo_the_grid() {
    assert_eq!(predictive::pattern_linear(5), 5);
    assert_eq!(predictive::pattern_c2(41), 1);
    assert_eq!(predictive::pattern_c4(21), 3);
    assert_eq!(predictive::pattern_c8(11), 7);
    assert_eq!(predictive::pattern_c16(6), 15);
}
