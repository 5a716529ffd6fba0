//! Reading puzzle text: a literal 81-digit grid, or the adaptive codec's
//! compact bytes wrapped in URL-safe base64 without padding.
use vstd::prelude::*;

use crate::board::{apply_givens, board_wf, initial_state, Board, CellState};
use crate::errors::{InvalidPuzzleError, UnsolvableError};
use crate::predictive::{char_digit, decodes_to, render};

verus! {

#[verifier::external_type_specification]
#[verifier::external_body]
pub struct ExDecodeError(base64::DecodeError);

/// What URL-safe unpadded base64 decoding yields for a text, when the text
/// is well-formed base64: a function of the characters alone.
pub uninterp spec fn b64_url_decoded(s: Seq<char>) -> Option<Seq<u8>>;

/// Relies on base64::decode_config with the URL_SAFE_NO_PAD config: it
/// decodes the text to bytes, failing exactly on malformed base64, and its
/// result depends on the input text alone.
#[verifier::external_body]
fn base64_url_decode(s: &str) -> (r: Result<Vec<u8>, base64::DecodeError>)
    ensures
        r is Ok <==> b64_url_decoded(s@) is Some,
        r is Ok ==> r->Ok_0@ == b64_url_decoded(s@)->0,
{
    base64::decode_config(s, base64::URL_SAFE_NO_PAD)
}

/// Why a puzzle string was rejected: the base64 transport was malformed, the
/// text was not readable as an 81-digit grid, or its givens contradict each
/// other.
#[derive(Debug)]
pub enum ParseError {
    Invalid(InvalidPuzzleError),
    Unsolvable(UnsolvableError),
    Transport(base64::DecodeError),
}

/// The base64 transport layer accepts the text (or none is involved).
pub open spec fn transport_ok(p: Seq<char>) -> bool {
    p.len() >= 81 || b64_url_decoded(p) is Some
}

/// The digits an 81-character text stands for, any non-digit reading as a
/// blank.
pub open spec fn text_digits(t: Seq<char>) -> Seq<u8> {
    Seq::new(81, |i: int| char_digit(t[i]))
}

/// The board the 81-character text `t` parses to, when its givens are not
/// contradictory.
pub open spec fn parses_to(t: Seq<char>, b: Board) -> bool {
    &&& apply_givens(initial_state(), text_digits(t), 81) is Some
    &&& b.state@ == apply_givens(initial_state(), text_digits(t), 81)->0
}

/// Parses a puzzle. A string of 81 or more characters is read as a literal
/// digit grid (non-digits count as blanks). A shorter string is read as the
/// adaptive codec's bytes in URL-safe unpadded base64 and run through the
/// codec's decoder first; whenever those bytes are an actual encoding of a
/// solved grid and hole mask, the puzzle they stand for is parsed. The 81
/// digits are applied as givens in index order, and a contradiction among
/// them fails with the unsolvable error.
pub fn parse_puzzle(puzzle: &str) -> (r: Result<Board, ParseError>)
    ensures
        (r is Err && r->Err_0 is Transport) <==> !transport_ok(puzzle@),
        r is Ok ==> board_wf(r->Ok_0.state@),
        puzzle@.len() >= 81 ==> {
            &&& (r is Ok <==> puzzle@.len() == 81 && apply_givens(
                initial_state(),
                text_digits(puzzle@),
                81,
            ) is Some)
            &&& (r is Ok ==> parses_to(puzzle@, r->Ok_0))
            &&& ((r is Err && r->Err_0 is Invalid) <==> puzzle@.len() != 81)
            &&& ((r is Err && r->Err_0 is Unsolvable) <==> puzzle@.len() == 81 && apply_givens(
                initial_state(),
                text_digits(puzzle@),
                81,
            ) is None)
        },
        puzzle@.len() < 81 && transport_ok(puzzle@) ==> (forall|sol: Seq<u8>, m: Seq<bool>|
            #[trigger] decodes_to(sol, m, b64_url_decoded(puzzle@)->0) ==> {
                &&& (r is Ok <==> apply_givens(
                    initial_state(),
                    text_digits(render(sol, m)),
                    81,
                ) is Some)
                &&& (r is Ok ==> parses_to(render(sol, m), r->Ok_0))
                &&& (r is Err ==> r->Err_0 is Unsolvable)
            }),
{
    let decoded_puzzle: String = if puzzle.unicode_len() < 81 {
        let bytes = match base64_url_decode(puzzle) {
            Ok(b) => b,
            Err(e) => {
                return Err(ParseError::Transport(e));
            },
        };
        match crate::predictive::decode(bytes) {
            Some(text) => text,
            None => {
                return Err(ParseError::Invalid(InvalidPuzzleError {  }));
            },
        }
    } else {
        puzzle.to_owned()
    };

    if decoded_puzzle.unicode_len() == 81 {
        let mut ret: Vec<u8> = Vec::new();
        let mut ci: usize = 0;
        while ci < 81
            invariant
                ci <= 81,
                decoded_puzzle@.len() == 81,
                ret@.len() == ci as int,
                forall|j: int|
                    0 <= j < ci as int ==> #[trigger] ret@[j] == char_digit(decoded_puzzle@[j]),
                forall|j: int| 0 <= j < ci as int ==> #[trigger] ret@[j] <= 9,
            decreases 81 - ci,
        {
            let ch = decoded_puzzle.as_str().get_char(ci);
            let dv: u8 = match ch {
                '1' => 1,
                '2' => 2,
                '3' => 3,
                '4' => 4,
                '5' => 5,
                '6' => 6,
                '7' => 7,
                '8' => 8,
                '9' => 9,
                _ => 0,
            };
            ret.push(dv);
            ci = ci + 1;
        }
        proof {
            assert(ret@ =~= text_digits(decoded_puzzle@));
        }
        let board = match Board::from_puzzle(ret) {
            Ok(b) => b,
            Err(e) => {
                return Err(ParseError::Unsolvable(e));
            },
        };
        proof {
            assert(parses_to(decoded_puzzle@, board));
        }
        return Ok(board);
    }
    Err(ParseError::Invalid(InvalidPuzzleError {  }))
}

} // verus!
