//! The adaptive, self-describing codec: the bit-width of every cell field is
//! derived from the candidate state that the cells decoded so far induce, so
//! the decoder re-runs the encoder's candidate computation step by step.
use vstd::prelude::*;

use crate::board::Board;
use crate::calc::House;
use crate::errors::UnsolvableError;
use crate::solve::solve;
use crate::tools::{
    bytes_bits, stream_bit, val_bits, BitReader, BitWriter,
};

verus! {

broadcast use vstd::array::group_array_axioms;

/// A digit `d` is already present in one of cell `i`'s three houses.
pub open spec fn house_excluded(g: Seq<u8>, i: int, d: u8) -> bool {
    exists|j: int| 0 <= j < 81 && crate::calc::same_house(j, i) && #[trigger] g[j] == d
}

/// The candidates `1..=d` of cell `i` in ascending order, given the digits
/// filled so far (`0` for an empty cell).
pub open spec fn cands_upto(g: Seq<u8>, i: int, d: int) -> Seq<u8>
    decreases d,
{
    if d <= 0 {
        Seq::empty()
    } else {
        cands_upto(g, i, d - 1) + if !house_excluded(g, i, d as u8) {
            seq![d as u8]
        } else {
            Seq::empty()
        }
    }
}

/// The candidate list of cell `i`: the singleton of its digit when filled,
/// else every digit not present in its houses, ascending.
pub open spec fn oracle_cands(g: Seq<u8>, i: int) -> Seq<u8> {
    if g[i] != 0 {
        seq![g[i]]
    } else {
        cands_upto(g, i, 9)
    }
}

/// The candidate lists are sorted, within range, and hold exactly the
/// unexcluded digits.
pub proof fn lemma_cands_upto(g: Seq<u8>, i: int, d: int)
    requires
        0 <= d <= 9,
    ensures
        cands_upto(g, i, d).len() <= d,
        forall|k: int|
            0 <= k < cands_upto(g, i, d).len() ==> 1 <= #[trigger] cands_upto(g, i, d)[k] <= d
                && !house_excluded(g, i, cands_upto(g, i, d)[k]),
        forall|k1: int, k2: int|
            0 <= k1 < k2 < cands_upto(g, i, d).len() ==> cands_upto(g, i, d)[k1] < cands_upto(
                g,
                i,
                d,
            )[k2],
        forall|v: u8|
            1 <= v <= d && !house_excluded(g, i, v) ==> cands_upto(g, i, d).contains(v),
    decreases d,
{
    if d > 0 {
        lemma_cands_upto(g, i, d - 1);
        let prev = cands_upto(g, i, d - 1);
        let cur = cands_upto(g, i, d);
        assert forall|v: u8|
            1 <= v <= d && !house_excluded(g, i, v) implies cur.contains(v) by {
            if v <= d - 1 {
                let k = choose|k: int| 0 <= k < prev.len() && prev[k] == v;
                assert(cur[k] == v);
            } else {
                assert(cur[cur.len() - 1] == v);
            }
        }
    }
}

/// The fully solved grid `sol` truncated to its first `i` cells; the rest is
/// still empty. This is the exact state of the oracle grid after the codec
/// has processed `i` cells.
pub open spec fn partial(sol: Seq<u8>, i: int) -> Seq<u8> {
    Seq::new(
        81,
        |j: int|
            if j < i {
                sol[j]
            } else {
                0
            },
    )
}

/// The field width chosen for a cell with `n` candidates.
pub open spec fn width_of(n: int) -> int {
    if n >= 9 {
        4
    } else if n >= 5 {
        3
    } else if n >= 3 {
        2
    } else if n == 2 {
        1
    } else {
        0
    }
}

/// The position of `v` in the candidate list `c` (unique when `c` is
/// strictly ascending).
pub open spec fn find_idx(c: Seq<u8>, v: u8) -> int {
    choose|k: int| 0 <= k < c.len() && c[k] == v
}

/// The bits the codec spends on cell `i` of the solved grid `sol`: the index
/// of `sol[i]` among the cell's candidates, in the width its count dictates.
pub open spec fn grid_field_bits(sol: Seq<u8>, i: int) -> Seq<bool> {
    let c = oracle_cands(partial(sol, i), i);
    val_bits(find_idx(c, sol[i]) as u16, width_of(c.len() as int))
}

/// The bits of the first `i` cell fields.
pub open spec fn grid_bits(sol: Seq<u8>, i: int) -> Seq<bool>
    decreases i,
{
    if i <= 0 {
        Seq::empty()
    } else {
        grid_bits(sol, i - 1) + grid_field_bits(sol, i - 1)
    }
}

/// The three-bit field that closes a hole run of length `h` (`1..=4`): a set
/// marker bit and `h - 1` in two bits.
pub open spec fn field3(h: int) -> Seq<bool> {
    val_bits((3 + h) as u16, 3)
}

/// The hole/given run-length bits from cell `i` on, with `h` holes already
/// pending: a hole run is flushed as `field3` at length four or at its end;
/// a given after a short run is elided entirely; any other given costs one
/// zero bit.
pub open spec fn hole_bits(m: Seq<bool>, i: int, h: int) -> Seq<bool>
    decreases 81 - i,
{
    if i >= 81 {
        if h > 0 {
            field3(h)
        } else {
            Seq::empty()
        }
    } else if m[i] {
        if h + 1 >= 4 {
            field3(4) + hole_bits(m, i + 1, 0)
        } else {
            hole_bits(m, i + 1, h + 1)
        }
    } else {
        if h > 0 {
            field3(h) + hole_bits(m, i + 1, 0)
        } else {
            seq![false] + hole_bits(m, i + 1, 0)
        }
    }
}

/// The whole encoded stream for solved grid `sol` and hole mask `m`.
pub open spec fn enc_stream(sol: Seq<u8>, m: Seq<bool>) -> Seq<bool> {
    grid_bits(sol, 81) + hole_bits(m, 0, 0)
}

/// A complete constraint-valid grid: 81 digits `1..=9`, no digit repeated
/// within a row, column or block.
pub open spec fn valid_grid(sol: Seq<u8>) -> bool {
    &&& sol.len() == 81
    &&& forall|i: int| 0 <= i < 81 ==> 1 <= #[trigger] sol[i] <= 9
    &&& forall|i: int, j: int|
        0 <= i < 81 && 0 <= j < 81 && crate::calc::is_peer(i, j) ==> #[trigger] sol[i]
            != #[trigger] sol[j]
}

/// The solved grid keeps every given of the puzzle `p` (`0` marks a blank).
pub open spec fn grid_extends(sol: Seq<u8>, p: Seq<u8>) -> bool {
    forall|i: int| 0 <= i < 81 && #[trigger] p[i] != 0 ==> sol[i] == p[i]
}

/// The digits of an 81-character puzzle string.
pub open spec fn digits_of(s: Seq<char>) -> Seq<u8> {
    Seq::new(81, |i: int| char_digit(s[i]))
}

/// The hole mask of an 81-character puzzle string.
pub open spec fn holes_of(s: Seq<char>) -> Seq<bool> {
    Seq::new(81, |i: int| char_digit(s[i]) == 0)
}

/// The canonical text of solved grid `sol` with the cells of `m` blanked.
pub open spec fn render(sol: Seq<u8>, m: Seq<bool>) -> Seq<char> {
    Seq::new(
        81,
        |i: int|
            if m[i] {
                '0'
            } else {
                crate::board::digit_char(sol[i] as int)
            },
    )
}

/// Whether `bytes` carries the encoded stream of `sol` and `m`, allowing for
/// byte padding and trailing-zero elision.
pub open spec fn decodes_to(sol: Seq<u8>, m: Seq<bool>, bytes: Seq<u8>) -> bool {
    &&& valid_grid(sol)
    &&& m.len() == 81
    &&& forall|k: int|
        stream_bit(bytes_bits(bytes), k) == stream_bit(#[trigger] enc_stream(sol, m), k)
}

pub open spec fn is_digit_char(c: char) -> bool {
    c == '0' || c == '1' || c == '2' || c == '3' || c == '4' || c == '5' || c == '6' || c == '7'
        || c == '8' || c == '9'
}

/// The digit value of a decimal character (`0` for anything else).
pub open spec fn char_digit(c: char) -> u8 {
    if c == '1' {
        1
    } else if c == '2' {
        2
    } else if c == '3' {
        3
    } else if c == '4' {
        4
    } else if c == '5' {
        5
    } else if c == '6' {
        6
    } else if c == '7' {
        7
    } else if c == '8' {
        8
    } else if c == '9' {
        9
    } else {
        0
    }
}

/// The codec-side oracle grid: plain digits, no incremental bookkeeping;
/// candidates are recomputed from scratch on every query.
struct PredictorBoard {
    board: [u8; 81],
}

impl PredictorBoard {
    /// Whether digit `d` already occurs in one of cell `i`'s houses.
    fn excluded(&self, i: u8, d: u8) -> (r: bool)
        requires
            i < 81,
        ensures
            r == house_excluded(self.board@, i as int, d),
    {
        let row = (i / 9) * 9;
        let col = i % 9;
        let block = (row / 27) * 27 + col / 3 * 3;
        let ghost c = i as int;
        let ghost bid: u8 = ((i / 9) / 3 * 3 + (i % 9) / 3) as u8;
        proof {
            assert(bid == crate::calc::block_of_idx(c));
            assert(block as int == bid / 3 * 27 + bid % 3 * 3) by {
                crate::calc::lemma_divmod(bid as int, 3, c / 9 / 3, (c % 9) / 3);
                assert(row as int == (c / 9) * 9);
                assert(c / 9 == (c / 9) / 3 * 3 + (c / 9) % 3);
                crate::calc::lemma_divmod((c / 9) * 9, 27, c / 9 / 3, 9 * ((c / 9) % 3));
            }
        }
        let mut j: u8 = 0;
        while j < 9
            invariant
                j <= 9,
                i < 81,
                c == i as int,
                row == (i / 9) * 9,
                col == i % 9,
                bid == ((i / 9) / 3 * 3 + (i % 9) / 3) as u8,
                bid < 9,
                block as int == bid / 3 * 27 + bid % 3 * 3,
                forall|k: int|
                    0 <= k < j as int ==> self.board@[#[trigger] crate::calc::Row(
                        i / 9,
                    ).house_cell(k)] != d,
                forall|k: int|
                    0 <= k < j as int ==> self.board@[#[trigger] crate::calc::Col(
                        i % 9,
                    ).house_cell(k)] != d,
                forall|k: int|
                    0 <= k < j as int ==> self.board@[#[trigger] crate::calc::Block(
                        bid,
                    ).house_cell(k)] != d,
            decreases 9 - j,
        {
            let row_val = self.board[(row + j) as usize];
            let col_val = self.board[(col + j * 9) as usize];
            let block_row = j / 3;
            let block_col = j % 3;
            let block_val = self.board[(block + block_col + block_row * 9) as usize];
            proof {
                assert(crate::calc::Row(i / 9).house_cell(j as int) == row as int + j);
                assert(crate::calc::Col(i % 9).house_cell(j as int) == col as int + j * 9);
                assert(crate::calc::Block(bid).house_cell(j as int) == block as int + j % 3 + j
                    / 3 * 9);
                assert(0 <= crate::calc::Block(bid).house_cell(j as int) < 81);
            }
            if row_val == d || col_val == d || block_val == d {
                proof {
                    if row_val == d {
                        let w = row as int + j;
                        crate::calc::lemma_divmod(w, 9, c / 9, j as int);
                        assert(row_val == self.board@[w]);
                        assert(crate::calc::row_of_idx(w) == crate::calc::row_of_idx(c));
                        assert(crate::calc::same_house(w, c) && self.board@[w] == d);
                    } else if col_val == d {
                        let w = col as int + j * 9;
                        crate::calc::lemma_divmod(w, 9, j as int, c % 9);
                        assert(col_val == self.board@[w]);
                        assert(crate::calc::col_of_idx(w) == crate::calc::col_of_idx(c));
                        assert(crate::calc::same_house(w, c) && self.board@[w] == d);
                    } else {
                        let w = block as int + j % 3 + j / 3 * 9;
                        crate::calc::lemma_block_house(c, w);
                        assert(w == crate::calc::Block(
                            crate::calc::block_of_idx(c) as u8,
                        ).house_cell(j as int));
                        assert(crate::calc::same_house(w, c) && self.board@[w] == d);
                    }
                }
                return true;
            }
            j = j + 1;
        }
        proof {
            assert forall|w: int|
                0 <= w < 81 && crate::calc::same_house(w, c) implies self.board@[w] != d by {
                crate::calc::lemma_row_house(c, w);
                crate::calc::lemma_col_house(c, w);
                crate::calc::lemma_block_house(c, w);
                if crate::calc::row_of_idx(w) == crate::calc::row_of_idx(c) {
                    let k = choose|k: int|
                        0 <= k < 9 && w == #[trigger] crate::calc::Row((c / 9) as u8).house_cell(
                            k,
                        );
                    assert(crate::calc::Row(i / 9) == crate::calc::Row((c / 9) as u8));
                    assert(self.board@[crate::calc::Row(i / 9).house_cell(k)] != d);
                } else if crate::calc::col_of_idx(w) == crate::calc::col_of_idx(c) {
                    let k = choose|k: int|
                        0 <= k < 9 && w == #[trigger] crate::calc::Col((c % 9) as u8).house_cell(
                            k,
                        );
                    assert(crate::calc::Col(i % 9) == crate::calc::Col((c % 9) as u8));
                    assert(self.board@[crate::calc::Col(i % 9).house_cell(k)] != d);
                } else {
                    let k = choose|k: int|
                        0 <= k < 9 && w == #[trigger] crate::calc::Block(
                            crate::calc::block_of_idx(c) as u8,
                        ).house_cell(k);
                    assert(crate::calc::Block(bid) == crate::calc::Block(
                        crate::calc::block_of_idx(c) as u8,
                    ));
                    assert(self.board@[crate::calc::Block(bid).house_cell(k)] != d);
                }
            }
        }
        false
    }

    /// The candidate list of cell `i`, recomputed from scratch: the digits
    /// absent from its row, column and block, ascending — or the singleton of
    /// its own digit once filled.
    fn possibilities(&self, i: u8) -> (r: Vec<u8>)
        requires
            i < 81,
        ensures
            r@ == oracle_cands(self.board@, i as int),
            r@.len() <= 9,
    {
        proof {
            lemma_cands_upto(self.board@, i as int, 9);
        }
        if self.board[i as usize] != 0 {
            let v = vec![self.board[i as usize]];
            proof {
                assert(v@ =~= oracle_cands(self.board@, i as int));
            }
            return v;
        }

        let mut out: Vec<u8> = Vec::new();
        let mut d: u8 = 1;
        while d <= 9
            invariant
                1 <= d <= 10,
                i < 81,
                self.board@[i as int] == 0,
                out@ == cands_upto(self.board@, i as int, d as int - 1),
            decreases 10 - d,
        {
            if !self.excluded(i, d) {
                out.push(d);
                proof {
                    assert(out@ =~= cands_upto(self.board@, i as int, d as int));
                }
            } else {
                proof {
                    assert(out@ =~= cands_upto(self.board@, i as int, d as int));
                }
            }
            d = d + 1;
        }
        out
    }

    /// Fills cell `i` with digit `val`.
    fn set(&mut self, i: u8, val: u8)
        requires
            i < 81,
        ensures
            final(self).board@ == old(self).board@.update(i as int, val),
    {
        self.board.set(i as usize, val);
    }
}

const HOLE_ENCODE_BITS: u8 = 3;

const HOLE_ENCODE_MAX: u8 = 4;

const CHAIN_ENCODE_BITS: u8 = 1;

const CHAIN_ENCODE_MAX: u8 = 1;

/// The field widths as powers of two, and the one-bit zero field.
proof fn lemma_small_pows()
    by (bit_vector)
    ensures
        (1u16 << 1u16) == 2,
        (1u16 << 2u16) == 4,
        (1u16 << 3u16) == 8,
        (1u16 << 4u16) == 16,
        ((0u16 >> 0u16) & 1) != 1,
{
}

/// The solved digit of a cell is always among the candidates its partially
/// filled oracle grid yields: the cells filled so far carry solution digits,
/// and no peer repeats the cell's own digit.
pub proof fn lemma_sol_in_cands(sol: Seq<u8>, i: int)
    requires
        valid_grid(sol),
        0 <= i < 81,
    ensures
        oracle_cands(partial(sol, i), i).contains(sol[i]),
        oracle_cands(partial(sol, i), i).len() >= 1,
{
    let g = partial(sol, i);
    lemma_cands_upto(g, i, 9);
    assert(!house_excluded(g, i, sol[i])) by {
        if house_excluded(g, i, sol[i]) {
            let j = choose|j: int|
                0 <= j < 81 && crate::calc::same_house(j, i) && #[trigger] g[j] == sol[i];
            assert(j < i);
            assert(crate::calc::is_peer(j, i));
            assert(sol[j] != sol[i]);
        }
    }
    assert(cands_upto(g, i, 9).contains(sol[i]));
    let k = choose|k: int| 0 <= k < cands_upto(g, i, 9).len() && cands_upto(g, i, 9)[k] == sol[i];
    assert(oracle_cands(g, i)[k] == sol[i]);
}

/// In a strictly ascending candidate list the position of a value is unique.
pub proof fn lemma_find_idx(c: Seq<u8>, v: u8, k: int)
    requires
        0 <= k < c.len(),
        c[k] == v,
        forall|k1: int, k2: int| 0 <= k1 < k2 < c.len() ==> c[k1] < c[k2],
    ensures
        find_idx(c, v) == k,
{
    let k2 = find_idx(c, v);
    assert(0 <= k2 < c.len() && c[k2] == v);
    if k < k2 {
        assert(c[k] < c[k2]);
    }
    if k2 < k {
        assert(c[k2] < c[k]);
    }
}

/// Emits the hole/given run-length code for the 81-entry mask `holes`.
fn encode_holes(writer: &mut BitWriter, holes: &Vec<bool>)
    requires
        old(writer).wf(),
        holes@.len() == 81,
    ensures
        final(writer).wf(),
        final(writer).bits_written() =~= old(writer).bits_written() + hole_bits(holes@, 0, 0),
{
    let ghost total = old(writer).bits_written() + hole_bits(holes@, 0, 0);
    let mut hole_length: u8 = 0;
    let mut chain_length: u8 = 0;
    let mut hi: usize = 0;
    proof {
        lemma_small_pows();
    }
    while hi < 81
        invariant
            hi <= 81,
            hole_length <= 3,
            chain_length == 0,
            holes@.len() == 81,
            writer.wf(),
            writer.bits_written() + hole_bits(holes@, hi as int, hole_length as int) =~= total,
        decreases 81 - hi,
    {
        proof {
            lemma_small_pows();
        }
        let ghost pre = writer.bits_written();
        let hole = holes[hi];
        if hole {
            if chain_length > 0 {
                writer.write(0, CHAIN_ENCODE_BITS);
                chain_length = 0;
            }
            hole_length = hole_length + 1;
            if hole_length >= HOLE_ENCODE_MAX {
                let v = (hole_length - 1) | 1 << (HOLE_ENCODE_BITS - 1);
                proof {
                    assert(v == 7 && (v as u16) < (1u16 << 3u16)) by (bit_vector)
                        requires
                            v == ((hole_length - 1) as u8) | (1u8 << 2u8),
                            hole_length == 4,
                    ;
                }
                writer.write(v, HOLE_ENCODE_BITS);
                hole_length = 0;
                proof {
                    assert(val_bits(7u16, 3) =~= field3(4));
                    assert(writer.bits_written() + hole_bits(holes@, hi + 1, 0) =~= total);
                }
            } else {
                proof {
                    assert(writer.bits_written() + hole_bits(holes@, hi + 1, hole_length as int)
                        =~= total);
                }
            }
        } else {
            if hole_length > 0 {
                let v = (hole_length - 1) | 1 << (HOLE_ENCODE_BITS - 1);
                proof {
                    assert(v == hole_length + 3 && (v as u16) < (1u16 << 3u16)) by (bit_vector)
                        requires
                            v == ((hole_length - 1) as u8) | (1u8 << 2u8),
                            1 <= hole_length <= 3,
                    ;
                }
                writer.write(v, HOLE_ENCODE_BITS);
                proof {
                    assert(val_bits(v as u16, 3) =~= field3(hole_length as int));
                    assert(writer.bits_written() + hole_bits(holes@, hi + 1, 0) =~= total);
                }
                if hole_length < HOLE_ENCODE_MAX {
                    // the single given after a short hole run is implied and
                    // costs no bit
                    hole_length = 0;
                } else {
                    hole_length = 0;
                    chain_length = chain_length + 1;
                    if chain_length >= CHAIN_ENCODE_MAX {
                        writer.write(0, CHAIN_ENCODE_BITS);
                        chain_length = 0;
                    }
                }
            } else {
                chain_length = chain_length + 1;
                if chain_length >= CHAIN_ENCODE_MAX {
                    writer.write(0, CHAIN_ENCODE_BITS);
                    chain_length = 0;
                    proof {
                        assert(val_bits(0u16, 1) =~= seq![false]);
                        assert(writer.bits_written() + hole_bits(holes@, hi + 1, 0) =~= total);
                    }
                }
            }
        }
        hi = hi + 1;
    }
    if hole_length > 0 {
        let v = (hole_length - 1) | 1 << (HOLE_ENCODE_BITS - 1);
        proof {
            lemma_small_pows();
            assert(v == hole_length + 3 && (v as u16) < (1u16 << 3u16)) by (bit_vector)
                requires
                    v == ((hole_length - 1) as u8) | (1u8 << 2u8),
                    1 <= hole_length <= 3,
            ;
        }
        writer.write(v, HOLE_ENCODE_BITS);
        proof {
            assert(val_bits(v as u16, 3) =~= field3(hole_length as int));
            assert(writer.bits_written() =~= total);
        }
    }
}

/// Each cell field spends at most four bits.
pub proof fn lemma_grid_bits_len(sol: Seq<u8>, i: int)
    requires
        i >= 0,
    ensures
        grid_bits(sol, i).len() <= 4 * i,
    decreases i,
{
    if i > 0 {
        lemma_grid_bits_len(sol, i - 1);
    }
}

/// The run-length mask code spends at most three bits per remaining cell
/// plus a final flush.
pub proof fn lemma_hole_bits_len(m: Seq<bool>, i: int, h: int)
    requires
        0 <= i <= 81,
    ensures
        hole_bits(m, i, h).len() <= 3 * (81 - i) + 3,
    decreases 81 - i,
{
    if i < 81 {
        lemma_hole_bits_len(m, i + 1, h + 1);
        lemma_hole_bits_len(m, i + 1, 0);
    }
}

/// A complete valid grid that honours the givens shows that applying them
/// cannot fail, and the grid stays a completion of the resulting board.
pub proof fn lemma_givens_of_grid(sol: Seq<u8>, p: Seq<u8>)
    requires
        valid_grid(sol),
        grid_extends(sol, p),
        p.len() == 81,
        forall|i: int| 0 <= i < 81 ==> #[trigger] p[i] <= 9,
    ensures
        crate::board::apply_givens(crate::board::initial_state(), p, 81) is Some,
        crate::board::is_solution_of(
            solution_board(sol),
            crate::board::apply_givens(crate::board::initial_state(), p, 81)->0,
        ),
{
    lemma_solution_board(sol);
    let t = solution_board(sol);
    assert forall|i: int| 0 <= i < 81 && #[trigger] p[i] != 0 implies t[i]
        == crate::board::CellState::Solved((p[i] - 1) as u8) by {
        assert(sol[i] == p[i]);
    }
    crate::board::lemma_apply_givens_complete(p, t, 81);
}

/// The board that holds exactly the digits of a complete grid.
pub open spec fn solution_board(sol: Seq<u8>) -> Seq<crate::board::CellState> {
    Seq::new(81, |i: int| crate::board::CellState::Solved((sol[i] - 1) as u8))
}

/// A complete constraint-valid grid, read as a board, satisfies the board
/// invariant and is complete.
pub proof fn lemma_solution_board(sol: Seq<u8>)
    requires
        valid_grid(sol),
    ensures
        crate::board::board_wf(solution_board(sol)),
        crate::board::all_solved(solution_board(sol)),
{
    let t = solution_board(sol);
    assert forall|i: int| 0 <= i < 81 implies crate::board::cell_wf(#[trigger] t[i]) by {
        assert(1 <= sol[i] <= 9);
    }
    assert forall|i: int, j: int|
        0 <= i < 81 && 0 <= j < 81 && crate::calc::is_peer(i, j) && #[trigger] t[i] is Solved
            && #[trigger] t[j] is Solved implies crate::board::cell_digit(t[i])
        != crate::board::cell_digit(t[j]) by {
        assert(sol[i] != sol[j]);
    }
}

/// Encodes a puzzle given as 81 digit characters (`0` for a blank): solves
/// it, writes each solved cell's candidate index in a width derived from the
/// live candidate count, then the hole mask as a run-length code, and strips
/// trailing zero bytes. Fails exactly when no complete valid grid honours
/// the givens.
pub fn encode(string: &str) -> (r: Result<Vec<u8>, UnsolvableError>)
    requires
        string@.len() == 81,
        forall|i: int| 0 <= i < 81 ==> is_digit_char(#[trigger] string@[i]),
    ensures
        r is Ok ==> exists|sol: Seq<u8>|
            #[trigger] decodes_to(sol, holes_of(string@), r->Ok_0@) && grid_extends(
                sol,
                digits_of(string@),
            ) && r->Ok_0@.len() * 8 < grid_bits(sol, 81).len() + hole_bits(
                holes_of(string@),
                0,
                0,
            ).len() + 8,
        r is Ok ==> r->Ok_0@.len() <= 72,
        crate::board::apply_givens(crate::board::initial_state(), digits_of(string@), 81)
            is None ==> r is Err,
        (exists|sol: Seq<u8>|
            #[trigger] valid_grid(sol) && grid_extends(sol, digits_of(string@))) ==> r is Ok,
{
    let mut nums: Vec<u8> = Vec::new();
    let mut ci: usize = 0;
    while ci < 81
        invariant
            ci <= 81,
            string@.len() == 81,
            nums@.len() == ci as int,
            forall|j: int| 0 <= j < ci as int ==> #[trigger] nums@[j] == char_digit(string@[j]),
        decreases 81 - ci,
    {
        let ch = string.get_char(ci);
        let dv: u8 = match ch {
            '1' => 1,
            '2' => 2,
            '3' => 3,
            '4' => 4,
            '5' => 5,
            '6' => 6,
            '7' => 7,
            '8' => 8,
            '9' => 9,
            _ => 0,
        };
        nums.push(dv);
        ci = ci + 1;
    }
    proof {
        assert(nums@ =~= digits_of(string@));
    }

    let mut holes: Vec<bool> = Vec::new();
    let mut hi: usize = 0;
    while hi < 81
        invariant
            hi <= 81,
            nums@.len() == 81,
            holes@.len() == hi as int,
            forall|j: int| 0 <= j < hi as int ==> #[trigger] holes@[j] == (nums@[j] == 0),
        decreases 81 - hi,
    {
        holes.push(nums[hi] == 0);
        hi = hi + 1;
    }
    proof {
        assert(nums@ == digits_of(string@));
        assert(holes@ =~= holes_of(string@));
    }

    let board = match Board::from_puzzle(nums) {
        Ok(b) => b,
        Err(_) => {
            proof {
                // contradictory givens leave no valid grid at all
                assert(!(exists|sol: Seq<u8>|
                    #[trigger] valid_grid(sol) && grid_extends(sol, digits_of(string@)))) by {
                    if exists|sol: Seq<u8>|
                        #[trigger] valid_grid(sol) && grid_extends(sol, digits_of(string@)) {
                        let sol = choose|sol: Seq<u8>|
                            #[trigger] valid_grid(sol) && grid_extends(
                                sol,
                                digits_of(string@),
                            );
                        lemma_givens_of_grid(sol, digits_of(string@));
                    }
                }
            }
            return Err(UnsolvableError {});
        },
    };
    let solved = match solve(board, false) {
        Ok(Some(b)) => b,
        Ok(None) => {
            proof {
                // the search is exhaustive: an empty outcome leaves no valid
                // grid either
                assert(!(exists|sol: Seq<u8>|
                    #[trigger] valid_grid(sol) && grid_extends(sol, digits_of(string@)))) by {
                    if exists|sol: Seq<u8>|
                        #[trigger] valid_grid(sol) && grid_extends(sol, digits_of(string@)) {
                        let sol = choose|sol: Seq<u8>|
                            #[trigger] valid_grid(sol) && grid_extends(
                                sol,
                                digits_of(string@),
                            );
                        lemma_givens_of_grid(sol, digits_of(string@));
                        assert(crate::board::is_solution_of(solution_board(sol), board.state@));
                    }
                }
            }
            return Err(UnsolvableError {});
        },
        Err(_) => {
            proof {
                assert(false);
            }
            return Err(UnsolvableError {});
        },
    };

    let solved_nums = solved.to_nums();
    let ghost sol = solved_nums@;
    proof {
        assert(valid_grid(sol)) by {
            assert forall|i: int| 0 <= i < 81 implies 1 <= #[trigger] sol[i] <= 9 by {
                assert(crate::board::cell_wf(solved.state@[i]));
                assert(solved.state@[i] is Solved);
                assert(sol[i] == crate::board::cell_num(solved.state@[i]));
            }
            assert forall|i: int, j: int|
                0 <= i < 81 && 0 <= j < 81 && crate::calc::is_peer(i, j) implies #[trigger] sol[i]
                != #[trigger] sol[j] by {
                assert(solved.state@[i] is Solved && solved.state@[j] is Solved);
                assert(crate::board::cell_digit(solved.state@[i]) != crate::board::cell_digit(
                    solved.state@[j],
                ));
                assert(sol[i] == crate::board::cell_num(solved.state@[i]));
                assert(sol[j] == crate::board::cell_num(solved.state@[j]));
            }
        }
        assert(grid_extends(sol, digits_of(string@))) by {
            assert forall|i: int|
                0 <= i < 81 && #[trigger] digits_of(string@)[i] != 0 implies sol[i] == digits_of(
                string@,
            )[i] by {
                assert(board.state@[i] == crate::board::CellState::Solved(
                    (digits_of(string@)[i] - 1) as u8,
                ));
                assert(solved.state@[i] == board.state@[i]);
            }
        }
    }

    let mut pboard = PredictorBoard { board: [0u8;81] };
    let mut writer = BitWriter::new();
    proof {
        assert(pboard.board@ =~= partial(sol, 0));
        assert(writer.bits_written() =~= grid_bits(sol, 0));
    }

    let mut i: usize = 0;
    while i < 81
        invariant
            i <= 81,
            valid_grid(sol),
            solved_nums@ == sol,
            writer.wf(),
            pboard.board@ =~= partial(sol, i as int),
            writer.bits_written() =~= grid_bits(sol, i as int),
        decreases 81 - i,
    {
        proof {
            lemma_small_pows();
            lemma_sol_in_cands(sol, i as int);
            lemma_cands_upto(partial(sol, i as int), i as int, 9);
        }
        let real_i = pattern_linear(i as u8);
        let num = solved_nums[real_i as usize];
        let probabilies = pboard.possibilities(real_i);
        let ghost cnd = oracle_cands(partial(sol, i as int), i as int);
        proof {
            assert(probabilies@ == cnd);
            assert(cnd.contains(num));
        }

        let mut pos: usize = 0;
        while pos < probabilies.len()
            invariant
                pos <= probabilies@.len(),
                probabilies@ == cnd,
                cnd.contains(num),
                forall|k: int| 0 <= k < pos as int ==> cnd[k] != num,
            ensures
                pos < probabilies@.len(),
                probabilies@ == cnd,
                cnd[pos as int] == num,
            decreases probabilies@.len() - pos,
        {
            if probabilies[pos] == num {
                break ;
            }
            pos = pos + 1;
        }
        proof {
            lemma_find_idx(cnd, num, pos as int);
        }

        let n = probabilies.len();
        if n == 9 {
            writer.write(pos as u8, 4);
        } else if n >= 5 {
            writer.write(pos as u8, 3);
        } else if n >= 3 {
            writer.write(pos as u8, 2);
        } else if n == 2 {
            writer.write(pos as u8, 1);
        } else {
            proof {
                assert(n == 1);
            }
        }
        proof {
            assert(writer.bits_written() =~= grid_bits(sol, i as int) + grid_field_bits(
                sol,
                i as int,
            ));
            assert(writer.bits_written() =~= grid_bits(sol, i + 1));
        }

        pboard.set(real_i, num);
        proof {
            assert(pboard.board@ =~= partial(sol, i + 1));
        }
        i = i + 1;
    }

    proof {
        assert(writer.bits_written() =~= grid_bits(sol, 81));
    }
    encode_holes(&mut writer, &holes);
    let ghost stream = writer.bits_written();
    proof {
        assert(stream =~= enc_stream(sol, holes_of(string@)));
        lemma_grid_bits_len(sol, 81);
        lemma_hole_bits_len(holes_of(string@), 0, 0);
    }
    let out = writer.disolve_drop_zeros();
    proof {
        assert(decodes_to(sol, holes_of(string@), out@));
        assert(grid_extends(sol, digits_of(string@)));
        assert(out@.len() * 8 < stream.len() + 8);
        assert(stream.len() == grid_bits(sol, 81).len() + hole_bits(holes_of(string@), 0, 0).len());
    }
    let res: Result<Vec<u8>, UnsolvableError> = Ok(out);
    proof {
        assert(res->Ok_0@ == out@);
        assert(exists|s2: Seq<u8>|
            #[trigger] decodes_to(s2, holes_of(string@), res->Ok_0@) && grid_extends(
                s2,
                digits_of(string@),
            ) && res->Ok_0@.len() * 8 < grid_bits(s2, 81).len() + hole_bits(
                holes_of(string@),
                0,
                0,
            ).len() + 8);
    }
    res
}

/// How many consecutive holes start at `p`, capped at `cap`.
pub open spec fn run_from(m: Seq<bool>, p: int, cap: int) -> int
    decreases 81 - p,
{
    if p >= 81 || cap <= 0 || !m[p] {
        0
    } else {
        1 + run_from(m, p + 1, cap - 1)
    }
}

/// The capped run length counts holes and stops at a given, the edge, or the
/// cap.
pub proof fn lemma_run_from(m: Seq<bool>, p: int, cap: int)
    requires
        0 <= p <= 81,
        0 <= cap,
    ensures
        0 <= run_from(m, p, cap) <= cap,
        p + run_from(m, p, cap) <= 81,
        forall|t: int| p <= t < p + run_from(m, p, cap) ==> #[trigger] m[t],
        run_from(m, p, cap) < cap ==> (p + run_from(m, p, cap) == 81 || !m[p + run_from(m, p, cap)]),
    decreases 81 - p,
{
    if !(p >= 81 || cap <= 0 || !m[p]) {
        lemma_run_from(m, p + 1, cap - 1);
        let r = run_from(m, p, cap);
        assert forall|t: int| p <= t < p + r implies #[trigger] m[t] by {
            if t > p {
                assert(p + 1 <= t < p + 1 + run_from(m, p + 1, cap - 1));
            }
        }
    }
}

/// With `h` holes pending, the run-length stream starts with the field that
/// closes the current hole run, followed by the stream for the cell after
/// the run (plus one elided given when the run is short).
pub proof fn lemma_hole_pend(m: Seq<bool>, p: int, h: int)
    requires
        m.len() == 81,
        0 <= p <= 81,
        0 <= h <= 3,
        h >= 1 || (p < 81 && m[p]),
    ensures
        ({
            let ll = h + run_from(m, p, 4 - h);
            hole_bits(m, p, h) =~= field3(ll) + hole_bits(
                m,
                p + (ll - h) + (if ll < 4 {
                    1int
                } else {
                    0int
                }),
                0,
            )
        }),
    decreases 81 - p,
{
    lemma_run_from(m, p, 4 - h);
    let ll = h + run_from(m, p, 4 - h);
    if p >= 81 {
        assert(run_from(m, p, 4 - h) == 0);
        assert(hole_bits(m, p, h) == field3(h));
        assert(hole_bits(m, p + 0 + 1, 0) =~= Seq::<bool>::empty());
        assert(field3(ll) + hole_bits(m, p + (ll - h) + 1, 0) =~= field3(h));
    } else if !m[p] {
        assert(run_from(m, p, 4 - h) == 0);
        assert(ll == h && h >= 1);
        assert(hole_bits(m, p, h) == field3(h) + hole_bits(m, p + 1, 0));
    } else {
        // a hole at `p`
        if h + 1 >= 4 {
            assert(h == 3);
            assert(run_from(m, p, 1) == 1);
            assert(ll == 4);
            assert(hole_bits(m, p, h) == field3(4) + hole_bits(m, p + 1, 0));
        } else {
            assert(hole_bits(m, p, h) == hole_bits(m, p + 1, h + 1));
            lemma_hole_pend(m, p + 1, h + 1);
            assert(run_from(m, p, 4 - h) == 1 + run_from(m, p + 1, 4 - h - 1));
        }
    }
}

/// The oracle grid of the decoder, with every cell of `m` before `p` blanked
/// again.
pub open spec fn mask_applied(sol: Seq<u8>, m: Seq<bool>, p: int) -> Seq<u8> {
    Seq::new(
        81,
        |j: int|
            if j < p && m[j] {
                0
            } else {
                sol[j]
            },
    )
}

/// Earlier cell fields stay in place as the stream grows.
pub proof fn lemma_grid_bits_prefix(sol: Seq<u8>, i: int, j: int)
    requires
        0 <= i <= j,
    ensures
        grid_bits(sol, i).len() <= grid_bits(sol, j).len(),
        forall|k: int|
            0 <= k < grid_bits(sol, i).len() ==> grid_bits(sol, j)[k] == grid_bits(sol, i)[k],
    decreases j - i,
{
    if i < j {
        lemma_grid_bits_prefix(sol, i, j - 1);
    }
}

/// The marker bit and the two length bits of a hole-run field.
proof fn lemma_field3_split(l: u16)
    by (bit_vector)
    requires
        1 <= l <= 4,
    ensures
        ((((3 + l) as u16) >> 2u16) & 1) == 1,
        ((((3 + l) as u16) >> 1u16) & 1) == ((((l - 1) as u16) >> 1u16) & 1),
        ((((3 + l) as u16) >> 0u16) & 1) == ((((l - 1) as u16) >> 0u16) & 1),
        ((l - 1) as u16) < 4,
{
}

/// A one-bit field is set exactly when its value is one.
proof fn lemma_bit1(f: u16)
    by (bit_vector)
    requires
        f < 2,
    ensures
        (((f >> 0u16) & 1) == 1) <==> (f == 1),
{
}

/// Decodes the compact form back to the canonical 81-character text: walks
/// the cells against a fresh candidate oracle, reading each cell's candidate
/// index in the width the live count dictates, then re-opens the holes the
/// run-length code describes. Whenever the bytes carry the encoding of a
/// solved grid and hole mask, that exact puzzle text comes back; bytes that
/// no encoding produced yield `None` or some unspecified text.
pub fn decode(coded: Vec<u8>) -> (r: Option<String>)
    ensures
        forall|sol: Seq<u8>, m: Seq<bool>|
            #[trigger] decodes_to(sol, m, coded@) ==> r is Some && r->0@ == render(sol, m),
{
    let ghost cd = coded@;
    let mut reader = BitReader::new(coded);
    let mut board = PredictorBoard { board: [0u8;81] };
    proof {
        assert forall|sol: Seq<u8>, m: Seq<bool>| #[trigger] decodes_to(sol, m, cd) implies (
        board.board@ =~= partial(sol, 0) && forall|k: int|
            0 <= k ==> stream_bit(reader.rest(), k) == stream_bit(enc_stream(sol, m), grid_bits(
                sol,
                0,
            ).len() + k)) by {
            assert(board.board@ =~= partial(sol, 0));
            assert forall|k: int|
                0 <= k implies stream_bit(reader.rest(), k) == stream_bit(
                enc_stream(sol, m),
                grid_bits(sol, 0).len() + k,
            ) by {
                assert(stream_bit(reader.rest(), k) == stream_bit(bytes_bits(cd), k));
            }
        }
    }

    let mut i: usize = 0;
    while i < 81
        invariant
            i <= 81,
            cd == coded@,
            reader.wf(),
            forall|j: int| 0 <= j < 81 ==> #[trigger] board.board@[j] <= 9,
            forall|sol: Seq<u8>, m: Seq<bool>|
                #[trigger] decodes_to(sol, m, cd) ==> board.board@ =~= partial(sol, i as int),
            forall|sol: Seq<u8>, m: Seq<bool>, k: int|
                #![trigger decodes_to(sol, m, cd), stream_bit(reader.rest(), k)]
                decodes_to(sol, m, cd) && 0 <= k ==> stream_bit(reader.rest(), k) == stream_bit(
                    enc_stream(sol, m),
                    grid_bits(sol, i as int).len() + k,
                ),
        decreases 81 - i,
    {
        let ghost pre_board = board.board@;
        let ghost pre_rest = reader.rest();
        let cands = board.possibilities(i as u8);
        let n = cands.len();
        proof {
            lemma_small_pows();
        }
        let v: u8 = if n == 9 {
            reader.read(4)
        } else if n >= 5 {
            reader.read(3)
        } else if n >= 3 {
            reader.read(2)
        } else if n == 2 {
            reader.read(1)
        } else if n == 1 {
            0
        } else {
            proof {
                assert forall|sol: Seq<u8>, m: Seq<bool>| #[trigger] decodes_to(
                    sol,
                    m,
                    coded@,
                ) implies false by {
                    assert(decodes_to(sol, m, cd));
                    lemma_sol_in_cands(sol, i as int);
                    assert(cands@ == oracle_cands(partial(sol, i as int), i as int));
                }
            }
            return None;
        };
        let ghost w: int = width_of(n as int);
        proof {
            assert forall|sol: Seq<u8>, m: Seq<bool>| #[trigger] decodes_to(sol, m, cd) implies (
            0 <= find_idx(cands@, sol[i as int]) < n && cands@[find_idx(cands@, sol[i as int])]
                == sol[i as int] && (v as int) == find_idx(cands@, sol[i as int]) && (forall|
                k: int,
            |
                #![trigger stream_bit(reader.rest(), k)]
                0 <= k ==> stream_bit(reader.rest(), k) == stream_bit(enc_stream(sol, m), grid_bits(
                    sol,
                    i + 1,
                ).len() + k))) by {
                lemma_sol_in_cands(sol, i as int);
                lemma_cands_upto(partial(sol, i as int), i as int, 9);
                assert(cands@ == oracle_cands(partial(sol, i as int), i as int));
                let fi = choose|k: int| 0 <= k < cands@.len() && cands@[k] == sol[i as int];
                lemma_find_idx(cands@, sol[i as int], fi);
                assert(0 <= find_idx(cands@, sol[i as int]) < n);
                // the stream holds this cell's field next
                lemma_grid_bits_prefix(sol, i + 1, 81);
                assert(grid_bits(sol, i + 1) == grid_bits(sol, i as int) + grid_field_bits(
                    sol,
                    i as int,
                ));
                let off = grid_bits(sol, i as int).len();
                let fld = grid_field_bits(sol, i as int);
                assert(fld.len() == w);
                assert forall|k: int| 0 <= k < w implies stream_bit(pre_rest, k) == fld[k] by {
                    assert(grid_bits(sol, i + 1)[off + k] == fld[k]);
                    assert(grid_bits(sol, 81)[off + k] == fld[k]);
                    assert(enc_stream(sol, m)[off + k] == fld[k]);
                    assert(stream_bit(pre_rest, k) == stream_bit(enc_stream(sol, m), off + k));
                    assert(0 <= off + k < enc_stream(sol, m).len());
                }
                if w > 0 {
                    assert(val_bits(v as u16, w) =~= Seq::new(
                        w as nat,
                        |k: int| stream_bit(pre_rest, k),
                    ));
                    assert(val_bits(v as u16, w) =~= fld);
                    let fi2 = find_idx(cands@, sol[i as int]) as u16;
                    assert(val_bits(fi2, w) == val_bits(v as u16, w));
                    if n == 9 {
                        crate::tools::lemma_val_bits_unique(v as u16, fi2, 4);
                    } else if n >= 5 {
                        crate::tools::lemma_val_bits_unique(v as u16, fi2, 3);
                    } else if n >= 3 {
                        crate::tools::lemma_val_bits_unique(v as u16, fi2, 2);
                    } else {
                        crate::tools::lemma_val_bits_unique(v as u16, fi2, 1);
                    }
                } else {
                    assert(n == 1);
                    assert(find_idx(cands@, sol[i as int]) == 0);
                }
                assert forall|k: int|
                    0 <= k implies stream_bit(reader.rest(), k) == stream_bit(
                    enc_stream(sol, m),
                    grid_bits(sol, i + 1).len() + k,
                ) by {
                    if w > 0 {
                        assert(stream_bit(reader.rest(), k) == stream_bit(pre_rest, k + w));
                    }
                    assert(grid_bits(sol, i + 1).len() == off + w);
                    assert(stream_bit(pre_rest, (k + w) as int) == stream_bit(
                        enc_stream(sol, m),
                        off + (k + w),
                    ));
                }
            }
        }
        if (v as usize) >= n {
            proof {
                assert forall|sol: Seq<u8>, m: Seq<bool>| #[trigger] decodes_to(
                    sol,
                    m,
                    coded@,
                ) implies false by {
                    assert(decodes_to(sol, m, cd));
                    assert((v as int) == find_idx(cands@, sol[i as int]) < n);
                }
            }
            return None;
        }
        let num = cands[v as usize];
        proof {
            assert(num <= 9) by {
                if pre_board[i as int] != 0 {
                    assert(cands@ == seq![pre_board[i as int]]);
                } else {
                    lemma_cands_upto(pre_board, i as int, 9);
                }
            }
        }
        board.set(i as u8, num);
        proof {
            assert forall|sol: Seq<u8>, m: Seq<bool>| #[trigger] decodes_to(sol, m, cd) implies
                board.board@ =~= partial(sol, i + 1) by {
                assert(num == sol[i as int]);
                assert(pre_board =~= partial(sol, i as int));
            }
        }
        i = i + 1;
    }

    proof {
        assert forall|sol: Seq<u8>, m: Seq<bool>| #[trigger] decodes_to(sol, m, cd) implies (
        board.board@ =~= mask_applied(sol, m, 0) && (forall|k: int|
            0 <= k ==> stream_bit(reader.rest(), k) == stream_bit(hole_bits(m, 0, 0), k))) by {
            assert(partial(sol, 81) =~= mask_applied(sol, m, 0));
            lemma_grid_bits_len(sol, 81);
            assert forall|k: int|
                0 <= k implies stream_bit(reader.rest(), k) == stream_bit(
                hole_bits(m, 0, 0),
                k,
            ) by {
                let off = grid_bits(sol, 81).len();
                assert(stream_bit(reader.rest(), k) == stream_bit(enc_stream(sol, m), off + k));
                if 0 <= k < hole_bits(m, 0, 0).len() {
                    assert(enc_stream(sol, m)[off + k] == hole_bits(m, 0, 0)[k]);
                }
            }
        }
    }

    let mut pos: usize = 0;
    while pos < 81
        invariant
            pos <= 86,
            cd == coded@,
            reader.wf(),
            forall|j: int| 0 <= j < 81 ==> #[trigger] board.board@[j] <= 9,
            forall|sol: Seq<u8>, m: Seq<bool>|
                #[trigger] decodes_to(sol, m, cd) ==> board.board@ =~= mask_applied(
                    sol,
                    m,
                    pos as int,
                ),
            forall|sol: Seq<u8>, m: Seq<bool>, k: int|
                #![trigger decodes_to(sol, m, cd), stream_bit(reader.rest(), k)]
                decodes_to(sol, m, cd) && 0 <= k ==> stream_bit(reader.rest(), k) == stream_bit(
                    hole_bits(m, pos as int, 0),
                    k,
                ),
        decreases 86 - pos,
    {
        let ghost p = pos as int;
        let ghost rest0 = reader.rest();
        proof {
            lemma_small_pows();
        }
        let flag = reader.read(1);
        let ghost rest1 = reader.rest();
        proof {
            assert forall|sol: Seq<u8>, m: Seq<bool>| #[trigger] decodes_to(sol, m, cd) implies (
            (flag == 1) == m[p] && (m[p] ==> hole_bits(m, p, 0) =~= field3(
                run_from(m, p, 4),
            ) + hole_bits(
                m,
                p + run_from(m, p, 4) + (if run_from(m, p, 4) < 4 {
                    1int
                } else {
                    0int
                }),
                0,
            )) && (forall|k: int|
                #![trigger stream_bit(rest1, k)]
                0 <= k ==> stream_bit(rest1, k) == stream_bit(hole_bits(m, p, 0), 1 + k))) by {
                lemma_run_from(m, p, 4);
                lemma_bit1(flag as u16);
                assert(val_bits(flag as u16, 1)[0] == stream_bit(rest0, 0));
                if m[p] {
                    lemma_hole_pend(m, p, 0);
                    let ll = run_from(m, p, 4);
                    lemma_field3_split(ll as u16);
                    assert(hole_bits(m, p, 0)[0] == field3(ll)[0]);
                    assert(field3(ll)[0] == ((((3 + ll) as u16) >> 2u16) & 1 == 1));
                    assert(stream_bit(rest0, 0) == hole_bits(m, p, 0)[0]);
                    assert(flag == 1);
                } else {
                    assert(hole_bits(m, p, 0) == seq![false] + hole_bits(m, p + 1, 0));
                    assert(hole_bits(m, p, 0)[0] == false);
                    assert(stream_bit(rest0, 0) == false);
                    assert(flag != 1) by {
                        if flag == 1 {
                            assert(val_bits(1u16, 1)[0] == true) by {
                                assert(((1u16 >> 0u16) & 1) == 1) by (bit_vector);
                            }
                        }
                    }
                }
                assert forall|k: int|
                    0 <= k implies stream_bit(rest1, k) == stream_bit(
                    hole_bits(m, p, 0),
                    1 + k,
                ) by {
                    assert(stream_bit(rest1, k) == stream_bit(rest0, k + 1));
                }
            }
        }
        if flag == 1 {
            let sz = reader.read(2) + 1;
            let ghost rest2 = reader.rest();
            proof {
                assert forall|sol: Seq<u8>, m: Seq<bool>| #[trigger] decodes_to(
                    sol,
                    m,
                    cd,
                ) implies ((sz as int) == run_from(m, p, 4) && (forall|k: int|
                    #![trigger stream_bit(rest2, k)]
                    0 <= k ==> stream_bit(rest2, k) == stream_bit(hole_bits(m, p, 0), 3 + k))) by {
                    lemma_run_from(m, p, 4);
                    let ll = run_from(m, p, 4);
                    assert(m[p]);
                    lemma_field3_split(ll as u16);
                    let szv: u16 = (sz - 1) as u16;
                    let llv: u16 = (ll - 1) as u16;
                    assert(val_bits(szv, 2) =~= val_bits(llv, 2)) by {
                        assert(hole_bits(m, p, 0) =~= field3(ll) + hole_bits(
                            m,
                            p + ll + (if ll < 4 {
                                1int
                            } else {
                                0int
                            }),
                            0,
                        )) by {
                            lemma_hole_pend(m, p, 0);
                        }
                        assert(val_bits(szv, 2)[0] == stream_bit(rest1, 0));
                        assert(val_bits(szv, 2)[1] == stream_bit(rest1, 1));
                        assert(stream_bit(rest1, 0) == stream_bit(hole_bits(m, p, 0), 1));
                        assert(stream_bit(rest1, 1) == stream_bit(hole_bits(m, p, 0), 2));
                        assert(hole_bits(m, p, 0)[1] == field3(ll)[1]);
                        assert(hole_bits(m, p, 0)[2] == field3(ll)[2]);
                        assert(field3(ll)[1] == ((((3 + ll) as u16) >> 1u16) & 1 == 1));
                        assert(field3(ll)[2] == ((((3 + ll) as u16) >> 0u16) & 1 == 1));
                        assert(val_bits(llv, 2)[0] == ((llv >> 1u16) & 1 == 1));
                        assert(val_bits(llv, 2)[1] == ((llv >> 0u16) & 1 == 1));
                        assert forall|k: int| 0 <= k < 2 implies #[trigger] val_bits(szv, 2)[k]
                            == val_bits(llv, 2)[k] by {
                            if k == 0 {
                            } else {
                                assert(k == 1);
                            }
                        }
                    }
                    crate::tools::lemma_val_bits_unique(szv, llv, 2);
                    assert forall|k: int|
                        0 <= k implies stream_bit(rest2, k) == stream_bit(
                        hole_bits(m, p, 0),
                        3 + k,
                    ) by {
                        assert(stream_bit(rest2, k) == stream_bit(rest1, k + 2));
                        assert(stream_bit(rest1, (k + 2) as int) == stream_bit(
                            hole_bits(m, p, 0),
                            1 + (k + 2),
                        ));
                    }
                }
            }
            let mut t: u8 = 0;
            let ghost bpre = board.board@;
            while t < sz
                invariant
                    t <= sz,
                    sz <= 4,
                    pos as int == p + t,
                    p + sz <= 86,
                    forall|j: int| 0 <= j < 81 ==> #[trigger] board.board@[j] <= 9,
                    board.board@ =~= Seq::new(
                        81,
                        |j: int|
                            if p <= j < p + t {
                                0u8
                            } else {
                                bpre[j]
                            },
                    ),
                decreases sz - t,
            {
                if pos < 81 {
                    board.set(pos as u8, 0);
                }
                pos = pos + 1;
                t = t + 1;
            }
            if sz < HOLE_ENCODE_MAX {
                pos = pos + 1;
            }
            proof {
                assert forall|sol: Seq<u8>, m: Seq<bool>| #[trigger] decodes_to(
                    sol,
                    m,
                    cd,
                ) implies (board.board@ =~= mask_applied(sol, m, pos as int) && (forall|k: int|
                    0 <= k ==> stream_bit(reader.rest(), k) == stream_bit(
                        hole_bits(m, pos as int, 0),
                        k,
                    ))) by {
                    lemma_run_from(m, p, 4);
                    let ll = run_from(m, p, 4);
                    assert(sz as int == ll);
                    assert(pos as int == p + ll + (if ll < 4 {
                        1int
                    } else {
                        0int
                    }));
                    assert(board.board@ =~= mask_applied(sol, m, pos as int)) by {
                        assert(bpre =~= mask_applied(sol, m, p));
                        assert forall|j: int| 0 <= j < 81 implies board.board@[j] == mask_applied(
                            sol,
                            m,
                            pos as int,
                        )[j] by {
                            if p <= j < p + ll {
                                assert(m[j]);
                            } else if j == p + ll && ll < 4 && j < 81 {
                                assert(!m[j]);
                                assert(board.board@[j] == bpre[j]);
                            }
                        }
                    }
                    assert(hole_bits(m, p, 0) =~= field3(ll) + hole_bits(m, pos as int, 0)) by {
                        lemma_hole_pend(m, p, 0);
                    }
                    assert forall|k: int|
                        0 <= k implies stream_bit(reader.rest(), k) == stream_bit(
                        hole_bits(m, pos as int, 0),
                        k,
                    ) by {
                        assert(stream_bit(rest2, k) == stream_bit(hole_bits(m, p, 0), 3 + k));
                        if 0 <= k < hole_bits(m, pos as int, 0).len() {
                            assert(hole_bits(m, p, 0)[3 + k] == hole_bits(m, pos as int, 0)[k]);
                        }
                    }
                }
            }
        } else {
            pos = pos + 1;
            proof {
                assert forall|sol: Seq<u8>, m: Seq<bool>| #[trigger] decodes_to(
                    sol,
                    m,
                    cd,
                ) implies (board.board@ =~= mask_applied(sol, m, pos as int) && (forall|k: int|
                    0 <= k ==> stream_bit(reader.rest(), k) == stream_bit(
                        hole_bits(m, pos as int, 0),
                        k,
                    ))) by {
                    assert(!m[p]);
                    assert(board.board@ =~= mask_applied(sol, m, p));
                    assert(mask_applied(sol, m, p) =~= mask_applied(sol, m, p + 1));
                    assert(hole_bits(m, p, 0) == seq![false] + hole_bits(m, p + 1, 0));
                    assert forall|k: int|
                        0 <= k implies stream_bit(reader.rest(), k) == stream_bit(
                        hole_bits(m, pos as int, 0),
                        k,
                    ) by {
                        assert(stream_bit(rest1, k) == stream_bit(hole_bits(m, p, 0), 1 + k));
                        if 0 <= k < hole_bits(m, p + 1, 0).len() {
                            assert(hole_bits(m, p, 0)[1 + k] == hole_bits(m, p + 1, 0)[k]);
                        }
                    }
                }
            }
        }
    }

    let mut out = String::new();
    let mut j: usize = 0;
    while j < 81
        invariant
            j <= 81,
            forall|t: int| 0 <= t < 81 ==> #[trigger] board.board@[t] <= 9,
            out@.len() == j as int,
            forall|t: int|
                0 <= t < j as int ==> #[trigger] out@[t] == crate::board::digit_char(
                    board.board@[t] as int,
                ),
        decreases 81 - j,
    {
        let lit = match board.board[j] {
            0 => "0",
            1 => "1",
            2 => "2",
            3 => "3",
            4 => "4",
            5 => "5",
            6 => "6",
            7 => "7",
            8 => "8",
            _ => "9",
        };
        proof {
            reveal_strlit("0");
            reveal_strlit("1");
            reveal_strlit("2");
            reveal_strlit("3");
            reveal_strlit("4");
            reveal_strlit("5");
            reveal_strlit("6");
            reveal_strlit("7");
            reveal_strlit("8");
            reveal_strlit("9");
            assert(lit@.len() == 1 && lit@[0] == crate::board::digit_char(
                board.board@[j as int] as int,
            ));
        }
        out.append(lit);
        j = j + 1;
    }

    let res: Option<String> = Some(out);
    proof {
        assert forall|sol: Seq<u8>, m: Seq<bool>| #[trigger] decodes_to(sol, m, cd) implies (res
            is Some && res->0@ == render(sol, m)) by {
            assert(board.board@ =~= mask_applied(sol, m, pos as int));
            assert(res->0@ =~= render(sol, m)) by {
                assert forall|t: int| 0 <= t < 81 implies out@[t] == render(sol, m)[t] by {
                    assert(board.board@[t] == mask_applied(sol, m, pos as int)[t]);
                    if m[t] {
                        assert(board.board@[t] == 0);
                    } else {
                        assert(board.board@[t] == sol[t]);
                    }
                }
            }
        }
    }
    res
}

/// The codec round-trip law: whatever solved grid the encoder committed to,
/// rendering it with the puzzle's own holes re-opened gives back exactly the
/// original 81-character text. Together with `encode`'s postcondition (the
/// bytes carry `enc_stream(sol, holes_of(p))` for such a grid) and `decode`'s
/// (those bytes decode to `render(sol, holes_of(p))`), decoding an encoding
/// returns the original puzzle.
pub proof fn lemma_round_trip(p: Seq<char>, sol: Seq<u8>)
    requires
        p.len() == 81,
        forall|i: int| 0 <= i < 81 ==> is_digit_char(#[trigger] p[i]),
        valid_grid(sol),
        grid_extends(sol, digits_of(p)),
    ensures
        render(sol, holes_of(p)) == p,
{
    assert forall|i: int| 0 <= i < 81 implies render(sol, holes_of(p))[i] == p[i] by {
        if holes_of(p)[i] {
            assert(char_digit(p[i]) == 0);
            assert(p[i] == '0');
        } else {
            assert(digits_of(p)[i] != 0);
            assert(sol[i] == char_digit(p[i]));
            assert(crate::board::digit_char(char_digit(p[i]) as int) == p[i]);
        }
    }
    assert(render(sol, holes_of(p)) =~= p);
}

/// The hole mask round-trips exactly: in the rendered text a cell reads as a
/// blank precisely when the mask marks it as one, since a valid grid never
/// holds a zero digit. With `decode`'s postcondition this says that decoding
/// an encoded mask reproduces the mask, for every 81-entry mask.
pub proof fn lemma_mask_round_trip(sol: Seq<u8>, m: Seq<bool>)
    requires
        valid_grid(sol),
        m.len() == 81,
    ensures
        forall|i: int| 0 <= i < 81 ==> ((#[trigger] render(sol, m)[i] == '0') <==> m[i]),
{
    assert forall|i: int| 0 <= i < 81 implies ((#[trigger] render(sol, m)[i] == '0')
        <==> m[i]) by {
        if !m[i] {
            assert(1 <= sol[i] <= 9);
            assert(crate::board::digit_char(sol[i] as int) != '0');
        }
    }
}

/// The row-major cell order both codec directions walk.
pub fn pattern_linear(i: u8) -> (r: u8)
    ensures
        r == i,
{
    i
}

/// A cell order that strides by two.
pub fn pattern_c2(i: u8) -> (r: u8)
    requires
        i < 81,
    ensures
        r as int == (i as int * 2) % 81,
{
    i * 2 % 81
}

/// A cell order that strides by four.
pub fn pattern_c4(i: u8) -> (r: u8)
    requires
        i < 81,
    ensures
        r as int == (i as int * 4) % 81,
{
    ((i as u32 * 4) % 81) as u8
}

/// A cell order that strides by eight.
pub fn pattern_c8(i: u8) -> (r: u8)
    requires
        i < 81,
    ensures
        r as int == (i as int * 8) % 81,
{
    ((i as u32 * 8) % 81) as u8
}

/// A cell order that strides by sixteen.
pub fn pattern_c16(i: u8) -> (r: u8)
    requires
        i < 81,
    ensures
        r as int == (i as int * 16) % 81,
{
    ((i as u32 * 16) % 81) as u8
}

} // verus!
