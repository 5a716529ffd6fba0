//! The naive fixed-width codec: one nibble per digit, with short zero runs
//! collapsed into a single nibble.
use vstd::prelude::*;

use crate::predictive::{char_digit, is_digit_char};

verus! {

/// How many consecutive zeros start at `p`, capped at `cap`.
pub open spec fn zero_run(nums: Seq<u8>, p: int, cap: int) -> nat
    decreases nums.len() - p,
{
    if p < 0 || p >= nums.len() || nums[p] != 0 || cap <= 0 {
        0
    } else {
        1 + zero_run(nums, p + 1, cap - 1)
    }
}

/// The nibble stream for the digits from `p` on: a non-zero digit is itself;
/// a single zero is `0`; a run of `2..=7` zeros is one nibble `10..=15`.
pub open spec fn nibbles(nums: Seq<u8>, p: int) -> Seq<u8>
    decreases nums.len() - p,
    via nibbles_decreases
{
    if p < 0 || p >= nums.len() {
        Seq::empty()
    } else if nums[p] != 0 {
        seq![nums[p]] + nibbles(nums, p + 1)
    } else {
        let c = zero_run(nums, p, 7);
        seq![
            if c == 1 {
                0u8
            } else {
                (8 + c) as u8
            },
        ] + nibbles(nums, p + c)
    }
}

#[via_fn]
proof fn nibbles_decreases(nums: Seq<u8>, p: int) {
    if !(p < 0 || p >= nums.len()) && nums[p] == 0 {
        assert(zero_run(nums, p, 7) >= 1);
        lemma_zero_run_le(nums, p, 7);
    }
}

/// A zero run never leaves the sequence.
pub proof fn lemma_zero_run_le(nums: Seq<u8>, p: int, cap: int)
    requires
        0 <= p <= nums.len(),
    ensures
        p + zero_run(nums, p, cap) <= nums.len(),
    decreases nums.len() - p,
{
    if !(p >= nums.len() || nums[p] != 0 || cap <= 0) {
        lemma_zero_run_le(nums, p + 1, cap - 1);
    }
}

/// Nibbles packed two to a byte, high first; a trailing odd nibble gets a
/// zero low half.
pub open spec fn pack(nb: Seq<u8>) -> Seq<u8>
    decreases nb.len(),
{
    if nb.len() == 0 {
        Seq::empty()
    } else if nb.len() == 1 {
        seq![(nb[0] * 16) as u8]
    } else {
        seq![(nb[0] * 16 + nb[1]) as u8] + pack(nb.skip(2))
    }
}

/// The characters one nibble decodes to: its digit, or a run of zeros.
pub open spec fn nib_chars(x: u8) -> Seq<char> {
    if x <= 9 {
        seq![crate::board::digit_char(x as int)]
    } else {
        Seq::new((x - 8) as nat, |t: int| '0')
    }
}

/// The decoded text: each byte contributes its high then its low nibble,
/// stopping as soon as 81 characters are reached after a high nibble.
pub open spec fn simple_decoded(bytes: Seq<u8>, j: int, out: Seq<char>) -> Seq<char>
    decreases bytes.len() - j,
{
    if j < 0 || j >= bytes.len() {
        out
    } else {
        let out1 = out + nib_chars((bytes[j] / 16) as u8);
        if out1.len() >= 81 {
            out1
        } else {
            simple_decoded(bytes, j + 1, out1 + nib_chars((bytes[j] % 16) as u8))
        }
    }
}

/// Packing two nibbles appends one byte.
proof fn lemma_pack_snoc2(nb: Seq<u8>, n1: u8, n2: u8)
    requires
        nb.len() % 2 == 0,
    ensures
        pack(nb + seq![n1, n2]) == pack(nb) + seq![(n1 * 16 + n2) as u8],
    decreases nb.len(),
{
    let x = nb + seq![n1, n2];
    if nb.len() == 0 {
        assert(x.len() == 2);
        assert(x[0] == n1 && x[1] == n2);
        assert(x.skip(2) =~= Seq::<u8>::empty());
        assert(pack(x) == seq![(x[0] * 16 + x[1]) as u8] + pack(x.skip(2)));
        assert(pack(x) =~= pack(nb) + seq![(n1 * 16 + n2) as u8]);
    } else {
        lemma_pack_snoc2(nb.skip(2), n1, n2);
        assert(x.skip(2) =~= nb.skip(2) + seq![n1, n2]);
        assert(x.len() >= 2);
        assert(x[0] == nb[0] && x[1] == nb[1]);
        assert(pack(x) == seq![(x[0] * 16 + x[1]) as u8] + pack(x.skip(2)));
        assert(pack(x) =~= pack(nb) + seq![(n1 * 16 + n2) as u8]);
    }
}

/// Packing a final odd nibble appends one zero-padded byte.
proof fn lemma_pack_snoc1(nb: Seq<u8>, n1: u8)
    requires
        nb.len() % 2 == 0,
    ensures
        pack(nb + seq![n1]) == pack(nb) + seq![(n1 * 16) as u8],
    decreases nb.len(),
{
    let x = nb + seq![n1];
    if nb.len() == 0 {
        assert(x.len() == 1);
        assert(x[0] == n1);
        assert(pack(x) == seq![(x[0] * 16) as u8]);
        assert(pack(x) =~= pack(nb) + seq![(n1 * 16) as u8]);
    } else {
        lemma_pack_snoc1(nb.skip(2), n1);
        assert(x.skip(2) =~= nb.skip(2) + seq![n1]);
        assert(x.len() >= 2 && nb.len() >= 2);
        assert(x[0] == nb[0] && x[1] == nb[1]);
        assert(pack(x) == seq![(x[0] * 16 + x[1]) as u8] + pack(x.skip(2)));
        assert(pack(x) =~= pack(nb) + seq![(n1 * 16) as u8]);
    }
}

/// Reads one nibble from the digit stream: a non-zero digit as itself, a run
/// of up to seven zeros as one run nibble; `None` once the digits are spent.
fn encode_single(nums: &Vec<u8>, pos: &mut usize) -> (r: Option<u8>)
    requires
        forall|j: int| 0 <= j < nums@.len() ==> #[trigger] nums@[j] <= 9,
        *old(pos) <= nums@.len(),
    ensures
        *old(pos) >= nums@.len() ==> r is None && *final(pos) == *old(pos),
        *old(pos) < nums@.len() ==> r is Some && r->0 <= 15 && *old(pos) < *final(pos)
            <= nums@.len() && nibbles(nums@, *old(pos) as int) == seq![r->0] + nibbles(
            nums@,
            *final(pos) as int,
        ),
{
    if *pos >= nums.len() {
        return None;
    }
    let x = nums[*pos];
    if x != 0 {
        *pos = *pos + 1;
        Some(x)
    } else {
        let ghost p0 = *pos as int;
        let mut zerocount: u8 = 1;
        *pos = *pos + 1;
        while *pos < nums.len() && nums[*pos] == 0 && zerocount < 7
            invariant
                forall|j: int| 0 <= j < nums@.len() ==> #[trigger] nums@[j] <= 9,
                1 <= zerocount <= 7,
                p0 + zerocount == *pos as int,
                *pos as int <= nums@.len(),
                zero_run(nums@, p0, 7) == zerocount + zero_run(
                    nums@,
                    *pos as int,
                    7 - zerocount,
                ),
            decreases nums@.len() - *pos,
        {
            zerocount = zerocount + 1;
            *pos = *pos + 1;
        }
        proof {
            assert(zero_run(nums@, *pos as int, 7 - zerocount) == 0);
            assert(zero_run(nums@, p0, 7) == zerocount);
        }
        match zerocount {
            1 => Some(0),
            x => Some(9 + x - 1),
        }
    }
}

/// Encodes a digit string (any length, `0` for blanks) into the nibble form,
/// two nibbles per byte.
pub fn encode(string: &str) -> (r: Vec<u8>)
    requires
        forall|i: int| 0 <= i < string@.len() ==> is_digit_char(#[trigger] string@[i]),
    ensures
        r@ == pack(nibbles(Seq::new(string@.len(), |i: int| char_digit(string@[i])), 0)),
{
    let mut nums: Vec<u8> = Vec::new();
    let n = string.unicode_len();
    let mut ci: usize = 0;
    while ci < n
        invariant
            ci <= n,
            n == string@.len(),
            forall|i: int| 0 <= i < string@.len() ==> is_digit_char(#[trigger] string@[i]),
            nums@.len() == ci as int,
            forall|j: int| 0 <= j < ci as int ==> #[trigger] nums@[j] == char_digit(string@[j]),
            forall|j: int| 0 <= j < ci as int ==> #[trigger] nums@[j] <= 9,
        decreases n - ci,
    {
        let ch = string.get_char(ci);
        let dv: u8 = match ch {
            '1' => 1,
            '2' => 2,
            '3' => 3,
            '4' => 4,
            '5' => 5,
            '6' => 6,
            '7' => 7,
            '8' => 8,
            '9' => 9,
            _ => 0,
        };
        nums.push(dv);
        ci = ci + 1;
    }
    proof {
        assert(nums@ =~= Seq::new(string@.len(), |i: int| char_digit(string@[i])));
    }

    let mut ret: Vec<u8> = Vec::new();
    let mut p: usize = 0;
    let ghost mut nbs: Seq<u8> = Seq::empty();
    proof {
        assert(nibbles(nums@, 0) =~= nbs + nibbles(nums@, 0));
        assert(ret@ =~= pack(nbs));
    }
    loop
        invariant_except_break
            p <= nums@.len(),
            forall|j: int| 0 <= j < nums@.len() ==> #[trigger] nums@[j] <= 9,
            nibbles(nums@, 0) == nbs + nibbles(nums@, p as int),
            ret@ == pack(nbs),
            nbs.len() % 2 == 0,
        ensures
            ret@ == pack(nibbles(nums@, 0)),
        decreases nums@.len() - p + 1,
    {
        let mut outnum: u8;
        let num1 = encode_single(&nums, &mut p);
        match num1 {
            None => {
                proof {
                    assert(nibbles(nums@, p as int) =~= Seq::<u8>::empty());
                    assert(nibbles(nums@, 0) =~= nbs);
                }
                break ;
            },
            Some(n1) => {
                outnum = n1 << 4;
                let ghost p_mid = p as int;
                let num2 = encode_single(&nums, &mut p);
                if let Some(n2) = num2 {
                    outnum = outnum | n2;
                    proof {
                        assert((n1 << 4u8) | n2 == n1 * 16 + n2) by (bit_vector)
                            requires
                                n1 <= 15,
                                n2 <= 15,
                        ;
                        lemma_pack_snoc2(nbs, n1, n2);
                        assert(nbs + seq![n1] + seq![n2] =~= nbs + seq![n1, n2]);
                        nbs = nbs + seq![n1, n2];
                        assert(nibbles(nums@, 0) =~= nbs + nibbles(nums@, p as int));
                    }
                    ret.push(outnum);
                } else {
                    proof {
                        assert((n1 << 4u8) == n1 * 16) by (bit_vector)
                            requires
                                n1 <= 15,
                        ;
                        lemma_pack_snoc1(nbs, n1);
                        nbs = nbs + seq![n1];
                        assert(nibbles(nums@, p_mid) =~= Seq::<u8>::empty());
                        assert(nibbles(nums@, 0) =~= nbs);
                    }
                    ret.push(outnum);
                    break ;
                }
            },
        }
    }
    ret
}

/// Encodes a digit string with a plain nibble per digit, no run collapsing.
pub fn trivial_encode(string: &str) -> (r: Vec<u8>)
    requires
        forall|i: int| 0 <= i < string@.len() ==> is_digit_char(#[trigger] string@[i]),
    ensures
        r@ == pack(Seq::new(string@.len(), |i: int| char_digit(string@[i]))),
{
    let mut nums: Vec<u8> = Vec::new();
    let n = string.unicode_len();
    let mut ci: usize = 0;
    while ci < n
        invariant
            ci <= n,
            n == string@.len(),
            forall|i: int| 0 <= i < string@.len() ==> is_digit_char(#[trigger] string@[i]),
            nums@.len() == ci as int,
            forall|j: int| 0 <= j < ci as int ==> #[trigger] nums@[j] == char_digit(string@[j]),
            forall|j: int| 0 <= j < ci as int ==> #[trigger] nums@[j] <= 9,
        decreases n - ci,
    {
        let ch = string.get_char(ci);
        let dv: u8 = match ch {
            '1' => 1,
            '2' => 2,
            '3' => 3,
            '4' => 4,
            '5' => 5,
            '6' => 6,
            '7' => 7,
            '8' => 8,
            '9' => 9,
            _ => 0,
        };
        nums.push(dv);
        ci = ci + 1;
    }
    let ghost digs = Seq::new(string@.len(), |i: int| char_digit(string@[i]));
    proof {
        assert(nums@ =~= digs);
    }

    let mut ret: Vec<u8> = Vec::new();
    let mut p: usize = 0;
    while p < nums.len()
        invariant
            p <= nums@.len(),
            p % 2 == 0 || p == nums@.len(),
            nums@ == digs,
            forall|j: int| 0 <= j < nums@.len() ==> #[trigger] nums@[j] <= 9,
            ret@ == pack(digs.take(p as int)),
        decreases nums@.len() - p,
    {
        let x = nums[p];
        if p + 1 < nums.len() {
            let y = nums[p + 1];
            let b = x << 4 | y;
            proof {
                assert((x << 4u8) | y == x * 16 + y) by (bit_vector)
                    requires
                        x <= 15,
                        y <= 15,
                ;
                lemma_pack_snoc2(digs.take(p as int), x, y);
                assert(digs.take(p as int) + seq![x, y] =~= digs.take(p + 2));
            }
            ret.push(b);
            p = p + 2;
        } else {
            let b = x << 4;
            proof {
                assert((x << 4u8) == x * 16) by (bit_vector)
                    requires
                        x <= 15,
                ;
                lemma_pack_snoc1(digs.take(p as int), x);
                assert(digs.take(p as int) + seq![x] =~= digs.take(p + 1));
            }
            ret.push(b);
            p = p + 1;
            proof {
                assert(digs.take(p as int) =~= digs);
            }
        }
    }
    proof {
        assert(digs.take(nums@.len() as int) =~= digs);
    }
    ret
}

/// Decodes the nibble form back to a digit string: each nibble is a digit or
/// a zero run, and decoding stops once 81 characters are reached after a
/// high nibble.
pub fn decode(coded: Vec<u8>) -> (r: String)
    ensures
        r@ == simple_decoded(coded@, 0, Seq::empty()),
{
    let mut ret = String::new();
    let mut j: usize = 0;
    while j < coded.len()
        invariant
            j <= coded@.len(),
            simple_decoded(coded@, 0, Seq::empty()) == simple_decoded(coded@, j as int, ret@),
        decreases coded@.len() - j,
    {
        let ghost head = ret@;
        let byte = coded[j];
        let first = (byte & 0xF0) >> 4;
        let second = byte & 0x0F;
        proof {
            assert((byte & 0xf0) >> 4u8 == byte / 16 && byte & 0x0f == byte % 16 && byte / 16 < 16)
                by (bit_vector);
        }

        push_nibble(&mut ret, first);
        if ret.unicode_len() >= 81 {
            proof {
                assert(ret@ == head + nib_chars((byte / 16) as u8));
                assert(simple_decoded(coded@, j as int, head) == ret@);
            }
            return ret;
        }
        push_nibble(&mut ret, second);
        proof {
            assert(ret@ == head + nib_chars((byte / 16) as u8) + nib_chars((byte % 16) as u8));
            assert(simple_decoded(coded@, j as int, head) == simple_decoded(coded@, j + 1, ret@))
                by {
                assert((head + nib_chars((byte / 16) as u8)).len() < 81);
                assert((head + nib_chars((byte / 16) as u8)) + nib_chars((byte % 16) as u8)
                    =~= ret@);
            }
        }
        j = j + 1;
    }
    ret
}

/// Appends what one nibble stands for: its digit, or its run of zeros.
fn push_nibble(ret: &mut String, nibble: u8)
    requires
        nibble < 16,
    ensures
        final(ret)@ == old(ret)@ + nib_chars(nibble),
{
    if nibble <= 9 {
        let lit = match nibble {
            0 => "0",
            1 => "1",
            2 => "2",
            3 => "3",
            4 => "4",
            5 => "5",
            6 => "6",
            7 => "7",
            8 => "8",
            _ => "9",
        };
        proof {
            reveal_strlit("0");
            reveal_strlit("1");
            reveal_strlit("2");
            reveal_strlit("3");
            reveal_strlit("4");
            reveal_strlit("5");
            reveal_strlit("6");
            reveal_strlit("7");
            reveal_strlit("8");
            reveal_strlit("9");
            assert(lit@ =~= nib_chars(nibble));
        }
        ret.append(lit);
    } else {
        let count = nibble - 8;
        let ghost r0 = ret@;
        let mut t: u8 = 0;
        while t < count
            invariant
                t <= count,
                nibble < 16,
                count == nibble - 8,
                ret@ == r0 + Seq::new(t as nat, |x: int| '0'),
            decreases count - t,
        {
            proof {
                reveal_strlit("0");
            }
            ret.append("0");
            proof {
                assert(ret@ =~= r0 + Seq::new((t + 1) as nat, |x: int| '0'));
            }
            t = t + 1;
        }
        proof {
            assert(r0 + Seq::new(count as nat, |x: int| '0') =~= r0 + nib_chars(nibble));
        }
    }
}

} // verus!
