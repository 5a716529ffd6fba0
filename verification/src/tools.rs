//! MSB-first bit writer and reader over a byte buffer, with sub-byte fields.
use vstd::prelude::*;

verus! {

/// Bit `k` (0 = most significant) of a 16-bit accumulator.
pub open spec fn bit16(x: u16, k: u16) -> bool {
    (x >> ((15 - k) as u16)) & 1 == 1
}

/// Bit `k` (0 = most significant) of a byte.
pub open spec fn bit8(b: u8, k: u8) -> bool {
    (b >> ((7 - k) as u8)) & 1 == 1
}

/// The bits of a byte sequence, most significant bit of each byte first.
pub open spec fn bytes_bits(bs: Seq<u8>) -> Seq<bool> {
    Seq::new(bs.len() * 8, |k: int| bit8(bs[k / 8], (k % 8) as u8))
}

/// The low `len` bits of `v`, most significant first: the rendering of a
/// field of width `len`.
pub open spec fn val_bits(v: u16, len: int) -> Seq<bool> {
    Seq::new(len as nat, |j: int| (v >> ((len - 1 - j) as u16)) & 1 == 1)
}

/// The bit a stream yields at offset `k`: its own bit while one is left, and
/// zero forever after, which is how both the byte padding and the trailing
/// zero elision read back.
pub open spec fn stream_bit(s: Seq<bool>, k: int) -> bool {
    0 <= k < s.len() && s[k]
}

/// An MSB-first bit writer: finished bytes, plus a 16-bit accumulator holding
/// `pos` pending bits at its top.
pub struct BitWriter {
    bits: Vec<u8>,
    buffer: u16,
    pos: u8,
}

/// An MSB-first bit reader: a 16-bit lookahead buffer whose first `pos` bits
/// are consumed, refilled from the reversed remainder of the input.
pub struct BitReader {
    bits: Vec<u8>,
    buffer: u16,
    pos: u8,
}

impl BitWriter {
    /// The accumulator holds fewer than eight pending bits and nothing below
    /// them.
    pub closed spec fn wf(self) -> bool {
        self.pos <= 7 && (self.buffer & (0xffffu16 >> self.pos)) == 0
    }

    /// Every bit written so far, in order.
    pub closed spec fn bits_written(self) -> Seq<bool> {
        bytes_bits(self.bits@) + Seq::new(self.pos as nat, |k: int| bit16(self.buffer, k as u16))
    }

    /// An empty stream.
    pub fn new() -> (w: BitWriter)
        ensures
            w.wf(),
            w.bits_written() =~= Seq::<bool>::empty(),
    {
        let w = BitWriter { bits: Vec::new(), pos: 0, buffer: 0 };
        proof {
            assert(0u16 & (0xffffu16 >> 0u16) == 0) by (bit_vector);
        }
        w
    }

    /// Appends the low `length` bits of `value`, most significant first.
    pub fn write(&mut self, value: u8, length: u8) -> (r: ())
        requires
            old(self).wf(),
            1 <= length <= 8,
            (value as u16) < (1u16 << (length as u16)),
        ensures
            final(self).wf(),
            final(self).bits_written() =~= old(self).bits_written() + val_bits(
                value as u16,
                length as int,
            ),
    {
        let ghost w0 = *self;
        let nb: u16 = self.buffer | ((value as u16) << (16 - length - self.pos) as u16);
        proof {
            lemma_write_inject(self.buffer, value as u16, self.pos as u16, length as u16);
        }
        self.buffer = nb;
        self.pos = self.pos + length;
        if self.pos >= 8 {
            let byte: u8 = ((self.buffer & 0xFF00) >> 8) as u8;
            proof {
                lemma_high_byte(self.buffer);
                lemma_shift8(self.buffer);
            }
            self.bits.push(byte);
            self.buffer = self.buffer << 8;
            self.pos = self.pos - 8;
            proof {
                let p0 = w0.pos as u16;
                let len = length as u16;
                assert((w0.buffer | ((value as u16) << (16u16 - len - p0))) << 8 == nb << 8);
                lemma_wf_after_flush(w0.buffer, value as u16, p0, len);
                assert forall|k: int|
                    0 <= k < self.bits_written().len() implies self.bits_written()[k] == (
                w0.bits_written() + val_bits(value as u16, length as int))[k] by {
                    let n = w0.bits@.len() * 8;
                    if k < n {
                        assert(self.bits@[k / 8] == w0.bits@[k / 8]);
                    } else if k < n + 8 {
                        // the freshly flushed byte
                        assert(self.bits@[k / 8] == byte) by {
                            assert(k / 8 == w0.bits@.len());
                        }
                        assert(bit8(byte, (k % 8) as u8) == bit16(nb, (k % 8) as u16));
                        if k - n < w0.pos as int {
                            assert(bit16(nb, (k - n) as u16) == bit16(w0.buffer, (k - n) as u16));
                        } else {
                            assert(bit16(nb, (k - n) as u16) == ((value as u16 >> (((w0.pos as int)
                                + (length as int) - 1 - (k - n)) as u16)) & 1 == 1));
                        }
                    } else {
                        // bits still pending in the shifted accumulator
                        assert(bit16(self.buffer, ((k - n) - 8) as u16) == bit16(
                            nb,
                            (k - n) as u16,
                        ));
                        assert(bit16(nb, (k - n) as u16) == ((value as u16 >> (((w0.pos as int) + (
                        length as int) - 1 - (k - n)) as u16)) & 1 == 1));
                    }
                }
            }
        } else {
            proof {
                assert forall|k: int|
                    0 <= k < self.bits_written().len() implies self.bits_written()[k] == (
                w0.bits_written() + val_bits(value as u16, length as int))[k] by {
                    let n = w0.bits@.len() * 8;
                    if k >= n {
                        if k - n < w0.pos as int {
                            assert(bit16(nb, (k - n) as u16) == bit16(w0.buffer, (k - n) as u16));
                        } else {
                            assert(bit16(nb, (k - n) as u16) == ((value as u16 >> (((w0.pos as int)
                                + (length as int) - 1 - (k - n)) as u16)) & 1 == 1));
                        }
                    }
                }
            }
        }
    }

    /// Appends a field of up to 16 bits as up to two 8-bit sub-fields: the
    /// high byte first (always 8 bits wide when `length` exceeds 8), then the
    /// low byte in the remaining width.
    pub fn write_u16(&mut self, value: u16, length: u8) -> (r: ())
        requires
            old(self).wf(),
            1 <= length <= 16,
            length <= 8 ==> value < (1u16 << (length as u16)),
            length > 8 ==> ((value & 0x00ff) as u16) < (1u16 << ((length - 8) as u16)),
        ensures
            final(self).wf(),
            length <= 8 ==> final(self).bits_written() =~= old(self).bits_written() + val_bits(
                value,
                length as int,
            ),
            length > 8 ==> final(self).bits_written() =~= old(self).bits_written() + val_bits(
                ((value & 0xff00) >> 8) as u16,
                8,
            ) + val_bits((value & 0x00ff) as u16, (length - 8) as int),
    {
        if length <= 8 {
            proof {
                lemma_low_byte_val(value, length as u16);
            }
            self.write((value & 0x00FF) as u8, length);
            proof {
                assert(val_bits((value & 0x00ff) as u16, length as int) =~= val_bits(
                    value,
                    length as int,
                ));
            }
        } else {
            proof {
                assert(((value & 0xff00) >> 8) < (1u16 << 8u16)) by (bit_vector);
                assert(((value & 0xff00) >> 8) < 0x100) by (bit_vector);
                assert((value & 0x00ff) < 0x100) by (bit_vector);
            }
            self.write(((value & 0xFF00) >> 8) as u8, 8);
            self.write((value & 0x00FF) as u8, length - 8);
        }
    }

    /// Emits the pending partial byte, zero-padded at its low end, and hands
    /// the finished byte sequence out.
    pub fn disolve(self) -> (r: Vec<u8>)
        requires
            self.wf(),
        ensures
            forall|k: int|
                stream_bit(bytes_bits(r@), k) == stream_bit(self.bits_written(), k),
            r@.len() * 8 < self.bits_written().len() + 8,
            self.bits_written().len() <= r@.len() * 8,
    {
        let mut s = self;
        if s.pos > 0 {
            let byte: u8 = ((s.buffer & 0xFF00) >> 8) as u8;
            proof {
                lemma_high_byte(s.buffer);
                lemma_wf_high_zeros(s.buffer, s.pos as u16);
            }
            s.bits.push(byte);
            proof {
                assert forall|k: int|
                    stream_bit(bytes_bits(s.bits@), k) == stream_bit(
                        self.bits_written(),
                        k,
                    ) by {
                    let n = (s.bits@.len() - 1) * 8;
                    if 0 <= k < n {
                        assert(bytes_bits(s.bits@)[k] == bit8(s.bits@[k / 8], (k % 8) as u8));
                        assert(s.bits@[k / 8] == self.bits@[k / 8]);
                    } else if n <= k < n + 8 {
                        assert(k / 8 == s.bits@.len() - 1);
                        assert(bytes_bits(s.bits@)[k] == bit8(byte, (k % 8) as u8));
                        assert(bit8(byte, (k % 8) as u8) == bit16(s.buffer, (k % 8) as u16));
                        if k - n >= s.pos as int {
                            assert(!bit16(s.buffer, (k - n) as u16));
                        }
                    }
                }
            }
            s.pos = 0;
        }
        s.bits
    }

    /// Like `disolve`, but strips every all-zero byte from the end of the
    /// stream first, the pending partial byte included; reading past the
    /// shortened stream yields the same zero bits the bytes held.
    pub fn disolve_drop_zeros(self) -> (r: Vec<u8>)
        requires
            self.wf(),
        ensures
            forall|k: int|
                stream_bit(bytes_bits(r@), k) == stream_bit(self.bits_written(), k),
            r@.len() * 8 < self.bits_written().len() + 8,
            r@.len() == 0 || r@[r@.len() - 1] != 0,
    {
        let mut s = self;
        if s.pos > 0 && s.buffer > 0 {
            let byte: u8 = ((s.buffer & 0xFF00) >> 8) as u8;
            proof {
                lemma_high_byte(s.buffer);
                lemma_wf_high_zeros(s.buffer, s.pos as u16);
            }
            s.bits.push(byte);
            proof {
                assert forall|k: int|
                    stream_bit(bytes_bits(s.bits@), k) == stream_bit(
                        self.bits_written(),
                        k,
                    ) by {
                    let n = (s.bits@.len() - 1) * 8;
                    if 0 <= k < n {
                        assert(bytes_bits(s.bits@)[k] == bit8(s.bits@[k / 8], (k % 8) as u8));
                        assert(s.bits@[k / 8] == self.bits@[k / 8]);
                    } else if n <= k < n + 8 {
                        assert(k / 8 == s.bits@.len() - 1);
                        assert(bytes_bits(s.bits@)[k] == bit8(byte, (k % 8) as u8));
                        assert(bit8(byte, (k % 8) as u8) == bit16(s.buffer, (k % 8) as u16));
                        if k - n >= s.pos as int {
                            assert(!bit16(s.buffer, (k - n) as u16));
                        }
                    }
                }
            }
            s.pos = 0;
        } else if s.pos > 0 {
            proof {
                // An empty accumulator contributes only zero bits.
                lemma_wf_high_zeros(s.buffer, s.pos as u16);
                assert forall|k: int|
                    stream_bit(bytes_bits(s.bits@), k) == stream_bit(
                        self.bits_written(),
                        k,
                    ) by {
                    let n = s.bits@.len() * 8;
                    if n <= k < n + s.pos as int {
                        assert(s.buffer == 0) by {
                            assert(s.buffer & (0xffffu16 >> (s.pos as u16)) == 0);
                        }
                        let kb: u16 = (k - n) as u16;
                        assert(!bit16(0u16, kb)) by (bit_vector);
                    }
                }
            }
            s.pos = 0;
        }
        let ghost full = s.bits@;
        loop
            invariant
                s.bits@.len() <= full.len(),
                s.bits@ == full.take(s.bits@.len() as int),
                forall|k: int|
                    stream_bit(bytes_bits(s.bits@), k) == stream_bit(bytes_bits(full), k),
            ensures
                s.bits@.len() == 0 || s.bits@[s.bits@.len() - 1] != 0,
            decreases s.bits@.len(),
        {
            let last_opt = if s.bits.len() > 0 {
                Some(s.bits[s.bits.len() - 1])
            } else {
                None
            };
            match last_opt {
                Some(x) => {
                    if x != 0 {
                        break ;
                    }
                    let ghost pre = s.bits@;
                    s.bits.pop();
                    proof {
                        assert(s.bits@ =~= full.take(s.bits@.len() as int));
                        assert forall|k: int|
                            stream_bit(bytes_bits(s.bits@), k) == stream_bit(
                                bytes_bits(pre),
                                k,
                            ) by {
                            let n = s.bits@.len() * 8;
                            if 0 <= k < n {
                                assert(bytes_bits(s.bits@)[k] == bit8(
                                    s.bits@[k / 8],
                                    (k % 8) as u8,
                                ));
                                assert(s.bits@[k / 8] == pre[k / 8]);
                            } else if n <= k < n + 8 {
                                assert(k / 8 == s.bits@.len());
                                assert(pre[k / 8] == 0);
                                let kb: u8 = (k % 8) as u8;
                                assert(!bit8(0u8, kb)) by (bit_vector);
                            }
                        }
                    }
                },
                None => {
                    break ;
                },
            }
        }
        s.bits
    }
}

impl BitReader {
    /// At most eight bits of the lookahead are consumed.
    pub closed spec fn wf(self) -> bool {
        self.pos <= 8
    }

    /// The bits not yet consumed, the lookahead's zero padding included.
    pub closed spec fn rest(self) -> Seq<bool> {
        Seq::new((16 - self.pos) as nat, |k: int| bit16(self.buffer, (self.pos + k) as u16))
            + bytes_bits(self.bits@.reverse())
    }

    /// A reader over `vec`, with the first two bytes (zero when missing)
    /// preloaded into the lookahead: it will yield `vec`'s bits in order and
    /// zeros forever after.
    pub fn new(vec: Vec<u8>) -> (r: BitReader)
        ensures
            r.wf(),
            forall|k: int| stream_bit(r.rest(), k) == stream_bit(bytes_bits(vec@), k),
    {
        let mut rev: Vec<u8> = Vec::new();
        let mut i: usize = vec.len();
        while i > 0
            invariant
                i <= vec@.len(),
                rev@.len() + i == vec@.len(),
                forall|j: int|
                    0 <= j < rev@.len() ==> #[trigger] rev@[j] == vec@[vec@.len() - 1 - j],
            decreases i,
        {
            i = i - 1;
            rev.push(vec[i]);
        }
        let b0 = match rev.pop() {
            Some(x) => x,
            None => 0,
        };
        let b1 = match rev.pop() {
            Some(x) => x,
            None => 0,
        };
        let buffer = ((b0 as u16) << 8) | (b1 as u16);
        let r = BitReader { bits: rev, pos: 0, buffer };
        proof {
            let n = vec@.len() as int;
            lemma_preload(b0, b1);
            assert(r.bits@.reverse() =~= if n >= 2 {
                vec@.subrange(2, n)
            } else {
                Seq::<u8>::empty()
            });
            assert forall|k: int|
                stream_bit(r.rest(), k) == stream_bit(bytes_bits(vec@), k) by {
                if 0 <= k < 8 {
                    assert(r.rest()[k] == bit16(buffer, k as u16));
                    if n >= 1 {
                        assert(b0 == vec@[0]);
                        assert(bytes_bits(vec@)[k] == bit8(vec@[k / 8], (k % 8) as u8));
                        assert(k / 8 == 0 && k % 8 == k);
                    } else {
                        let kb: u8 = k as u8;
                        assert(!bit8(0u8, kb)) by (bit_vector);
                    }
                } else if 8 <= k < 16 {
                    assert(r.rest()[k] == bit16(buffer, k as u16));
                    if n >= 2 {
                        assert(b1 == vec@[1]);
                        assert(bytes_bits(vec@)[k] == bit8(vec@[k / 8], (k % 8) as u8));
                        crate::calc::lemma_divmod(k, 8, 1, k - 8);
                    } else {
                        let kb: u8 = (k - 8) as u8;
                        assert(!bit8(0u8, kb)) by (bit_vector);
                    }
                } else if k >= 16 {
                    if k < 8 * n {
                        assert(n >= 2);
                        let m = k - 16;
                        assert(r.rest()[k] == bytes_bits(r.bits@.reverse())[m]);
                        assert(bytes_bits(r.bits@.reverse())[m] == bit8(
                            r.bits@.reverse()[m / 8],
                            (m % 8) as u8,
                        ));
                        crate::calc::lemma_divmod(k, 8, m / 8 + 2, m % 8);
                        assert(r.bits@.reverse()[m / 8] == vec@[k / 8]);
                    } else {
                        assert(!stream_bit(r.rest(), k));
                    }
                }
            }
        }
        r
    }

    /// Extracts the next `length` bits (most significant first) as a value,
    /// refilling the lookahead from the next byte, or zero once the input is
    /// exhausted.
    pub fn read(&mut self, length: u8) -> (r: u8)
        requires
            old(self).wf(),
            length <= 8,
        ensures
            final(self).wf(),
            (r as u16) < (1u16 << (length as u16)),
            val_bits(r as u16, length as int) =~= Seq::new(
                length as nat,
                |k: int| stream_bit(old(self).rest(), k),
            ),
            forall|k: int|
                0 <= k ==> stream_bit(final(self).rest(), k) == stream_bit(
                    old(self).rest(),
                    k + length,
                ),
    {
        let ghost r0 = *self;
        if length == 0 {
            proof {
                assert((1u16 << 0u16) == 1) by (bit_vector);
                assert(val_bits(0u16, 0) =~= Seq::new(
                    0,
                    |k: int| stream_bit(r0.rest(), k),
                ));
            }
            return 0;
        }
        proof {
            let lenw: u16 = length as u16;
            assert((1u16 << lenw) >= 1) by (bit_vector)
                requires
                    1 <= lenw <= 8,
            ;
        }
        let mask: u16 = (1u16 << length as u16) - 1;
        let displacement: u8 = 16 - self.pos - length;
        let ret: u8 = #[verifier::truncate] (((self.buffer & (mask << displacement as u16))
            >> displacement as u16) as u8);
        proof {
            lemma_read_extract(self.buffer, self.pos as u16, length as u16);
        }
        self.pos = self.pos + length;
        if self.pos > 8 {
            let next = match self.bits.pop() {
                Some(x) => x,
                None => 0,
            };
            let ghost had_byte = r0.bits@.len() > 0;
            proof {
                lemma_preload_or(self.buffer, next);
            }
            self.buffer = (self.buffer << 8) | (next as u16);
            self.pos = self.pos - 8;
            proof {
                let p0 = r0.pos as int;
                let p1 = self.pos as int;
                assert(p1 == p0 + length - 8);
                assert forall|k: int|
                    0 <= k implies stream_bit(self.rest(), k) == stream_bit(
                    r0.rest(),
                    k + length,
                ) by {
                    let kk = k + length;
                    if k < 16 - p1 {
                        // still inside the lookahead
                        if p1 + k < 8 {
                            assert(self.rest()[k] == bit16(self.buffer, (p1 + k) as u16));
                            let kb: u16 = (p1 + k) as u16;
                            assert(bit16(self.buffer, kb) == bit16(r0.buffer, (kb + 8) as u16));
                            assert((kb + 8) as u16 == (p0 + kk) as u16);
                            assert(kk < 16 - p0);
                            assert(r0.rest()[kk] == bit16(r0.buffer, (p0 + kk) as u16));
                        } else {
                            // bits of the freshly loaded byte
                            assert(self.rest()[k] == bit8(next, ((p1 + k) - 8) as u8));
                            if had_byte {
                                assert(next == r0.bits@[r0.bits@.len() - 1]);
                                assert(r0.bits@.reverse()[0] == next);
                                assert(kk >= 16 - p0);
                                let m = kk - (16 - p0);
                                assert(m == (p1 + k) - 8);
                                assert(0 <= m < 8);
                                assert(r0.rest()[kk] == bytes_bits(r0.bits@.reverse())[m]);
                                assert(bytes_bits(r0.bits@.reverse())[m] == bit8(
                                    r0.bits@.reverse()[m / 8],
                                    (m % 8) as u8,
                                ));
                                assert(m / 8 == 0 && m % 8 == m);
                            } else {
                                assert(next == 0);
                                let kb: u8 = ((p1 + k) - 8) as u8;
                                assert(!bit8(0u8, kb)) by (bit_vector);
                                assert(!stream_bit(r0.rest(), kk));
                            }
                        }
                    } else {
                        // inside the remaining bytes
                        let m = k - (16 - p1);
                        if m < self.bits@.len() * 8 {
                            assert(self.bits@ == r0.bits@.take(r0.bits@.len() - 1));
                            assert(self.rest()[k] == bytes_bits(self.bits@.reverse())[m]);
                            assert(bytes_bits(self.bits@.reverse())[m] == bit8(
                                self.bits@.reverse()[m / 8],
                                (m % 8) as u8,
                            ));
                            let mm = kk - (16 - p0);
                            assert(mm == m + 8);
                            assert(r0.rest()[kk] == bytes_bits(r0.bits@.reverse())[mm]);
                            assert(bytes_bits(r0.bits@.reverse())[mm] == bit8(
                                r0.bits@.reverse()[mm / 8],
                                (mm % 8) as u8,
                            ));
                            crate::calc::lemma_divmod(mm, 8, m / 8 + 1, m % 8);
                            assert(self.bits@.reverse()[m / 8] == r0.bits@.reverse()[mm / 8]);
                        } else {
                            assert(!stream_bit(self.rest(), k));
                            assert(!stream_bit(r0.rest(), kk));
                        }
                    }
                }
            }
        } else {
            proof {
                assert forall|k: int|
                    0 <= k implies stream_bit(self.rest(), k) == stream_bit(
                    r0.rest(),
                    k + length,
                ) by {
                    let p0 = r0.pos as int;
                    let p1 = self.pos as int;
                    let kk = k + length;
                    if k < 16 - p1 {
                        assert(self.rest()[k] == bit16(self.buffer, (p1 + k) as u16));
                        assert(p1 + k == p0 + kk);
                        assert(r0.rest()[kk] == bit16(r0.buffer, (p0 + kk) as u16));
                    } else {
                        let m = k - (16 - p1);
                        assert(m == kk - (16 - p0));
                        if m < self.bits@.len() * 8 {
                            assert(self.rest()[k] == bytes_bits(self.bits@.reverse())[m]);
                            assert(r0.rest()[kk] == bytes_bits(r0.bits@.reverse())[m]);
                        } else {
                            assert(!stream_bit(self.rest(), k));
                            assert(!stream_bit(r0.rest(), kk));
                        }
                    }
                }
            }
        }
        proof {
            assert forall|j: int|
                0 <= j < length as int implies val_bits(ret as u16, length as int)[j]
                == stream_bit(r0.rest(), j) by {
                let jb: u16 = j as u16;
                assert(jb < length as u16);
                lemma_read_extract_bit(r0.buffer, r0.pos as u16, length as u16, jb);
                assert(r0.rest()[j] == bit16(r0.buffer, (r0.pos as int + j) as u16));
            }
        }
        ret
    }
}

/// Two digits (the first bytes) preloaded into the lookahead land at its top.
proof fn lemma_preload(b0: u8, b1: u8)
    by (bit_vector)
    ensures
        forall|k: u16|
            k < 8 ==> #[trigger] bit16(((b0 as u16) << 8) | (b1 as u16), k) == bit8(b0, k as u8),
        forall|k: u16|
            8 <= k < 16 ==> #[trigger] bit16(((b0 as u16) << 8) | (b1 as u16), k) == bit8(
                b1,
                (k - 8) as u8,
            ),
{
}

/// Refilling shifts the lookahead up a byte and loads the new byte below it.
proof fn lemma_preload_or(buffer: u16, next: u8)
    by (bit_vector)
    ensures
        forall|k: u16|
            k < 8 ==> #[trigger] bit16((buffer << 8) | (next as u16), k) == bit16(
                buffer,
                (k + 8) as u16,
            ),
        forall|k: u16|
            8 <= k < 16 ==> #[trigger] bit16((buffer << 8) | (next as u16), k) == bit8(
                next,
                (k - 8) as u8,
            ),
{
}

/// The extracted field is bounded by its width.
proof fn lemma_read_extract(buffer: u16, pos: u16, length: u16)
    by (bit_vector)
    requires
        pos <= 8,
        1 <= length <= 8,
    ensures
        ((((buffer & ((((1u16 << length) - 1) as u16) << ((16 - pos - length) as u16))) >> ((16 - pos
            - length) as u16)) as u8) as u16) < (1u16 << length),
{
}

/// Bit `j` of the extracted field is the lookahead's bit `pos + j`.
proof fn lemma_read_extract_bit(buffer: u16, pos: u16, length: u16, j: u16)
    by (bit_vector)
    requires
        pos <= 8,
        1 <= length <= 8,
        j < length,
    ensures
        ((((((buffer & ((((1u16 << length) - 1) as u16) << ((16 - pos - length) as u16))) >> ((16
            - pos - length) as u16)) as u8) as u16) >> ((length - 1 - j) as u16)) & 1 == 1) == bit16(
            buffer,
            (pos + j) as u16,
        ),
{
}

/// Bits at and below the write position stay untouched or get the field's
/// bits; the accumulator keeps nothing below the new position.
#[verifier::spinoff_prover]
proof fn lemma_write_inject(buffer: u16, value: u16, pos: u16, length: u16)
    by (bit_vector)
    requires
        pos <= 7,
        1 <= length <= 8,
        value < (1u16 << length),
        buffer & (0xffffu16 >> pos) == 0,
    ensures
        forall|k: u16|
            k < pos ==> (#[trigger] bit16(buffer | (value << ((16 - length - pos) as u16)), k) == bit16(
                buffer,
                k,
            )),
        forall|k: u16|
            pos <= k < pos + length ==> (#[trigger] bit16(
                buffer | (value << ((16 - length - pos) as u16)),
                k,
            ) == ((value >> ((pos + length - 1 - k) as u16)) & 1 == 1)),
        (buffer | (value << ((16 - length - pos) as u16))) & (0xffffu16 >> ((pos + length) as u16)) == 0,
{
}

/// The high byte of the accumulator carries its first eight bits.
proof fn lemma_high_byte(nb: u16)
    by (bit_vector)
    ensures
        forall|k: u16| k < 8 ==> bit8(((nb & 0xff00) >> 8) as u8, k as u8) == bit16(nb, k),
{
}

/// Shifting the accumulator left a byte moves bit `k + 8` to bit `k`.
proof fn lemma_shift8(nb: u16)
    by (bit_vector)
    ensures
        forall|k: u16| k < 8 ==> bit16(nb << 8, k) == bit16(nb, (k + 8) as u16),
{
}

/// After a flush the accumulator again keeps nothing below its position.
proof fn lemma_wf_after_flush(buffer: u16, value: u16, pos: u16, length: u16)
    by (bit_vector)
    requires
        pos <= 7,
        1 <= length <= 8,
        pos + length >= 8,
        value < (1u16 << length),
        buffer & (0xffffu16 >> pos) == 0,
    ensures
        ((buffer | (value << ((16 - length - pos) as u16))) << 8) & (0xffffu16 >> ((pos + length
            - 8) as u16)) == 0,
{
}

/// A well-formed accumulator has only zeros at and beyond its position.
proof fn lemma_wf_high_zeros(buffer: u16, pos: u16)
    by (bit_vector)
    requires
        pos <= 7,
        buffer & (0xffffu16 >> pos) == 0,
    ensures
        forall|k: u16| pos <= k < 16 ==> !bit16(buffer, k),
{
}

/// Bit `j` of a `len`-bit field of `v` is set.
spec fn fbit(v: u16, len: u16, j: u16) -> bool {
    ((v >> ((len - 1 - j) as u16)) & 1) == 1
}

/// Two values below the field width that render to the same bits are equal.
pub proof fn lemma_val_bits_unique(a: u16, b: u16, len: u16)
    requires
        len <= 8,
        a < (1u16 << len),
        b < (1u16 << len),
        val_bits(a, len as int) == val_bits(b, len as int),
    ensures
        a == b,
{
    assert forall|j: u16| j < len implies (fbit(a, len, j) <==> fbit(b, len, j)) by {
        assert(val_bits(a, len as int)[j as int] == val_bits(b, len as int)[j as int]);
        assert(fbit(a, len, j) == val_bits(a, len as int)[j as int]);
        assert(fbit(b, len, j) == val_bits(b, len as int)[j as int]);
    }
    assert(a == b) by (bit_vector)
        requires
            len <= 8,
            a < (1u16 << len),
            b < (1u16 << len),
            len > 0 ==> (fbit(a, len, 0) <==> fbit(b, len, 0)),
            len > 1 ==> (fbit(a, len, 1) <==> fbit(b, len, 1)),
            len > 2 ==> (fbit(a, len, 2) <==> fbit(b, len, 2)),
            len > 3 ==> (fbit(a, len, 3) <==> fbit(b, len, 3)),
            len > 4 ==> (fbit(a, len, 4) <==> fbit(b, len, 4)),
            len > 5 ==> (fbit(a, len, 5) <==> fbit(b, len, 5)),
            len > 6 ==> (fbit(a, len, 6) <==> fbit(b, len, 6)),
            len > 7 ==> (fbit(a, len, 7) <==> fbit(b, len, 7)),
    ;
}

/// Masking a value to its own width changes none of its field bits.
proof fn lemma_low_byte_val(value: u16, length: u16)
    by (bit_vector)
    requires
        1 <= length <= 8,
        value < (1u16 << length),
    ensures
        (value & 0x00ff) == value,
        value < 0x100,
{
}

} // verus!
