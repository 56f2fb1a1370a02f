//! The bit-level stream abstraction all four codecs share: an output stream
//! that appends variable-width bit fields to a growable word buffer, and an
//! input stream that consumes bit fields from such a buffer and signals
//! end-of-stream.
//!
//! An output stream is abstractly the sequence of bits written so far
//! (`self@`); an input stream is an immutable bit sequence (`self.bits()`)
//! plus the count of bits consumed (`self.consumed()`).

use crate::bits::{
    bit64, bits_of, high_bits, lemma_bit64_shl, lemma_bits_of_subrange, lemma_high_bits_or_field,
    lemma_mask_mod, lemma_shr_bound, lemma_shr_lt, lemma_val_of_bits_of, lemma_val_of_bits_of_mod,
    lemma_val_of_bound, lemma_val_of_concat, lemma_words_bits_index, lemma_words_bits_len,
    lemma_words_bits_push, lemma_words_bits_word, val_of, words_bits, zero_bits,
};
use crate::Bit;
use vstd::arithmetic::power2::*;
use vstd::bits::*;
use vstd::prelude::*;

verus! {

/// The one recoverable failure when interacting with a stream: a read past
/// the last buffered word.
#[derive(Debug, PartialEq, Eq, Structural, Clone, Copy)]
pub enum Error {
    EOF,
}

/// An output bit stream: bits are packed most-significant-first into 64-bit
/// words; full words move to the buffer, the accumulator holds the rest.
#[derive(Debug)]
pub struct OutputBitStream {
    buffer: Vec<u64>,
    pos: u32,
    curr: u64,
}

impl View for OutputBitStream {
    type V = Seq<bool>;

    /// The bits written so far, in order.
    closed spec fn view(&self) -> Seq<bool> {
        words_bits(self.buffer@) + high_bits(self.curr, self.pos as nat)
    }
}

impl OutputBitStream {
    /// The accumulator holds `pos <= 64` bits; below them it is zero.
    pub closed spec fn wf(&self) -> bool {
        &&& self.pos <= 64
        &&& forall|i: u64| i < 64 - self.pos ==> !bit64(self.curr, i)
    }

    pub fn new() -> (r: OutputBitStream)
        ensures
            r.wf(),
            r@ == Seq::<bool>::empty(),
    {
        let r = OutputBitStream { buffer: Vec::new(), pos: 0, curr: 0 };
        proof {
            assert(forall|i: u64| !bit64(0u64, i)) by {
                assert(forall|i: u64| ((0u64 >> i) & 1) != 1) by (bit_vector);
            }
            assert(r@ =~= Seq::<bool>::empty());
        }
        r
    }

    /// Like `new`, with room for `capacity` words reserved up front.
    pub fn with_capacity(capacity: usize) -> (r: OutputBitStream)
        ensures
            r.wf(),
            r@ == Seq::<bool>::empty(),
    {
        let r = OutputBitStream { buffer: Vec::with_capacity(capacity), pos: 0, curr: 0 };
        proof {
            assert(forall|i: u64| !bit64(0u64, i)) by {
                assert(forall|i: u64| ((0u64 >> i) & 1) != 1) by (bit_vector);
            }
            assert(r@ =~= Seq::<bool>::empty());
        }
        r
    }

    /// Flush the accumulator to the buffer if it is full.
    fn check_grow(&mut self)
        requires
            old(self).wf(),
        ensures
            final(self).wf(),
            final(self)@ == old(self)@,
            final(self).pos < 64,
            final(self).buffer@.len() <= old(self).buffer@.len() + 1,
    {
        if self.pos == 64 {
            self.buffer.push(self.curr);
            self.pos = 0;
            self.curr = 0;
            proof {
                lemma_words_bits_push(old(self).buffer@, old(self).curr);
                assert(high_bits(old(self).curr, 64) =~= bits_of(old(self).curr, 64));
                assert(high_bits(0u64, 0) =~= Seq::<bool>::empty());
                assert(self@ =~= old(self)@);
                assert(forall|i: u64| !bit64(0u64, i)) by {
                    assert(forall|i: u64| ((0u64 >> i) & 1) != 1) by (bit_vector);
                }
            }
        }
    }

    /// Append the single bit `bit & 1`.
    pub fn write_bit(&mut self, bit: u8)
        requires
            old(self).wf(),
        ensures
            final(self).wf(),
            final(self)@ == old(self)@ + bits_of((bit & 1) as u64, 1),
    {
        proof {
            lemma2_to64();
            assert(((bit & 1) as u64) < 2) by (bit_vector);
        }
        self.write_bits((bit & 1) as u64, 1);
    }

    /// Append the 8 bits of `byte`, most significant first.
    pub fn write_byte(&mut self, byte: u8)
        requires
            old(self).wf(),
        ensures
            final(self).wf(),
            final(self)@ == old(self)@ + bits_of(byte as u64, 8),
    {
        proof {
            lemma2_to64();
        }
        self.write_bits(byte as u64, 8);
    }

    /// Append the low `len` bits of `bits`, most significant first.
    /// With `len == 0` nothing observable changes.
    pub fn write_bits(&mut self, bits: u64, len: u32)
        requires
            old(self).wf(),
            len <= 64,
            len == 0 || bits < pow2(len as nat),
        ensures
            final(self).wf(),
            final(self)@ == old(self)@ + bits_of(bits, len as nat),
            len == 0 ==> final(self)@ == old(self)@,
    {
        if len == 0 {
            proof {
                assert(bits_of(bits, 0) =~= Seq::<bool>::empty());
                assert(self@ + bits_of(bits, 0) =~= self@);
            }
            return ;
        }
        self.check_grow();
        let ghost mid = *self;
        if 64 - self.pos < len {
            // The field crosses a word boundary: fill the current word,
            // flush it, and start a fresh accumulator with the remainder.
            let w2 = len - (64 - self.pos);
            let hi = bits >> w2;
            self.curr = self.curr | hi;
            self.buffer.push(self.curr);
            self.pos = 0;
            self.curr = bits << (64 - w2);
            self.pos = w2;
            proof {
                let p = mid.pos as nat;
                let w1 = (64 - p) as nat;
                lemma_shr_lt(bits, w2 as u64, len as nat);
                assert(hi << 0u64 == hi) by (bit_vector);
                lemma_high_bits_or_field(mid.curr, hi, p, w1);
                lemma_words_bits_push(mid.buffer@, mid.curr | hi);
                lemma_bits_of_subrange(bits, len as nat, 0, w1 as int);
                assert(high_bits(mid.curr | hi, 64) =~= high_bits(mid.curr, p) + bits_of(
                    hi,
                    w1,
                ));
                // The fresh accumulator holds the low w2 bits of the field.
                assert forall|j: int| 0 <= j < w2 implies high_bits(self.curr, w2 as nat)[j]
                    == bits_of(bits, len as nat)[w1 + j] by {
                    lemma_bit64_shl(bits, (64 - w2) as u64, (63 - j) as u64);
                }
                assert(high_bits(self.curr, w2 as nat) =~= bits_of(bits, len as nat).subrange(
                    w1 as int,
                    len as int,
                ));
                assert forall|i: u64| i < 64 - w2 implies !bit64(self.curr, i) by {
                    lemma_bit64_shl(bits, (64 - w2) as u64, i);
                }
                assert(bits_of(bits, len as nat) =~= bits_of(bits, len as nat).subrange(
                    0,
                    w1 as int,
                ) + bits_of(bits, len as nat).subrange(w1 as int, len as int));
                assert(self@ =~= old(self)@ + bits_of(bits, len as nat));
            }
        } else {
            self.curr = self.curr | (bits << ((64 - len) - self.pos));
            self.pos = self.pos + len;
            proof {
                let p = mid.pos as nat;
                lemma_high_bits_or_field(mid.curr, bits, p, len as nat);
                assert(self@ =~= old(self)@ + bits_of(bits, len as nat));
            }
        }
    }

    /// The exact count of bits written so far, read off the buffer length
    /// and the accumulator position.
    pub fn bit_count(&self) -> (r: u64)
        requires
            self.wf(),
            self@.len() <= u64::MAX,
        ensures
            r == self@.len(),
    {
        proof {
            lemma_words_bits_len(self.buffer@);
        }
        (self.buffer.len() as u64) * 64 + (self.pos as u64)
    }

    /// Close the stream: flush a partial accumulator and hand the word
    /// buffer over. The words hold exactly the written bits followed by
    /// zero padding up to the next word boundary.
    pub fn close(self) -> (r: Vec<u64>)
        requires
            self.wf(),
        ensures
            words_bits(r@) == self@ + zero_bits((64 * r@.len() - self@.len()) as nat),
            self@.len() <= 64 * r@.len() < self@.len() + 64,
    {
        let mut this = self;
        proof {
            lemma_words_bits_len(this.buffer@);
        }
        if this.pos != 0 {
            this.buffer.push(this.curr);
            proof {
                lemma_words_bits_push(self.buffer@, self.curr);
                lemma_words_bits_len(this.buffer@);
                assert(bits_of(self.curr, 64) =~= high_bits(self.curr, self.pos as nat)
                    + zero_bits((64 - self.pos) as nat));
                assert(words_bits(this.buffer@) =~= self@ + zero_bits(
                    (64 - self.pos) as nat,
                ));
            }
        } else {
            proof {
                assert(self@ =~= words_bits(this.buffer@));
                assert(words_bits(this.buffer@) =~= self@ + zero_bits(0));
            }
        }
        this.buffer
    }
}

/// An input bit stream over an immutable word buffer.
#[derive(Debug)]
pub struct InputBitStream {
    buffer: Vec<u64>,
    pos: u32,
    index: usize,
    curr: u64,
}

impl InputBitStream {
    /// All bits the stream holds, in order.
    pub closed spec fn bits(&self) -> Seq<bool> {
        words_bits(self.buffer@)
    }

    /// How many bits have been consumed.
    pub closed spec fn consumed(&self) -> nat {
        (64 * self.index + self.pos) as nat
    }

    pub closed spec fn wf(&self) -> bool {
        &&& self.pos < 64
        &&& self.index <= self.buffer@.len()
        &&& self.index == self.buffer@.len() ==> self.pos == 0
        &&& self.index < self.buffer@.len() ==> self.curr == self.buffer@[self.index as int]
    }

    pub fn new(buffer: Vec<u64>) -> (r: InputBitStream)
        ensures
            r.wf(),
            r.bits() == words_bits(buffer@),
            r.consumed() == 0,
    {
        let curr: u64 = if buffer.len() > 0 {
            buffer[0]
        } else {
            0
        };
        InputBitStream { buffer, pos: 0, index: 0, curr }
    }

    /// Step past a fully consumed word.
    fn advance(&mut self)
        requires
            old(self).wf() || (old(self).pos == 64 && old(self).index < old(
                self,
            ).buffer@.len() && old(self).curr == old(self).buffer@[old(self).index as int]),
            old(self).pos == 64 ==> old(self).index < old(self).buffer@.len(),
        ensures
            final(self).wf(),
            final(self).bits() == old(self).bits(),
            final(self).consumed() == old(self).consumed(),
    {
        if self.pos == 64 {
            let n = self.buffer.len();
            self.index = self.index + 1;
            self.pos = 0;
            self.curr = if self.index < n {
                self.buffer[self.index]
            } else {
                0
            };
        }
    }

    /// Consume one bit. Past the end it fails with `EOF` and consumes
    /// nothing.
    pub fn read_bit(&mut self) -> (r: Result<Bit, Error>)
        requires
            old(self).wf(),
        ensures
            final(self).wf(),
            final(self).bits() == old(self).bits(),
            old(self).consumed() < old(self).bits().len() ==> {
                &&& r == Ok::<Bit, Error>(
                    if old(self).bits()[old(self).consumed() as int] {
                        Bit::One
                    } else {
                        Bit::Zero
                    },
                )
                &&& final(self).consumed() == old(self).consumed() + 1
            },
            old(self).consumed() >= old(self).bits().len() ==> r == Err::<Bit, Error>(Error::EOF)
                && final(self).consumed() == old(self).consumed(),
    {
        proof {
            lemma_words_bits_len(self.buffer@);
        }
        if self.index >= self.buffer.len() {
            return Err(Error::EOF);
        }
        let b = (self.curr >> (63 - self.pos)) & 1;
        proof {
            lemma_words_bits_index(self.buffer@, self.consumed() as int);
            vstd::arithmetic::div_mod::lemma_fundamental_div_mod_converse(
                self.consumed() as int,
                64,
                self.index as int,
                self.pos as int,
            );
            assert((b == 1) == bit64(self.curr, (63 - self.pos) as u64));
            let c0 = self.curr;
            let p0 = (63 - self.pos) as u64;
            assert(((c0 >> p0) & 1) == 1 || ((c0 >> p0) & 1) == 0) by (bit_vector);
        }
        self.pos = self.pos + 1;
        self.advance();
        if b == 1 {
            Ok(Bit::One)
        } else {
            Ok(Bit::Zero)
        }
    }

    /// Consume `len` bits and return them right-aligned. Fails with `EOF`,
    /// consuming nothing, if fewer than `len` bits remain.
    pub fn read_bits(&mut self, len: u32) -> (r: Result<u64, Error>)
        requires
            old(self).wf(),
            1 <= len <= 64,
        ensures
            final(self).wf(),
            final(self).bits() == old(self).bits(),
            old(self).consumed() + len <= old(self).bits().len() ==> {
                &&& r matches Ok(v) && v == val_of(
                    old(self).bits().subrange(
                        old(self).consumed() as int,
                        old(self).consumed() + len,
                    ),
                )
                &&& final(self).consumed() == old(self).consumed() + len
            },
            old(self).consumed() + len > old(self).bits().len() ==> r == Err::<u64, Error>(
                Error::EOF,
            ) && final(self).consumed() == old(self).consumed(),
    {
        proof {
            lemma_words_bits_len(self.buffer@);
        }
        let n = self.buffer.len();
        if self.index >= n {
            return Err(Error::EOF);
        }
        let ghost c = self.consumed() as int;
        if len <= 64 - self.pos {
            // The field lies within the current word.
            let shift = 64 - self.pos - len;
            let mask = u64::MAX >> (64 - len);
            let v = (self.curr >> shift) & mask;
            proof {
                lemma_words_bits_word(self.buffer@, self.index as int);
                assert(64 * self.index + 64 <= 64 * self.buffer@.len()) by (nonlinear_arith)
                    requires
                        self.index < self.buffer@.len(),
                ;
                lemma_bits_of_subrange(
                    self.curr,
                    64,
                    self.pos as int,
                    self.pos + len as int,
                );
                assert(old(self).bits().subrange(c, c + len) =~= bits_of(self.curr, 64)
                    .subrange(self.pos as int, self.pos + len as int));
                lemma_val_of_bits_of_mod(self.curr >> (shift as u64), len as nat);
                lemma_mask_mod(self.curr >> (shift as u64), len as u64);
            }
            self.pos = self.pos + len;
            self.advance();
            Ok(v)
        } else {
            // The field crosses into the next word.
            if self.index + 1 >= n {
                proof {
                    assert(64 * self.index + 64 >= 64 * (n - 1) + 64) by (nonlinear_arith)
                        requires
                            self.index as int >= n - 1,
                    ;
                }
                return Err(Error::EOF);
            }
            let w1 = 64 - self.pos;
            let w2 = len - w1;
            let lo1 = self.curr & (u64::MAX >> self.pos);
            let ghost curr0 = self.curr;
            self.index = self.index + 1;
            self.curr = self.buffer[self.index];
            let hi2 = self.curr >> (64 - w2);
            proof {
                lemma_words_bits_word(self.buffer@, self.index - 1);
                lemma_words_bits_word(self.buffer@, self.index as int);
                assert(64 * self.index == 64 * (self.index - 1) + 64) by (nonlinear_arith);
                assert(64 * self.index + 64 <= 64 * self.buffer@.len()) by (nonlinear_arith)
                    requires
                        self.index < self.buffer@.len(),
                ;
                let part1 = old(self).bits().subrange(c, c + w1);
                let part2 = old(self).bits().subrange(c + w1, c + len);
                assert(old(self).bits().subrange(c, c + len) =~= part1 + part2);
                // part 1: the low w1 bits of the old current word
                lemma_bits_of_subrange(curr0, 64, self.pos as int, 64);
                assert(curr0 >> 0u64 == curr0) by (bit_vector);
                assert(part1 =~= bits_of(curr0, w1 as nat));
                lemma_val_of_bits_of_mod(curr0, w1 as nat);
                lemma_mask_mod(curr0, w1 as u64);
                assert(val_of(part1) == lo1);
                // part 2: the high w2 bits of the next word
                lemma_bits_of_subrange(self.curr, 64, 0, w2 as int);
                assert(part2 =~= bits_of(hi2, w2 as nat));
                lemma_shr_bound(self.curr, (64 - w2) as u64);
                lemma_val_of_bits_of(hi2, w2 as nat);
                // combine
                lemma_val_of_concat(part1, part2);
                lemma_val_of_bound(part1);
                lemma_pow2_adds(w1 as nat, w2 as nat);
                lemma_pow2_pos(w2 as nat);
                assert(lo1 * pow2(w2 as nat) + hi2 < pow2(w1 as nat) * pow2(w2 as nat))
                    by (nonlinear_arith)
                    requires
                        lo1 < pow2(w1 as nat),
                        hi2 < pow2(w2 as nat),
                        pow2(w2 as nat) > 0,
                ;
                if len < 64 {
                    lemma_pow2_strictly_increases(len as nat, 64);
                }
                lemma2_to64_rest();
                lemma_u64_shl_is_mul(lo1, w2 as u64);
            }
            let v = (lo1 << w2) + hi2;
            self.pos = w2;
            Ok(v)
        }
    }
}

/// A write schedule: pairs `(value, width)` with each width in `[0, 64]` and
/// each value confined to its width — what a sequence of `write_bits` calls
/// takes.
pub open spec fn valid_fields(ws: Seq<(u64, u32)>) -> bool {
    forall|i: int|
        0 <= i < ws.len() ==> (#[trigger] ws[i]).1 <= 64 && ws[i].0 < pow2(ws[i].1 as nat)
}

/// The bits that writing every field of `ws` in order leaves in the stream.
pub open spec fn fields_bits(ws: Seq<(u64, u32)>) -> Seq<bool>
    decreases ws.len(),
{
    if ws.len() == 0 {
        Seq::empty()
    } else {
        fields_bits(ws.drop_last()) + bits_of(ws.last().0, ws.last().1 as nat)
    }
}

/// The bit offset at which field `i` starts.
pub open spec fn field_offset(ws: Seq<(u64, u32)>, i: int) -> nat {
    fields_bits(ws.take(i)).len()
}

proof fn lemma_fields_bits_take(ws: Seq<(u64, u32)>, i: int)
    requires
        0 <= i < ws.len(),
    ensures
        fields_bits(ws.take(i + 1)) == fields_bits(ws.take(i)) + bits_of(
            ws[i].0,
            ws[i].1 as nat,
        ),
{
    assert(ws.take(i + 1).drop_last() =~= ws.take(i));
    assert(ws.take(i + 1).last() == ws[i]);
}

proof fn lemma_fields_bits_prefix_len(ws: Seq<(u64, u32)>, i: int)
    requires
        0 <= i <= ws.len(),
    ensures
        fields_bits(ws.take(i)).len() <= fields_bits(ws).len(),
    decreases ws.len() - i,
{
    if i == ws.len() {
        assert(ws.take(i) =~= ws);
    } else {
        lemma_fields_bits_take(ws, i);
        lemma_fields_bits_prefix_len(ws, i + 1);
    }
}

/// Reading field `i`'s width at field `i`'s offset out of the written bits
/// yields exactly the value that was written.
pub proof fn lemma_fields_read_back(ws: Seq<(u64, u32)>, i: int)
    requires
        valid_fields(ws),
        0 <= i < ws.len(),
    ensures
        field_offset(ws, i) + ws[i].1 <= fields_bits(ws).len(),
        val_of(
            fields_bits(ws).subrange(
                field_offset(ws, i) as int,
                field_offset(ws, i) + ws[i].1,
            ),
        ) == ws[i].0,
    decreases ws.len(),
{
    let o = field_offset(ws, i) as int;
    let k = ws[i].1 as int;
    lemma_fields_bits_take(ws, i);
    if i == ws.len() - 1 {
        assert(ws.take(i) =~= ws.drop_last());
        assert(fields_bits(ws) == fields_bits(ws.take(i)) + bits_of(ws[i].0, ws[i].1 as nat));
        assert(fields_bits(ws).subrange(o, o + k) =~= bits_of(ws[i].0, ws[i].1 as nat));
        lemma_val_of_bits_of(ws[i].0, ws[i].1 as nat);
    } else {
        let prefix = ws.drop_last();
        assert(valid_fields(prefix)) by {
            assert(forall|j: int| 0 <= j < prefix.len() ==> prefix[j] == ws[j]);
        }
        lemma_fields_read_back(prefix, i);
        assert(ws.take(i) =~= prefix.take(i));
        assert(field_offset(ws, i) == field_offset(prefix, i));
        assert(fields_bits(ws).subrange(o, o + k) =~= fields_bits(prefix).subrange(o, o + k));
    }
}

/// The stream round trip: once the written bits stand at the front of a bit
/// sequence (as they do in a closed buffer, which only adds zero padding),
/// reading back width `k_i` at each field's offset yields exactly `v_i`.
pub proof fn lemma_stream_round_trip(ws: Seq<(u64, u32)>, stream: Seq<bool>, i: int)
    requires
        valid_fields(ws),
        fields_bits(ws).len() <= stream.len(),
        fields_bits(ws) == stream.subrange(0, fields_bits(ws).len() as int),
        0 <= i < ws.len(),
    ensures
        field_offset(ws, i) + ws[i].1 <= stream.len(),
        val_of(
            stream.subrange(field_offset(ws, i) as int, field_offset(ws, i) + ws[i].1),
        ) == ws[i].0,
{
    lemma_fields_read_back(ws, i);
    let o = field_offset(ws, i) as int;
    let k = ws[i].1 as int;
    assert(stream.subrange(o, o + k) =~= fields_bits(ws).subrange(o, o + k));
}

} // verus!
