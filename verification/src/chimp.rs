//! The Chimp double codec: a two-bit flag per sample selects among a repeat,
//! a trailing-zero-heavy form with an explicit center, and a plain XOR form
//! that reuses or replaces a quantized leading-zero class.

use crate::bits::{
    bits_of, field_val, lemma_bit64_single, lemma_bit_and_one, lemma_lead_trail_sum,
    lemma_val_of_bits_of, lemma_val_of_bound, lemma_window_bound, lemma_xor_cancel, val_of,
    words_bits, zero_bits,
};
use crate::bitstream::{Error, InputBitStream, OutputBitStream};
use crate::{
    leading_dec, leading_dec_spec, leading_enc, leading_enc_spec, leading_round,
    leading_round_spec, lemma_leading_tables_inverse, Decode, NAN,
};
use vstd::arithmetic::power2::*;
use vstd::prelude::*;
use vstd::std_specs::bits::{u64_leading_zeros, u64_trailing_zeros};

verus! {

/// The abstract per-sample state of the Chimp encoder: the previous sample's
/// bits and the quantized leading-zero class last written.
pub struct ChimpEnc {
    pub first: bool,
    pub prev: u64,
    pub lead: nat,
}

/// Encoder states the codec reaches: the class is a quantized representative
/// (at most 24) or out of range, which forces the next sample to rewrite it.
pub open spec fn chimp_enc_wf(st: ChimpEnc) -> bool {
    st.lead <= 24 || st.lead >= 64
}

pub open spec fn chimp_init() -> ChimpEnc {
    ChimpEnc { first: true, prev: 0, lead: 65 }
}

/// The bits one sample appends to the stream.
pub open spec fn chimp_emit(st: ChimpEnc, x: u64) -> Seq<bool> {
    if st.first {
        bits_of(x, 64)
    } else {
        let xor = st.prev ^ x;
        if xor == 0 {
            bits_of(0, 2)
        } else {
            let l = leading_round_spec(u64_leading_zeros(xor) as nat);
            let t = u64_trailing_zeros(xor) as nat;
            if t > 6 {
                bits_of(1, 2) + bits_of(leading_enc_spec(l) as u64, 3) + bits_of(
                    (64 - l - t) as u64,
                    6,
                ) + bits_of(xor >> (t as u64), (64 - l - t) as nat)
            } else if l == st.lead {
                bits_of(1, 1) + bits_of(0, 1) + bits_of(xor, (64 - l) as nat)
            } else {
                bits_of(1, 1) + bits_of(1, 1) + bits_of(leading_enc_spec(l) as u64, 3)
                    + bits_of(xor, (64 - l) as nat)
            }
        }
    }
}

/// How one sample advances the encoder state.
pub open spec fn chimp_step(st: ChimpEnc, x: u64) -> ChimpEnc {
    if st.first {
        ChimpEnc { first: false, prev: x, lead: st.lead }
    } else {
        let xor = st.prev ^ x;
        if xor == 0 {
            ChimpEnc { first: false, prev: x, lead: st.lead }
        } else {
            let l = leading_round_spec(u64_leading_zeros(xor) as nat);
            let t = u64_trailing_zeros(xor) as nat;
            if t > 6 {
                ChimpEnc { first: false, prev: x, lead: 65 }
            } else {
                ChimpEnc { first: false, prev: x, lead: l }
            }
        }
    }
}

/// The encoder state after a whole sequence of samples.
pub open spec fn chimp_run(vals: Seq<u64>) -> ChimpEnc
    decreases vals.len(),
{
    if vals.len() == 0 {
        chimp_init()
    } else {
        chimp_step(chimp_run(vals.drop_last()), vals.last())
    }
}

/// The bits a whole sequence of samples appends.
pub open spec fn chimp_encode_bits(vals: Seq<u64>) -> Seq<bool>
    decreases vals.len(),
{
    if vals.len() == 0 {
        Seq::empty()
    } else {
        chimp_encode_bits(vals.drop_last()) + chimp_emit(
            chimp_run(vals.drop_last()),
            vals.last(),
        )
    }
}

/// The full stream a closed encoder leaves, before word padding: every
/// sample, the end-of-stream sentinel, and one padding zero bit.
pub open spec fn chimp_stream_bits(vals: Seq<u64>) -> Seq<bool> {
    chimp_encode_bits(vals) + chimp_emit(chimp_run(vals), NAN) + bits_of(0, 1)
}

/// The quantized class never exceeds the measured leading-zero count.
pub proof fn lemma_leading_round_le(l: nat)
    ensures
        leading_round_spec(l) <= l,
        leading_round_spec(l) <= 24,
{
}

/// One sample appends at most 80 bits.
pub proof fn lemma_chimp_emit_len(st: ChimpEnc, x: u64)
    requires
        chimp_enc_wf(st),
    ensures
        chimp_emit(st, x).len() <= 80,
{
    if !st.first && st.prev != x {
        lemma_xor_cancel(st.prev, x);
        lemma_lead_trail_sum(st.prev ^ x);
        lemma_leading_round_le(u64_leading_zeros(st.prev ^ x) as nat);
    }
}

#[derive(Debug)]
pub struct Encoder {
    first: bool,
    curr: u64,
    leading_zeros: u32,
    w: OutputBitStream,
}

impl Encoder {
    /// The abstract encoder state the fields hold.
    pub closed spec fn model(&self) -> ChimpEnc {
        ChimpEnc { first: self.first, prev: self.curr, lead: self.leading_zeros as nat }
    }

    /// The bits written so far.
    pub closed spec fn stream(&self) -> Seq<bool> {
        self.w@
    }

    pub closed spec fn wf(&self) -> bool {
        &&& self.w.wf()
        &&& chimp_enc_wf(self.model())
    }

    pub fn new() -> (r: Encoder)
        ensures
            r.wf(),
            r.stream() == Seq::<bool>::empty(),
            r.model() == chimp_init(),
    {
        Encoder { first: true, curr: 0, leading_zeros: 65, w: OutputBitStream::new() }
    }

    fn insert_first(&mut self, value: u64)
        requires
            old(self).wf(),
            old(self).model().first,
        ensures
            final(self).wf(),
            final(self).stream() == old(self).stream() + chimp_emit(old(self).model(), value),
            final(self).model() == chimp_step(old(self).model(), value),
    {
        self.curr = value;
        self.first = false;
        proof {
            lemma2_to64_rest();
        }
        self.w.write_bits(value, 64);
    }

    fn insert_value(&mut self, value: u64)
        requires
            old(self).wf(),
            !old(self).model().first,
        ensures
            final(self).wf(),
            final(self).stream() == old(self).stream() + chimp_emit(old(self).model(), value),
            final(self).model() == chimp_step(old(self).model(), value),
    {
        let ghost st = self.model();
        let xor = self.curr ^ value;
        if xor == 0 {
            proof {
                lemma2_to64();
                lemma_xor_cancel(self.curr, value);
            }
            self.w.write_bits(0, 2);
            proof {
                assert(self.w@ =~= old(self).w@ + chimp_emit(st, value));
            }
        } else {
            let trail = xor.trailing_zeros();
            let lead = leading_round(xor.leading_zeros());
            proof {
                lemma_lead_trail_sum(xor);
                lemma_leading_round_le(u64_leading_zeros(xor) as nat);
                lemma2_to64();
            }
            if trail > 6 {
                self.w.write_bits(1, 2);
                self.w.write_bits(leading_enc(lead) as u64, 3);
                let center_bits = 64 - lead - trail;
                self.w.write_bits(center_bits as u64, 6);
                proof {
                    lemma_window_bound(xor, lead as nat, trail as nat);
                }
                self.w.write_bits(xor >> trail, center_bits);
                self.leading_zeros = 65;
                proof {
                    assert(self.w@ =~= old(self).w@ + chimp_emit(st, value));
                }
            } else {
                self.w.write_bit(1);
                proof {
                    lemma_window_bound(xor, lead as nat, 0);
                    assert(xor >> 0u64 == xor) by (bit_vector);
                    lemma_bit_and_one();
                }
                if lead == self.leading_zeros {
                    self.w.write_bit(0);
                    self.w.write_bits(xor, 64 - lead);
                    proof {
                        assert(self.w@ =~= old(self).w@ + chimp_emit(st, value));
                    }
                } else {
                    self.leading_zeros = lead;
                    self.w.write_bit(1);
                    self.w.write_bits(leading_enc(lead) as u64, 3);
                    self.w.write_bits(xor, 64 - lead);
                    proof {
                        assert(self.w@ =~= old(self).w@ + chimp_emit(st, value));
                    }
                }
            }
        }
        self.curr = value;
    }

    /// Encode one sample; the first sample is written raw.
    pub fn encode(&mut self, value: u64)
        requires
            old(self).wf(),
        ensures
            final(self).wf(),
            final(self).stream() == old(self).stream() + chimp_emit(old(self).model(), value),
            final(self).model() == chimp_step(old(self).model(), value),
    {
        if self.first {
            self.insert_first(value);
        } else {
            self.insert_value(value);
        }
    }

    /// Encode a whole sequence of samples.
    pub fn encode_vec(values: &Vec<u64>) -> (r: Encoder)
        ensures
            r.wf(),
            r.stream() == chimp_encode_bits(values@),
            r.model() == chimp_run(values@),
    {
        let mut enc = Encoder {
            first: true,
            curr: 0,
            leading_zeros: 65,
            w: OutputBitStream::with_capacity(values.len()),
        };
        proof {
            assert(values@.take(0) =~= Seq::<u64>::empty());
            assert(enc.stream() =~= chimp_encode_bits(values@.take(0)));
        }
        let n = values.len();
        for i in 0..n
            invariant
                n == values@.len(),
                enc.wf(),
                enc.stream() == chimp_encode_bits(values@.take(i as int)),
                enc.model() == chimp_run(values@.take(i as int)),
        {
            enc.encode(values[i]);
            proof {
                assert(values@.take(i + 1).drop_last() =~= values@.take(i as int));
                assert(values@.take(i + 1).last() == values@[i as int]);
            }
        }
        proof {
            assert(values@.take(n as int) =~= values@);
        }
        enc
    }

    /// Close the stream: encode the sentinel, append one padding zero bit,
    /// flush, and hand over the word buffer and the exact count of bits
    /// written.
    pub fn close(self) -> (r: (Vec<u64>, u64))
        requires
            self.wf(),
            self.stream().len() + 100 <= u64::MAX,
        ensures
            ({
                let full = self.stream() + chimp_emit(self.model(), NAN) + bits_of(0, 1);
                &&& words_bits(r.0@) == full + zero_bits((64 * r.0@.len() - full.len()) as nat)
                &&& full.len() <= 64 * r.0@.len() < full.len() + 64
                &&& r.1 == full.len()
            }),
    {
        let mut this = self;
        proof {
            lemma_chimp_emit_len(this.model(), NAN);
        }
        if this.first {
            this.insert_first(NAN);
        } else {
            this.insert_value(NAN);
        }
        this.w.write_bit(0);
        proof {
            lemma_bit_and_one();
        }
        let size = this.w.bit_count();
        (this.w.close(), size)
    }
}

/// The abstract per-sample state of the Chimp decoder.
pub struct ChimpDec {
    pub curr: u64,
    pub lead: nat,
}

pub open spec fn chimp_dec_wf(st: ChimpDec) -> bool {
    st.lead <= 24
}

/// Parse one sample at bit position `pos` of `s`: the decoder's step
/// function. `None` is end-of-stream.
pub open spec fn chimp_parse(st: ChimpDec, s: Seq<bool>, pos: nat) -> Option<(ChimpDec, nat)> {
    if pos + 2 > s.len() {
        None
    } else {
        let flag = val_of(s.subrange(pos as int, (pos + 2) as int));
        if flag == 1 {
            if pos + 11 > s.len() {
                None
            } else {
                let l = leading_dec_spec(
                    val_of(s.subrange((pos + 2) as int, (pos + 5) as int)),
                );
                let c0 = val_of(s.subrange((pos + 5) as int, (pos + 11) as int));
                let cb: nat = if c0 == 0 {
                    64
                } else {
                    c0
                };
                let t: nat = if cb + l > 64 {
                    0
                } else {
                    (64 - cb - l) as nat
                };
                if pos + 11 + cb > s.len() {
                    None
                } else {
                    let xor = field_val(s, (pos + 11) as nat, cb);
                    Some(
                        (
                            ChimpDec { curr: st.curr ^ (xor << (t as u64)), lead: l },
                            (pos + 11 + cb) as nat,
                        ),
                    )
                }
            }
        } else if flag == 2 {
            let cb = (64 - st.lead) as nat;
            if pos + 2 + cb > s.len() {
                None
            } else {
                let xor = field_val(s, (pos + 2) as nat, cb);
                Some((ChimpDec { curr: st.curr ^ xor, lead: st.lead }, (pos + 2 + cb) as nat))
            }
        } else if flag == 3 {
            if pos + 5 > s.len() {
                None
            } else {
                let l = leading_dec_spec(
                    val_of(s.subrange((pos + 2) as int, (pos + 5) as int)),
                );
                let cb = (64 - l) as nat;
                if pos + 5 + cb > s.len() {
                    None
                } else {
                    let xor = field_val(s, (pos + 5) as nat, cb);
                    Some((ChimpDec { curr: st.curr ^ xor, lead: l }, (pos + 5 + cb) as nat))
                }
            }
        } else {
            Some((st, (pos + 2) as nat))
        }
    }
}

#[derive(Debug)]
pub struct Decoder {
    first: bool,
    done: bool,
    curr: u64,
    leading_zeros: u32,
    r: InputBitStream,
}

impl Decoder {
    /// The abstract decoder state the fields hold.
    pub closed spec fn dec(&self) -> ChimpDec {
        ChimpDec { curr: self.curr, lead: self.leading_zeros as nat }
    }

    pub closed spec fn first_state(&self) -> bool {
        self.first
    }

    pub closed spec fn done_state(&self) -> bool {
        self.done
    }

    pub closed spec fn bits(&self) -> Seq<bool> {
        self.r.bits()
    }

    pub closed spec fn consumed(&self) -> nat {
        self.r.consumed()
    }

    pub closed spec fn wf(&self) -> bool {
        &&& self.r.wf()
        &&& chimp_dec_wf(self.dec())
    }

    pub fn new(read: InputBitStream) -> (r: Decoder)
        requires
            read.wf(),
        ensures
            r.wf(),
            r.bits() == read.bits(),
            r.consumed() == read.consumed(),
            r.first_state(),
            !r.done_state(),
            r.dec() == (ChimpDec { curr: 0u64, lead: 0 as nat }),
    {
        Decoder { first: true, done: false, curr: 0, leading_zeros: 0, r: read }
    }

    /// Read the raw first sample.
    fn get_first(&mut self) -> (r: Result<(), Error>)
        requires
            old(self).wf(),
        ensures
            final(self).wf(),
            final(self).bits() == old(self).bits(),
            final(self).first_state() == old(self).first_state(),
            final(self).done_state() == old(self).done_state(),
            final(self).dec().lead == old(self).dec().lead,
            old(self).consumed() + 64 <= old(self).bits().len() ==> {
                &&& r == Ok::<(), Error>(())
                &&& final(self).dec().curr == field_val(old(self).bits(), old(self).consumed(), 64)
                &&& final(self).consumed() == old(self).consumed() + 64
            },
            old(self).consumed() + 64 > old(self).bits().len() ==> r == Err::<(), Error>(
                Error::EOF,
            ),
    {
        let v = match self.r.read_bits(64) {
            Ok(v) => v,
            Err(e) => {
                return Err(e);
            },
        };
        self.curr = v;
        Ok(())
    }

    /// Decode one non-first sample: the exact inverse of one parse step.
    fn get_value(&mut self) -> (r: Result<(), Error>)
        requires
            old(self).wf(),
        ensures
            final(self).wf(),
            final(self).bits() == old(self).bits(),
            final(self).first_state() == old(self).first_state(),
            final(self).done_state() == old(self).done_state(),
            match chimp_parse(old(self).dec(), old(self).bits(), old(self).consumed()) {
                Some(sp) => {
                    &&& r == Ok::<(), Error>(())
                    &&& final(self).dec() == sp.0
                    &&& final(self).consumed() == sp.1
                },
                None => r == Err::<(), Error>(Error::EOF),
            },
    {
        let ghost s = self.bits();
        let ghost pos = self.consumed();
        let flag = match self.r.read_bits(2) {
            Ok(v) => v,
            Err(e) => {
                return Err(e);
            },
        };
        if flag == 1 {
            let cls = match self.r.read_bits(3) {
                Ok(v) => v,
                Err(e) => {
                    return Err(e);
                },
            };
            proof {
                lemma_val_of_bound(s.subrange((pos + 2) as int, (pos + 5) as int));
                lemma2_to64();
            }
            let lead = leading_dec(cls as u32);
            let c0 = match self.r.read_bits(6) {
                Ok(v) => v,
                Err(e) => {
                    return Err(e);
                },
            };
            proof {
                lemma_val_of_bound(s.subrange((pos + 5) as int, (pos + 11) as int));
            }
            let center_bits: u32 = if c0 == 0 {
                64
            } else {
                c0 as u32
            };
            let trailing: u32 = if center_bits + lead > 64 {
                0
            } else {
                64 - center_bits - lead
            };
            let xor = match self.r.read_bits(center_bits) {
                Ok(v) => v,
                Err(e) => {
                    return Err(e);
                },
            };
            self.curr = self.curr ^ (xor << trailing);
            self.leading_zeros = lead;
        } else if flag == 2 {
            let xor = match self.r.read_bits(64 - self.leading_zeros) {
                Ok(v) => v,
                Err(e) => {
                    return Err(e);
                },
            };
            self.curr = self.curr ^ xor;
        } else if flag == 3 {
            let cls = match self.r.read_bits(3) {
                Ok(v) => v,
                Err(e) => {
                    return Err(e);
                },
            };
            proof {
                lemma_val_of_bound(s.subrange((pos + 2) as int, (pos + 5) as int));
                lemma2_to64();
            }
            let lead = leading_dec(cls as u32);
            let xor = match self.r.read_bits(64 - lead) {
                Ok(v) => v,
                Err(e) => {
                    return Err(e);
                },
            };
            self.curr = self.curr ^ xor;
            self.leading_zeros = lead;
        }
        proof {
            lemma_val_of_bound(s.subrange(pos as int, (pos + 2) as int));
            lemma2_to64();
        }
        Ok(())
    }

    /// Pull the next sample. After the sentinel, a truncated stream, or an
    /// earlier end, every call returns `EOF`.
    pub fn get_next(&mut self) -> (r: Result<u64, Error>)
        requires
            old(self).wf(),
        ensures
            final(self).wf(),
            final(self).bits() == old(self).bits(),
            old(self).done_state() ==> r == Err::<u64, Error>(Error::EOF) && *final(self)
                == *old(self),
            r is Err ==> final(self).done_state(),
            !old(self).done_state() && old(self).first_state() && old(self).consumed() + 64 <= old(self).bits().len() ==> ({
                let v = field_val(old(self).bits(), old(self).consumed(), 64);
                &&& !final(self).first_state()
                &&& final(self).dec() == (ChimpDec { curr: v, lead: old(self).dec().lead })
                &&& final(self).consumed() == old(self).consumed() + 64
                &&& v == NAN ==> r == Err::<u64, Error>(Error::EOF) && final(self).done_state()
                &&& v != NAN ==> r == Ok::<u64, Error>(v) && !final(self).done_state()
            }),
            !old(self).done_state() && old(self).first_state() && old(self).consumed() + 64 > old(self).bits().len() ==> r == Err::<u64, Error>(Error::EOF) && final(self).done_state(),
            !old(self).done_state() && !old(self).first_state() ==> ({
                match chimp_parse(old(self).dec(), old(self).bits(), old(self).consumed()) {
                    Some(sp) => {
                        &&& !final(self).first_state()
                        &&& final(self).dec() == sp.0
                        &&& final(self).consumed() == sp.1
                        &&& sp.0.curr == NAN ==> r == Err::<u64, Error>(Error::EOF) && final(self).done_state()
                        &&& sp.0.curr != NAN ==> r == Ok::<u64, Error>(sp.0.curr) && !final(self).done_state()
                    },
                    None => r == Err::<u64, Error>(Error::EOF) && final(self).done_state(),
                }
            }),
    {
        if self.done {
            return Err(Error::EOF);
        }
        if self.first {
            self.first = false;
            match self.get_first() {
                Ok(v) => v,
                Err(e) => {
                    self.done = true;
                    return Err(e);
                },
            };
        } else {
            match self.get_value() {
                Ok(v) => v,
                Err(e) => {
                    self.done = true;
                    return Err(e);
                },
            };
        }
        if self.curr == NAN {
            self.done = true;
            Err(Error::EOF)
        } else {
            Ok(self.curr)
        }
    }
}

impl Decode for Decoder {
    closed spec fn inv(&self) -> bool {
        self.wf()
    }

    closed spec fn next_value(&self) -> Option<u64> {
        if self.done_state() {
            None
        } else if self.first_state() {
            if self.consumed() + 64 <= self.bits().len() {
                let v = field_val(self.bits(), self.consumed(), 64);
                if v == NAN {
                    None
                } else {
                    Some(v)
                }
            } else {
                None
            }
        } else {
            match chimp_parse(self.dec(), self.bits(), self.consumed()) {
                Some(sp) => if sp.0.curr == NAN {
                    None
                } else {
                    Some(sp.0.curr)
                },
                None => None,
            }
        }
    }

    fn get_next(&mut self) -> (r: Result<u64, Error>) {
        self.get_next()
    }
}

/// Decode samples from `pos` until the sentinel, the end of the stream, or
/// exhausted fuel.
pub open spec fn chimp_decode_from(s: Seq<bool>, pos: nat, st: ChimpDec, fuel: nat) -> Seq<u64>
    decreases fuel,
{
    if fuel == 0 {
        Seq::empty()
    } else {
        match chimp_parse(st, s, pos) {
            None => Seq::empty(),
            Some(sp) => {
                if sp.0.curr == NAN {
                    Seq::empty()
                } else {
                    seq![sp.0.curr] + chimp_decode_from(s, sp.1, sp.0, (fuel - 1) as nat)
                }
            },
        }
    }
}

/// Decode a whole stream: the raw first sample, then flag-coded samples
/// until the sentinel.
pub open spec fn chimp_decode(s: Seq<bool>) -> Seq<u64> {
    if s.len() < 64 {
        Seq::empty()
    } else {
        let v = field_val(s, 0, 64);
        if v == NAN {
            Seq::empty()
        } else {
            seq![v] + chimp_decode_from(s, 64, ChimpDec { curr: v, lead: 0 }, s.len())
        }
    }
}

/// The decoder state that tracks an encoder state: it reconstructed the same
/// previous sample, and whenever the encoder's class is meaningful, the
/// decoder holds the same class.
pub open spec fn chimp_mirror(est: ChimpEnc, dst: ChimpDec) -> bool {
    &&& dst.curr == est.prev
    &&& est.lead <= 24 ==> dst.lead == est.lead
}

/// Every sample emits at least one bit.
pub proof fn lemma_chimp_emit_min(st: ChimpEnc, x: u64)
    ensures
        chimp_emit(st, x).len() >= 1,
{
}

/// One step keeps the encoder state well formed.
pub proof fn lemma_chimp_step_wf(st: ChimpEnc, x: u64)
    requires
        chimp_enc_wf(st),
    ensures
        chimp_enc_wf(chimp_step(st, x)),
        chimp_step(st, x).prev == x,
        !chimp_step(st, x).first,
{
    if !st.first && st.prev != x {
        lemma_xor_cancel(st.prev, x);
        lemma_leading_round_le(u64_leading_zeros(st.prev ^ x) as nat);
    }
}

/// The state after any run of samples is well formed.
pub proof fn lemma_chimp_run_wf(vals: Seq<u64>)
    ensures
        chimp_enc_wf(chimp_run(vals)),
        vals.len() == 0 ==> chimp_run(vals) == chimp_init(),
        vals.len() > 0 ==> !chimp_run(vals).first && chimp_run(vals).prev == vals.last(),
    decreases vals.len(),
{
    if vals.len() > 0 {
        lemma_chimp_run_wf(vals.drop_last());
        lemma_chimp_step_wf(chimp_run(vals.drop_last()), vals.last());
    }
}

proof fn lemma_chimp_take_unfold(vals: Seq<u64>, k: int)
    requires
        0 <= k < vals.len(),
    ensures
        chimp_run(vals.take(k + 1)) == chimp_step(chimp_run(vals.take(k)), vals[k]),
        chimp_encode_bits(vals.take(k + 1)) == chimp_encode_bits(vals.take(k)) + chimp_emit(
            chimp_run(vals.take(k)),
            vals[k],
        ),
{
    assert(vals.take(k + 1).drop_last() =~= vals.take(k));
    assert(vals.take(k + 1).last() == vals[k]);
}

/// Sample `k`'s emission stands in the full encoding at the offset where the
/// first `k` samples end.
proof fn lemma_chimp_encode_at(vals: Seq<u64>, k: int)
    requires
        0 <= k < vals.len(),
    ensures
        ({
            let p = chimp_encode_bits(vals.take(k)).len() as int;
            let e = chimp_emit(chimp_run(vals.take(k)), vals[k]);
            &&& p + e.len() == chimp_encode_bits(vals.take(k + 1)).len()
            &&& chimp_encode_bits(vals.take(k + 1)).len() <= chimp_encode_bits(vals).len()
            &&& chimp_encode_bits(vals).subrange(p, p + e.len()) == e
        }),
    decreases vals.len(),
{
    lemma_chimp_take_unfold(vals, k);
    let p = chimp_encode_bits(vals.take(k)).len() as int;
    let e = chimp_emit(chimp_run(vals.take(k)), vals[k]);
    if k == vals.len() - 1 {
        assert(vals.take(k + 1) =~= vals);
        assert(chimp_encode_bits(vals).subrange(p, p + e.len()) =~= e);
    } else {
        let prefix = vals.drop_last();
        lemma_chimp_encode_at(prefix, k);
        assert(vals.take(k) =~= prefix.take(k));
        assert(vals.take(k + 1) =~= prefix.take(k + 1));
        assert(chimp_encode_bits(vals) == chimp_encode_bits(prefix) + chimp_emit(
            chimp_run(prefix),
            vals.last(),
        ));
        assert(chimp_encode_bits(vals).subrange(p, p + e.len()) =~= chimp_encode_bits(
            prefix,
        ).subrange(p, p + e.len()));
    }
}

proof fn lemma_chimp_encode_min_len(vals: Seq<u64>)
    ensures
        chimp_encode_bits(vals).len() >= vals.len(),
    decreases vals.len(),
{
    if vals.len() > 0 {
        lemma_chimp_encode_min_len(vals.drop_last());
        lemma_chimp_emit_min(chimp_run(vals.drop_last()), vals.last());
    }
}

/// The step-inverse: wherever the bits one sample emitted stand in a stream,
/// a mirroring decoder parses exactly those bits, reconstructs exactly that
/// sample, and mirrors the stepped encoder.
proof fn lemma_chimp_parse_emit(est: ChimpEnc, dst: ChimpDec, x: u64, s: Seq<bool>, pos: nat)
    requires
        !est.first,
        chimp_enc_wf(est),
        chimp_dec_wf(dst),
        chimp_mirror(est, dst),
        pos + chimp_emit(est, x).len() <= s.len(),
        s.subrange(pos as int, pos + chimp_emit(est, x).len() as int) == chimp_emit(est, x),
    ensures
        ({
            let e = chimp_emit(est, x);
            let r = chimp_parse(dst, s, pos);
            &&& r is Some
            &&& r->Some_0.1 == pos + e.len()
            &&& r->Some_0.0.curr == x
            &&& chimp_dec_wf(r->Some_0.0)
            &&& chimp_mirror(chimp_step(est, x), r->Some_0.0)
        }),
{
    let e = chimp_emit(est, x);
    let xor = est.prev ^ x;
    lemma_bit64_single();
    lemma_xor_cancel(est.prev, x);
    lemma2_to64();
    assert forall|j: int| 0 <= j < e.len() implies s[pos as int + j] == e[j] by {
        assert(s.subrange(pos as int, pos + e.len() as int)[j] == e[j]);
    }
    if xor == 0 {
        assert(s.subrange(pos as int, (pos + 2) as int) =~= bits_of(0, 2)) by {
            assert(s[pos as int + 0] == e[0] && s[pos as int + 1] == e[1]);
        }
        lemma_val_of_bits_of(0, 2);
    } else {
        let l = leading_round_spec(u64_leading_zeros(xor) as nat);
        let t = u64_trailing_zeros(xor) as nat;
        lemma_lead_trail_sum(xor);
        lemma_leading_round_le(u64_leading_zeros(xor) as nat);
        lemma_leading_tables_inverse(u64_leading_zeros(xor) as nat);
        if t > 6 {
            let cb = (64 - l - t) as nat;
            let f1 = bits_of(leading_enc_spec(l) as u64, 3);
            let f2 = bits_of((64 - l - t) as u64, 6);
            let f3 = bits_of(xor >> (t as u64), cb);
            assert(e == bits_of(1, 2) + f1 + f2 + f3);
            assert(s.subrange(pos as int, (pos + 2) as int) =~= bits_of(1, 2)) by {
                assert(s[pos as int + 0] == e[0] && s[pos as int + 1] == e[1]);
            }
            lemma_val_of_bits_of(1, 2);
            assert forall|j: int|
                0 <= j < 3 implies s.subrange((pos + 2) as int, (pos + 5) as int)[j]
                == f1[j] by {
                assert(s[pos as int + (2 + j)] == e[2 + j]);
                assert(e[2 + j] == f1[j]);
            }
            assert(s.subrange((pos + 2) as int, (pos + 5) as int) =~= f1);
            lemma_val_of_bits_of(leading_enc_spec(l) as u64, 3);
            assert forall|j: int|
                0 <= j < 6 implies s.subrange((pos + 5) as int, (pos + 11) as int)[j]
                == f2[j] by {
                assert(s[pos as int + (5 + j)] == e[5 + j]);
                assert(e[5 + j] == f2[j]);
            }
            assert(s.subrange((pos + 5) as int, (pos + 11) as int) =~= f2);
            lemma_val_of_bits_of((64 - l - t) as u64, 6);
            lemma_window_bound(xor, l, t);
            assert forall|j: int|
                0 <= j < cb implies s.subrange((pos + 11) as int, (pos + 11 + cb) as int)[j]
                == f3[j] by {
                assert(s[pos as int + (11 + j)] == e[11 + j]);
                assert(e[11 + j] == f3[j]);
            }
            assert(s.subrange((pos + 11) as int, (pos + 11 + cb) as int) =~= f3);
            lemma_val_of_bits_of(xor >> (t as u64), cb);
        } else if l == est.lead {
            let cb = (64 - l) as nat;
            let f = bits_of(xor, cb);
            assert(e == bits_of(1, 1) + bits_of(0, 1) + f);
            assert(s.subrange(pos as int, (pos + 2) as int) =~= bits_of(2, 2)) by {
                assert(s[pos as int + 0] == e[0] && s[pos as int + 1] == e[1]);
            }
            lemma_val_of_bits_of(2, 2);
            lemma_window_bound(xor, l, 0);
            assert(xor >> 0u64 == xor) by (bit_vector);
            assert forall|j: int|
                0 <= j < cb implies s.subrange((pos + 2) as int, (pos + 2 + cb) as int)[j]
                == f[j] by {
                assert(s[pos as int + (2 + j)] == e[2 + j]);
                assert(e[2 + j] == f[j]);
            }
            assert(s.subrange((pos + 2) as int, (pos + 2 + cb) as int) =~= f);
            lemma_val_of_bits_of(xor, cb);
        } else {
            let cb = (64 - l) as nat;
            let f1 = bits_of(leading_enc_spec(l) as u64, 3);
            let f = bits_of(xor, cb);
            assert(e == bits_of(1, 1) + bits_of(1, 1) + f1 + f);
            assert(s.subrange(pos as int, (pos + 2) as int) =~= bits_of(3, 2)) by {
                assert(s[pos as int + 0] == e[0] && s[pos as int + 1] == e[1]);
            }
            lemma_val_of_bits_of(3, 2);
            assert forall|j: int|
                0 <= j < 3 implies s.subrange((pos + 2) as int, (pos + 5) as int)[j]
                == f1[j] by {
                assert(s[pos as int + (2 + j)] == e[2 + j]);
                assert(e[2 + j] == f1[j]);
            }
            assert(s.subrange((pos + 2) as int, (pos + 5) as int) =~= f1);
            lemma_val_of_bits_of(leading_enc_spec(l) as u64, 3);
            lemma_window_bound(xor, l, 0);
            assert(xor >> 0u64 == xor) by (bit_vector);
            assert forall|j: int|
                0 <= j < cb implies s.subrange((pos + 5) as int, (pos + 5 + cb) as int)[j]
                == f[j] by {
                assert(s[pos as int + (5 + j)] == e[5 + j]);
                assert(e[5 + j] == f[j]);
            }
            assert(s.subrange((pos + 5) as int, (pos + 5 + cb) as int) =~= f);
            lemma_val_of_bits_of(xor, cb);
        }
    }
}

/// Decoding from the end of the first `k` samples, in a state that mirrors
/// the encoder there, yields exactly the remaining samples.
proof fn lemma_chimp_decode_suffix(
    vals: Seq<u64>,
    k: int,
    s: Seq<bool>,
    dst: ChimpDec,
    fuel: nat,
)
    requires
        forall|i: int| 0 <= i < vals.len() ==> vals[i] != NAN,
        1 <= k <= vals.len(),
        chimp_stream_bits(vals).len() <= s.len(),
        s.subrange(0, chimp_stream_bits(vals).len() as int) == chimp_stream_bits(vals),
        chimp_mirror(chimp_run(vals.take(k)), dst),
        chimp_dec_wf(dst),
        fuel >= vals.len() - k + 1,
    ensures
        chimp_decode_from(s, chimp_encode_bits(vals.take(k)).len(), dst, fuel) == vals.skip(k),
    decreases vals.len() - k,
{
    let full = chimp_stream_bits(vals);
    let pos = chimp_encode_bits(vals.take(k)).len();
    assert(forall|j: int| 0 <= j < full.len() ==> s[j] == full[j]) by {
        assert(forall|j: int| 0 <= j < full.len() ==> s.subrange(0, full.len() as int)[j]
            == full[j]);
    }
    lemma_chimp_run_wf(vals.take(k));
    if k == vals.len() {
        assert(vals.take(k) =~= vals);
        let e = chimp_emit(chimp_run(vals), NAN);
        assert(s.subrange(pos as int, pos + e.len() as int) =~= e) by {
            assert(forall|j: int|
                0 <= j < e.len() ==> full[pos + j] == e[j] && s[pos + j] == full[pos + j]);
        }
        lemma_chimp_parse_emit(chimp_run(vals), dst, NAN, s, pos);
        assert(chimp_decode_from(s, pos, dst, fuel) =~= vals.skip(k));
    } else {
        let est = chimp_run(vals.take(k));
        let x = vals[k];
        let e = chimp_emit(est, x);
        lemma_chimp_encode_at(vals, k);
        lemma_chimp_take_unfold(vals, k);
        assert(s.subrange(pos as int, pos + e.len() as int) =~= e) by {
            assert(chimp_encode_bits(vals).subrange(pos as int, pos + e.len() as int) == e);
            assert(forall|j: int| 0 <= j < chimp_encode_bits(vals).len() ==> full[j]
                == chimp_encode_bits(vals)[j]);
            assert(forall|j: int|
                0 <= j < e.len() ==> s[pos + j] == full[pos + j] && full[pos + j] == e[j]);
        }
        lemma_chimp_parse_emit(est, dst, x, s, pos);
        let sp = chimp_parse(dst, s, pos)->Some_0;
        lemma_chimp_decode_suffix(vals, k + 1, s, sp.0, (fuel - 1) as nat);
        assert(chimp_decode_from(s, pos, dst, fuel) =~= vals.skip(k));
    }
}

/// The Chimp round-trip law: for any finite sequence of samples free of the
/// sentinel pattern, decoding any stream that begins with the closed
/// encoding yields exactly that sequence.
pub proof fn lemma_chimp_round_trip(vals: Seq<u64>, s: Seq<bool>)
    requires
        forall|i: int| 0 <= i < vals.len() ==> vals[i] != NAN,
        chimp_stream_bits(vals).len() <= s.len(),
        s.subrange(0, chimp_stream_bits(vals).len() as int) == chimp_stream_bits(vals),
    ensures
        chimp_decode(s) == vals,
{
    let full = chimp_stream_bits(vals);
    lemma2_to64_rest();
    assert(forall|j: int| 0 <= j < full.len() ==> s[j] == full[j]) by {
        assert(forall|j: int| 0 <= j < full.len() ==> s.subrange(0, full.len() as int)[j]
            == full[j]);
    }
    if vals.len() == 0 {
        assert(full == bits_of(NAN, 64) + bits_of(0, 1));
        assert(s.subrange(0, 64) =~= bits_of(NAN, 64));
        lemma_val_of_bits_of(NAN, 64);
        assert(chimp_decode(s) =~= vals);
    } else {
        lemma_chimp_take_unfold(vals, 0);
        assert(vals.take(0) =~= Seq::<u64>::empty());
        assert(chimp_encode_bits(vals.take(1)) == chimp_emit(chimp_init(), vals[0]));
        lemma_chimp_encode_at(vals, 0);
        lemma_chimp_encode_min_len(vals);
        assert(s.subrange(0, 64) =~= bits_of(vals[0], 64)) by {
            assert(chimp_encode_bits(vals).subrange(0, 64) == bits_of(vals[0], 64));
        }
        lemma_val_of_bits_of(vals[0], 64);
        assert(field_val(s, 0, 64) == vals[0]);
        let dst0 = ChimpDec { curr: vals[0], lead: 0 };
        lemma_chimp_decode_suffix(vals, 1, s, dst0, s.len());
        assert(chimp_encode_bits(vals.take(1)).len() == 64);
        assert(chimp_decode(s) =~= vals) by {
            assert(chimp_decode_from(s, 64, dst0, s.len()) == vals.skip(1));
        }
    }
}

/// A repeated sample costs the two-bit zero flag.
pub proof fn lemma_chimp_repeat(st: ChimpEnc, x: u64)
    requires
        !st.first,
        st.prev == x,
    ensures
        chimp_emit(st, x) == bits_of(0, 2),
{
    lemma_xor_cancel(st.prev, x);
}

/// A single sample: the closed stream is the raw 64 sample bits followed by
/// the sentinel framing, and decoding yields exactly that sample.
pub proof fn lemma_chimp_single_sample(x: u64, s: Seq<bool>)
    requires
        x != NAN,
        chimp_stream_bits(seq![x]).len() <= s.len(),
        s.subrange(0, chimp_stream_bits(seq![x]).len() as int) == chimp_stream_bits(seq![x]),
    ensures
        chimp_stream_bits(seq![x]) == bits_of(x, 64) + chimp_emit(chimp_run(seq![x]), NAN)
            + bits_of(0, 1),
        chimp_decode(s) == seq![x],
{
    let v1 = seq![x];
    assert(v1.len() == 1 && v1.drop_last() =~= Seq::<u64>::empty() && v1.last() == x);
    assert(chimp_run(v1.drop_last()) == chimp_init());
    assert(chimp_encode_bits(v1.drop_last()) == Seq::<bool>::empty());
    assert(chimp_encode_bits(v1) == chimp_encode_bits(v1.drop_last()) + chimp_emit(chimp_init(), x));
    assert(chimp_encode_bits(v1) =~= bits_of(x, 64));
    lemma_chimp_round_trip(seq![x], s);
}

/// The round trip stated on what `close` hands over: a word buffer holding
/// the closed stream plus zero padding decodes to exactly the encoded
/// samples.
pub proof fn lemma_chimp_closed_decode(vals: Seq<u64>, words: Seq<u64>, pad: nat)
    requires
        forall|i: int| 0 <= i < vals.len() ==> vals[i] != NAN,
        words_bits(words) == chimp_stream_bits(vals) + zero_bits(pad),
    ensures
        chimp_decode(words_bits(words)) == vals,
{
    let full = chimp_stream_bits(vals);
    let s = words_bits(words);
    assert(s.subrange(0, full.len() as int) =~= full);
    lemma_chimp_round_trip(vals, s);
}

/// The exact cost of a constant run: 64 raw bits, then two bits per repeat.
proof fn lemma_chimp_constant_len(x: u64, n: nat)
    requires
        1 <= n,
    ensures
        chimp_encode_bits(Seq::new(n, |j: int| x)).len() == 64 + 2 * (n - 1),
    decreases n,
{
    let c = Seq::new(n, |j: int| x);
    assert(c[n as int - 1] == x);
    assert(c.last() == x);
    if n == 1 {
        assert(c.drop_last() =~= Seq::<u64>::empty());
        assert(chimp_encode_bits(c) == chimp_emit(chimp_init(), x));
    } else {
        assert(c.drop_last() =~= Seq::new((n - 1) as nat, |j: int| x));
        assert(c.drop_last()[n as int - 2] == c[n as int - 2] && c[n as int - 2] == x);
        assert(c.drop_last().last() == x);
        lemma_chimp_constant_len(x, (n - 1) as nat);
        lemma_chimp_run_wf(c.drop_last());
        lemma_chimp_repeat(chimp_run(c.drop_last()), x);
        assert(chimp_encode_bits(c) == chimp_encode_bits(c.drop_last()) + chimp_emit(
            chimp_run(c.drop_last()),
            x,
        ));
    }
}

/// Compression on a constant run: from four samples on, the closed stream is
/// strictly smaller than raw 64-bit storage. With close's bound
/// `64 * words < stream + 64`, the closed buffer stays below `64 * n` bits.
pub proof fn lemma_chimp_constant_run_compresses(x: u64, n: nat)
    requires
        4 <= n,
    ensures
        chimp_stream_bits(Seq::new(n, |j: int| x)).len() + 64 <= 64 * n,
{
    let c = Seq::new(n, |j: int| x);
    lemma_chimp_constant_len(x, n);
    lemma_chimp_run_wf(c);
    lemma_chimp_emit_len(chimp_run(c), NAN);
}

} // verus!
