//! The classic Gorilla double codec: each sample is XORed against the
//! previous one; a zero XOR costs one bit, and a nonzero XOR is written as
//! its significant window, reusing the previous window's bounds when they
//! still enclose it.

use crate::bits::{
    bits_of, field_val, lemma_bit64_single, lemma_bit_and_one, lemma_lead_trail_sum,
    lemma_val_of_bits_of, lemma_val_of_bound, lemma_window_bound, lemma_xor_cancel, val_of,
    words_bits, zero_bits,
};
use crate::bitstream::{Error, InputBitStream, OutputBitStream};
use crate::{Bit, Decode, NAN};
use vstd::arithmetic::power2::*;
use vstd::prelude::*;
use vstd::std_specs::bits::{u64_leading_zeros, u64_trailing_zeros};

verus! {

/// The abstract per-sample state of the Gorilla encoder: the previous
/// sample's bits and the significant window last written.
pub struct GorillaEnc {
    pub first: bool,
    pub prev: u64,
    pub lead: nat,
    pub trail: nat,
}

/// Encoder states the codec reaches: either no window has been written yet
/// (`lead` out of range, as the fresh encoder starts) or the window bounds a
/// nonzero XOR.
pub open spec fn gorilla_enc_wf(st: GorillaEnc) -> bool {
    st.lead + st.trail <= 63 || (st.lead >= 64 && st.trail == 0)
}

pub open spec fn gorilla_init() -> GorillaEnc {
    GorillaEnc { first: true, prev: 0, lead: u32::MAX as nat, trail: 0 }
}

/// The bits one sample appends to the stream.
pub open spec fn gorilla_emit(st: GorillaEnc, x: u64) -> Seq<bool> {
    if st.first {
        bits_of(x, 64)
    } else {
        let xor = st.prev ^ x;
        if xor == 0 {
            bits_of(0, 1)
        } else {
            let l = u64_leading_zeros(xor) as nat;
            let t = u64_trailing_zeros(xor) as nat;
            if st.lead <= l && st.trail <= t {
                bits_of(1, 1) + bits_of(0, 1) + bits_of(
                    xor >> (st.trail as u64),
                    (64 - st.lead - st.trail) as nat,
                )
            } else {
                bits_of(1, 1) + bits_of(1, 1) + bits_of(l as u64, 6) + bits_of(
                    (63 - l - t) as u64,
                    6,
                ) + bits_of(xor >> (t as u64), (64 - l - t) as nat)
            }
        }
    }
}

/// How one sample advances the encoder state.
pub open spec fn gorilla_step(st: GorillaEnc, x: u64) -> GorillaEnc {
    if st.first {
        GorillaEnc { first: false, prev: x, lead: st.lead, trail: st.trail }
    } else {
        let xor = st.prev ^ x;
        if xor == 0 {
            GorillaEnc { first: false, prev: x, lead: st.lead, trail: st.trail }
        } else {
            let l = u64_leading_zeros(xor) as nat;
            let t = u64_trailing_zeros(xor) as nat;
            if st.lead <= l && st.trail <= t {
                GorillaEnc { first: false, prev: x, lead: st.lead, trail: st.trail }
            } else {
                GorillaEnc { first: false, prev: x, lead: l, trail: t }
            }
        }
    }
}

/// The encoder state after a whole sequence of samples.
pub open spec fn gorilla_run(vals: Seq<u64>) -> GorillaEnc
    decreases vals.len(),
{
    if vals.len() == 0 {
        gorilla_init()
    } else {
        gorilla_step(gorilla_run(vals.drop_last()), vals.last())
    }
}

/// The bits a whole sequence of samples appends.
pub open spec fn gorilla_encode_bits(vals: Seq<u64>) -> Seq<bool>
    decreases vals.len(),
{
    if vals.len() == 0 {
        Seq::empty()
    } else {
        gorilla_encode_bits(vals.drop_last()) + gorilla_emit(
            gorilla_run(vals.drop_last()),
            vals.last(),
        )
    }
}

/// The full stream a closed encoder leaves, before word padding: every
/// sample, the end-of-stream sentinel, and one padding zero bit.
pub open spec fn gorilla_stream_bits(vals: Seq<u64>) -> Seq<bool> {
    gorilla_encode_bits(vals) + gorilla_emit(gorilla_run(vals), NAN) + bits_of(0, 1)
}

/// One sample appends at most 78 bits.
pub proof fn lemma_gorilla_emit_len(st: GorillaEnc, x: u64)
    requires
        gorilla_enc_wf(st),
    ensures
        gorilla_emit(st, x).len() <= 78,
{
    if !st.first && st.prev != x {
        lemma_xor_cancel(st.prev, x);
        lemma_lead_trail_sum(st.prev ^ x);
    }
}

#[derive(Debug)]
pub struct Encoder {
    first: bool,
    curr: u64,
    leading_zeros: u32,
    trailing_zeros: u32,
    write: OutputBitStream,
}

impl Encoder {
    /// The abstract encoder state the fields hold.
    pub closed spec fn model(&self) -> GorillaEnc {
        GorillaEnc {
            first: self.first,
            prev: self.curr,
            lead: self.leading_zeros as nat,
            trail: self.trailing_zeros as nat,
        }
    }

    /// The bits written so far.
    pub closed spec fn stream(&self) -> Seq<bool> {
        self.write@
    }

    pub closed spec fn wf(&self) -> bool {
        &&& self.write.wf()
        &&& gorilla_enc_wf(self.model())
    }

    pub fn new() -> (r: Encoder)
        ensures
            r.wf(),
            r.stream() == Seq::<bool>::empty(),
            r.model() == gorilla_init(),
    {
        Encoder {
            first: true,
            curr: 0,
            leading_zeros: u32::MAX,
            trailing_zeros: 0,
            write: OutputBitStream::new(),
        }
    }

    /// Encode one sample: append `gorilla_emit` of the current state and
    /// advance the state by `gorilla_step`.
    pub fn insert_value(&mut self, value: u64)
        requires
            old(self).wf(),
        ensures
            final(self).wf(),
            final(self).stream() == old(self).stream() + gorilla_emit(
                old(self).model(),
                value,
            ),
            final(self).model() == gorilla_step(old(self).model(), value),
    {
        let ghost st = self.model();
        if self.first {
            self.first = false;
            proof {
                lemma2_to64_rest();
            }
            self.write.write_bits(value, 64);
        } else {
            let xor = self.curr ^ value;
            if xor == 0 {
                self.write.write_bit(0);
                proof {
                    lemma_xor_cancel(self.curr, value);
                    lemma_bit_and_one();
                    assert(self.write@ =~= old(self).write@ + gorilla_emit(st, value));
                }
            } else {
                self.write.write_bit(1);
                let lead = xor.leading_zeros();
                let trail = xor.trailing_zeros();
                proof {
                    lemma_lead_trail_sum(xor);
                    lemma2_to64();
                }
                if self.leading_zeros <= lead && self.trailing_zeros <= trail {
                    self.write.write_bit(0);
                    let center_bits = 64 - self.leading_zeros - self.trailing_zeros;
                    proof {
                        lemma_window_bound(
                            xor,
                            self.leading_zeros as nat,
                            self.trailing_zeros as nat,
                        );
                    }
                    self.write.write_bits(xor >> self.trailing_zeros, center_bits);
                    proof {
                        lemma_bit_and_one();
                        assert(self.write@ =~= old(self).write@ + gorilla_emit(st, value));
                    }
                } else {
                    self.write.write_bit(1);
                    self.write.write_bits(lead as u64, 6);
                    let center_bits = 64 - lead - trail;
                    self.write.write_bits((center_bits as u64) - 1, 6);
                    proof {
                        lemma_window_bound(xor, lead as nat, trail as nat);
                    }
                    self.write.write_bits(xor >> trail, center_bits);
                    self.leading_zeros = lead;
                    self.trailing_zeros = trail;
                    proof {
                        lemma_bit_and_one();
                        assert(self.write@ =~= old(self).write@ + gorilla_emit(st, value));
                    }
                }
            }
        }
        self.curr = value;
    }

    /// Encode one sample; the first sample is written raw.
    pub fn encode(&mut self, value: u64)
        requires
            old(self).wf(),
        ensures
            final(self).wf(),
            final(self).stream() == old(self).stream() + gorilla_emit(
                old(self).model(),
                value,
            ),
            final(self).model() == gorilla_step(old(self).model(), value),
    {
        self.insert_value(value);
    }

    /// Encode a whole sequence of samples.
    pub fn encode_vec(values: &Vec<u64>) -> (r: Encoder)
        ensures
            r.wf(),
            r.stream() == gorilla_encode_bits(values@),
            r.model() == gorilla_run(values@),
    {
        let mut enc = Encoder::new();
        proof {
            assert(values@.take(0) =~= Seq::<u64>::empty());
            assert(enc.stream() =~= gorilla_encode_bits(values@.take(0)));
        }
        let n = values.len();
        for i in 0..n
            invariant
                n == values@.len(),
                enc.wf(),
                enc.stream() == gorilla_encode_bits(values@.take(i as int)),
                enc.model() == gorilla_run(values@.take(i as int)),
        {
            enc.encode(values[i]);
            proof {
                assert(values@.take(i + 1).drop_last() =~= values@.take(i as int));
                assert(values@.take(i + 1).last() == values@[i as int]);
            }
        }
        proof {
            assert(values@.take(n as int) =~= values@);
        }
        enc
    }

    /// Close the stream: encode the end-of-stream sentinel, append one
    /// padding zero bit, flush, and hand over the word buffer and the exact
    /// count of bits written.
    pub fn close(self) -> (r: (Vec<u64>, u64))
        requires
            self.wf(),
            self.stream().len() + 100 <= u64::MAX,
        ensures
            ({
                let full = self.stream() + gorilla_emit(self.model(), NAN) + bits_of(0, 1);
                &&& words_bits(r.0@) == full + zero_bits((64 * r.0@.len() - full.len()) as nat)
                &&& full.len() <= 64 * r.0@.len() < full.len() + 64
                &&& r.1 == full.len()
            }),
    {
        let mut this = self;
        proof {
            lemma_gorilla_emit_len(this.model(), NAN);
        }
        this.insert_value(NAN);
        this.write.write_bit(0);
        proof {
            lemma_bit_and_one();
        }
        let size = this.write.bit_count();
        (this.write.close(), size)
    }
}

/// The abstract per-sample state of the Gorilla decoder.
pub struct GorillaDec {
    pub curr: u64,
    pub lead: nat,
    pub trail: nat,
}

pub open spec fn gorilla_dec_wf(st: GorillaDec) -> bool {
    st.lead + st.trail <= 63
}

/// Parse one sample at bit position `pos` of `s`: the decoder's step
/// function. `None` is end-of-stream (a read would pass the end).
pub open spec fn gorilla_parse(st: GorillaDec, s: Seq<bool>, pos: nat) -> Option<
    (GorillaDec, nat),
> {
    if pos + 1 > s.len() {
        None
    } else if !s[pos as int] {
        Some((st, (pos + 1) as nat))
    } else if pos + 2 > s.len() {
        None
    } else if !s[(pos + 1) as int] {
        let cb = (64 - st.lead - st.trail) as nat;
        if pos + 2 + cb > s.len() {
            None
        } else {
            let xor = val_of(s.subrange((pos + 2) as int, (pos + 2 + cb) as int)) as u64;
            Some(
                (
                    GorillaDec {
                        curr: st.curr ^ (xor << (st.trail as u64)),
                        lead: st.lead,
                        trail: st.trail,
                    },
                    (pos + 2 + cb) as nat,
                ),
            )
        }
    } else {
        if pos + 14 > s.len() {
            None
        } else {
            let l = val_of(s.subrange((pos + 2) as int, (pos + 8) as int));
            let cb1 = val_of(s.subrange((pos + 8) as int, (pos + 14) as int)) + 1;
            let t: nat = if l + cb1 > 64 {
                0
            } else {
                (64 - l - cb1) as nat
            };
            let cb = (64 - l - t) as nat;
            if pos + 14 + cb > s.len() {
                None
            } else {
                let xor = val_of(s.subrange((pos + 14) as int, (pos + 14 + cb) as int)) as u64;
                Some(
                    (
                        GorillaDec { curr: st.curr ^ (xor << (t as u64)), lead: l, trail: t },
                        (pos + 14 + cb) as nat,
                    ),
                )
            }
        }
    }
}

#[derive(Debug)]
pub struct Decoder {
    first: bool,
    done: bool,
    curr: u64,
    leading_zeros: u32,
    trailing_zeros: u32,
    read: InputBitStream,
}

impl Decoder {
    /// The abstract decoder state the fields hold.
    pub closed spec fn dec(&self) -> GorillaDec {
        GorillaDec {
            curr: self.curr,
            lead: self.leading_zeros as nat,
            trail: self.trailing_zeros as nat,
        }
    }

    pub closed spec fn first_state(&self) -> bool {
        self.first
    }

    pub closed spec fn done_state(&self) -> bool {
        self.done
    }

    pub closed spec fn bits(&self) -> Seq<bool> {
        self.read.bits()
    }

    pub closed spec fn consumed(&self) -> nat {
        self.read.consumed()
    }

    pub closed spec fn wf(&self) -> bool {
        &&& self.read.wf()
        &&& gorilla_dec_wf(self.dec())
    }

    pub fn new(read: InputBitStream) -> (r: Decoder)
        requires
            read.wf(),
        ensures
            r.wf(),
            r.bits() == read.bits(),
            r.consumed() == read.consumed(),
            r.first_state(),
            !r.done_state(),
            r.dec() == (GorillaDec { curr: 0u64, lead: 0 as nat, trail: 0 as nat }),
    {
        Decoder { first: true, done: false, curr: 0, leading_zeros: 0, trailing_zeros: 0, read }
    }

    /// Read the raw first sample.
    fn get_first(&mut self) -> (r: Result<u64, Error>)
        requires
            old(self).wf(),
        ensures
            final(self).wf(),
            final(self).bits() == old(self).bits(),
            final(self).first_state() == old(self).first_state(),
            final(self).done_state() == old(self).done_state(),
            old(self).consumed() + 64 <= old(self).bits().len() ==> {
                let v = val_of(
                    old(self).bits().subrange(
                        old(self).consumed() as int,
                        old(self).consumed() + 64 as int,
                    ),
                ) as u64;
                &&& r == Ok::<u64, Error>(v)
                &&& final(self).dec() == (GorillaDec {
                    curr: v,
                    lead: old(self).dec().lead,
                    trail: old(self).dec().trail,
                })
                &&& final(self).consumed() == old(self).consumed() + 64
            },
            old(self).consumed() + 64 > old(self).bits().len() ==> r == Err::<u64, Error>(
                Error::EOF,
            ),
    {
        let v = match self.read.read_bits(64) {
            Ok(v) => v,
            Err(e) => {
                return Err(e);
            },
        };
        proof {
            lemma_val_of_bound(
                old(self).bits().subrange(old(self).consumed() as int, old(self).consumed() + 64 as int),
            );
        }
        self.curr = v;
        Ok(self.curr)
    }

    /// Decode one non-first sample: the exact inverse of one parse step.
    fn get_value(&mut self) -> (r: Result<u64, Error>)
        requires
            old(self).wf(),
        ensures
            final(self).wf(),
            final(self).bits() == old(self).bits(),
            final(self).first_state() == old(self).first_state(),
            final(self).done_state() == old(self).done_state(),
            match gorilla_parse(old(self).dec(), old(self).bits(), old(self).consumed()) {
                Some((st2, pos2)) => {
                    &&& r == Ok::<u64, Error>(st2.curr)
                    &&& final(self).dec() == st2
                    &&& final(self).consumed() == pos2
                },
                None => r == Err::<u64, Error>(Error::EOF),
            },
    {
        let ghost s = self.bits();
        let ghost pos = self.consumed();
        let mut bit = match self.read.read_bit() {
            Ok(b) => b,
            Err(e) => {
                return Err(e);
            },
        };
        if bit == Bit::One {
            bit = match self.read.read_bit() {
                Ok(b) => b,
                Err(e) => {
                    return Err(e);
                },
            };
            if bit == Bit::One {
                let l64 = match self.read.read_bits(6) {
                    Ok(v) => v,
                    Err(e) => {
                        return Err(e);
                    },
                };
                proof {
                    lemma_val_of_bound(s.subrange((pos + 2) as int, (pos + 8) as int));
                    lemma2_to64();
                }
                let cb64 = match self.read.read_bits(6) {
                    Ok(v) => v,
                    Err(e) => {
                        return Err(e);
                    },
                };
                proof {
                    lemma_val_of_bound(s.subrange((pos + 8) as int, (pos + 14) as int));
                }
                let lead = l64 as u32;
                let center_bits = (cb64 as u32) + 1;
                self.leading_zeros = lead;
                if lead + center_bits > 64 {
                    self.trailing_zeros = 0;
                } else {
                    self.trailing_zeros = 64 - lead - center_bits;
                }
            }
            let center_bits = 64 - self.leading_zeros - self.trailing_zeros;
            let xor = match self.read.read_bits(center_bits) {
                Ok(v) => v,
                Err(e) => {
                    return Err(e);
                },
            };
            self.curr = self.curr ^ (xor << self.trailing_zeros);
        }
        Ok(self.curr)
    }

    /// Pull the next sample. After the sentinel, a truncated stream, or an
    /// earlier end, every call returns `EOF`.
    pub fn get_next(&mut self) -> (r: Result<u64, Error>)
        requires
            old(self).wf(),
        ensures
            final(self).wf(),
            final(self).bits() == old(self).bits(),
            old(self).done_state() ==> r == Err::<u64, Error>(Error::EOF) && *final(self)
                == *old(self),
            r is Err ==> final(self).done_state(),
            !old(self).done_state() && old(self).first_state() && old(self).consumed() + 64 <= old(self).bits().len() ==> ({
                let v = field_val(old(self).bits(), old(self).consumed(), 64);
                &&& !final(self).first_state()
                &&& final(self).dec() == (GorillaDec {
                    curr: v,
                    lead: old(self).dec().lead,
                    trail: old(self).dec().trail,
                })
                &&& final(self).consumed() == old(self).consumed() + 64
                &&& v == NAN ==> r == Err::<u64, Error>(Error::EOF) && final(self).done_state()
                &&& v != NAN ==> r == Ok::<u64, Error>(v) && !final(self).done_state()
            }),
            !old(self).done_state() && old(self).first_state() && old(self).consumed() + 64 > old(self).bits().len() ==> r == Err::<u64, Error>(Error::EOF) && final(self).done_state(),
            !old(self).done_state() && !old(self).first_state() ==> ({
                match gorilla_parse(old(self).dec(), old(self).bits(), old(self).consumed()) {
                    Some(sp) => {
                        &&& !final(self).first_state()
                        &&& final(self).dec() == sp.0
                        &&& final(self).consumed() == sp.1
                        &&& sp.0.curr == NAN ==> r == Err::<u64, Error>(Error::EOF) && final(self).done_state()
                        &&& sp.0.curr != NAN ==> r == Ok::<u64, Error>(sp.0.curr) && !final(self).done_state()
                    },
                    None => r == Err::<u64, Error>(Error::EOF) && final(self).done_state(),
                }
            }),
    {
        if self.done {
            return Err(Error::EOF);
        }
        let res: u64;
        if self.first {
            self.first = false;
            res = match self.get_first() {
                Ok(v) => v,
                Err(e) => {
                    self.done = true;
                    return Err(e);
                },
            };
        } else {
            res = match self.get_value() {
                Ok(v) => v,
                Err(e) => {
                    self.done = true;
                    return Err(e);
                },
            };
        }
        if res == NAN {
            self.done = true;
            Err(Error::EOF)
        } else {
            Ok(res)
        }
    }
}

impl Decode for Decoder {
    closed spec fn inv(&self) -> bool {
        self.wf()
    }

    closed spec fn next_value(&self) -> Option<u64> {
        if self.done_state() {
            None
        } else if self.first_state() {
            if self.consumed() + 64 <= self.bits().len() {
                let v = field_val(self.bits(), self.consumed(), 64);
                if v == NAN {
                    None
                } else {
                    Some(v)
                }
            } else {
                None
            }
        } else {
            match gorilla_parse(self.dec(), self.bits(), self.consumed()) {
                Some(sp) => if sp.0.curr == NAN {
                    None
                } else {
                    Some(sp.0.curr)
                },
                None => None,
            }
        }
    }

    fn get_next(&mut self) -> (r: Result<u64, Error>) {
        self.get_next()
    }
}

/// Decode samples from `pos` until the sentinel, the end of the stream, or
/// exhausted fuel; any fuel above the sample count is enough, since every
/// sample takes at least one bit.
pub open spec fn gorilla_decode_from(s: Seq<bool>, pos: nat, st: GorillaDec, fuel: nat) -> Seq<
    u64,
>
    decreases fuel,
{
    if fuel == 0 {
        Seq::empty()
    } else {
        match gorilla_parse(st, s, pos) {
            None => Seq::empty(),
            Some(sp) => {
                if sp.0.curr == NAN {
                    Seq::empty()
                } else {
                    seq![sp.0.curr] + gorilla_decode_from(s, sp.1, sp.0, (fuel - 1) as nat)
                }
            },
        }
    }
}

/// Decode a whole stream: the raw first sample, then XOR-coded samples until
/// the sentinel.
pub open spec fn gorilla_decode(s: Seq<bool>) -> Seq<u64> {
    if s.len() < 64 {
        Seq::empty()
    } else {
        let v = field_val(s, 0, 64);
        if v == NAN {
            Seq::empty()
        } else {
            seq![v] + gorilla_decode_from(
                s,
                64,
                GorillaDec { curr: v, lead: 0, trail: 0 },
                s.len(),
            )
        }
    }
}

/// The decoder state that tracks an encoder state: it reconstructed the same
/// previous sample, and whenever the encoder's window is meaningful, the
/// decoder holds the same window.
pub open spec fn gorilla_mirror(est: GorillaEnc, dst: GorillaDec) -> bool {
    &&& dst.curr == est.prev
    &&& est.lead <= 63 ==> dst.lead == est.lead && dst.trail == est.trail
}

/// Every sample emits at least one bit.
pub proof fn lemma_gorilla_emit_min(st: GorillaEnc, x: u64)
    ensures
        gorilla_emit(st, x).len() >= 1,
{
}

/// One step keeps the encoder state well formed.
pub proof fn lemma_gorilla_step_wf(st: GorillaEnc, x: u64)
    requires
        gorilla_enc_wf(st),
    ensures
        gorilla_enc_wf(gorilla_step(st, x)),
        gorilla_step(st, x).prev == x,
        !gorilla_step(st, x).first,
{
    if !st.first && st.prev != x {
        lemma_xor_cancel(st.prev, x);
        lemma_lead_trail_sum(st.prev ^ x);
    }
}

/// The state after any run of samples is well formed; a nonempty run has
/// taken its first sample.
pub proof fn lemma_gorilla_run_wf(vals: Seq<u64>)
    ensures
        gorilla_enc_wf(gorilla_run(vals)),
        vals.len() == 0 ==> gorilla_run(vals) == gorilla_init(),
        vals.len() > 0 ==> !gorilla_run(vals).first && gorilla_run(vals).prev == vals.last(),
    decreases vals.len(),
{
    if vals.len() > 0 {
        lemma_gorilla_run_wf(vals.drop_last());
        lemma_gorilla_step_wf(gorilla_run(vals.drop_last()), vals.last());
    }
}

/// The run and the emitted bits over a prefix grow one sample at a time.
proof fn lemma_gorilla_take_unfold(vals: Seq<u64>, k: int)
    requires
        0 <= k < vals.len(),
    ensures
        gorilla_run(vals.take(k + 1)) == gorilla_step(gorilla_run(vals.take(k)), vals[k]),
        gorilla_encode_bits(vals.take(k + 1)) == gorilla_encode_bits(vals.take(k))
            + gorilla_emit(gorilla_run(vals.take(k)), vals[k]),
{
    assert(vals.take(k + 1).drop_last() =~= vals.take(k));
    assert(vals.take(k + 1).last() == vals[k]);
}

/// Sample `k`'s emission stands in the full encoding at the offset where the
/// first `k` samples end.
proof fn lemma_gorilla_encode_at(vals: Seq<u64>, k: int)
    requires
        0 <= k < vals.len(),
    ensures
        ({
            let p = gorilla_encode_bits(vals.take(k)).len() as int;
            let e = gorilla_emit(gorilla_run(vals.take(k)), vals[k]);
            &&& p + e.len() == gorilla_encode_bits(vals.take(k + 1)).len()
            &&& gorilla_encode_bits(vals.take(k + 1)).len() <= gorilla_encode_bits(vals).len()
            &&& gorilla_encode_bits(vals).subrange(p, p + e.len()) == e
        }),
    decreases vals.len(),
{
    lemma_gorilla_take_unfold(vals, k);
    let p = gorilla_encode_bits(vals.take(k)).len() as int;
    let e = gorilla_emit(gorilla_run(vals.take(k)), vals[k]);
    if k == vals.len() - 1 {
        assert(vals.take(k + 1) =~= vals);
        assert(gorilla_encode_bits(vals).subrange(p, p + e.len()) =~= e);
    } else {
        let prefix = vals.drop_last();
        lemma_gorilla_encode_at(prefix, k);
        assert(vals.take(k) =~= prefix.take(k));
        assert(vals.take(k + 1) =~= prefix.take(k + 1));
        assert(gorilla_encode_bits(vals) == gorilla_encode_bits(prefix) + gorilla_emit(
            gorilla_run(prefix),
            vals.last(),
        ));
        assert(gorilla_encode_bits(vals).subrange(p, p + e.len()) =~= gorilla_encode_bits(
            prefix,
        ).subrange(p, p + e.len()));
    }
}

/// The whole encoding is never shorter than the sample count.
proof fn lemma_gorilla_encode_min_len(vals: Seq<u64>)
    ensures
        gorilla_encode_bits(vals).len() >= vals.len(),
    decreases vals.len(),
{
    if vals.len() > 0 {
        lemma_gorilla_encode_min_len(vals.drop_last());
        lemma_gorilla_emit_min(gorilla_run(vals.drop_last()), vals.last());
    }
}

/// The step-inverse: wherever the bits one sample emitted stand in a stream,
/// a mirroring decoder parses exactly those bits, reconstructs exactly that
/// sample, and mirrors the stepped encoder.
proof fn lemma_gorilla_parse_emit(
    est: GorillaEnc,
    dst: GorillaDec,
    x: u64,
    s: Seq<bool>,
    pos: nat,
)
    requires
        !est.first,
        gorilla_enc_wf(est),
        gorilla_dec_wf(dst),
        gorilla_mirror(est, dst),
        pos + gorilla_emit(est, x).len() <= s.len(),
        s.subrange(pos as int, pos + gorilla_emit(est, x).len() as int) == gorilla_emit(est, x),
    ensures
        ({
            let e = gorilla_emit(est, x);
            let r = gorilla_parse(dst, s, pos);
            &&& r is Some
            &&& r->Some_0.1 == pos + e.len()
            &&& r->Some_0.0.curr == x
            &&& gorilla_dec_wf(r->Some_0.0)
            &&& gorilla_mirror(gorilla_step(est, x), r->Some_0.0)
        }),
{
    let e = gorilla_emit(est, x);
    let xor = est.prev ^ x;
    lemma_bit64_single();
    lemma_xor_cancel(est.prev, x);
    assert forall|j: int| 0 <= j < e.len() implies s[pos as int + j] == e[j] by {
        assert(s.subrange(pos as int, pos + e.len() as int)[j] == e[j]);
    }
    if xor == 0 {
        assert(s[pos as int] == bits_of(0, 1)[0]) by {
            assert(s[pos as int + 0] == e[0]);
        }
    } else {
        lemma_lead_trail_sum(xor);
        let l = u64_leading_zeros(xor) as nat;
        let t = u64_trailing_zeros(xor) as nat;
        assert(s[pos as int] == bits_of(1, 1)[0]) by {
            assert(s[pos as int + 0] == e[0]);
        }
        if est.lead <= l && est.trail <= t {
            let cb = (64 - est.lead - est.trail) as nat;
            let f = bits_of(xor >> (est.trail as u64), cb);
            assert(e == bits_of(1, 1) + bits_of(0, 1) + f);
            assert(s[pos as int + 1] == bits_of(0, 1)[0]) by {
                assert(s[pos as int + 1] == e[1]);
            }
            lemma_window_bound(xor, est.lead, est.trail);
            assert forall|j: int|
                0 <= j < cb implies s.subrange((pos + 2) as int, (pos + 2 + cb) as int)[j]
                == f[j] by {
                assert(s[pos as int + (2 + j)] == e[2 + j]);
                assert(e[2 + j] == f[j]);
            }
            assert(s.subrange((pos + 2) as int, (pos + 2 + cb) as int) =~= f);
            lemma_val_of_bits_of(xor >> (est.trail as u64), cb);
        } else {
            let cb = (64 - l - t) as nat;
            let f1 = bits_of(l as u64, 6);
            let f2 = bits_of((63 - l - t) as u64, 6);
            let f3 = bits_of(xor >> (t as u64), cb);
            assert(e == bits_of(1, 1) + bits_of(1, 1) + f1 + f2 + f3);
            assert(s[pos as int + 1] == bits_of(1, 1)[0]) by {
                assert(s[pos as int + 1] == e[1]);
            }
            assert forall|j: int|
                0 <= j < 6 implies s.subrange((pos + 2) as int, (pos + 8) as int)[j]
                == f1[j] by {
                assert(s[pos as int + (2 + j)] == e[2 + j]);
                assert(e[2 + j] == f1[j]);
            }
            assert(s.subrange((pos + 2) as int, (pos + 8) as int) =~= f1);
            assert forall|j: int|
                0 <= j < 6 implies s.subrange((pos + 8) as int, (pos + 14) as int)[j]
                == f2[j] by {
                assert(s[pos as int + (8 + j)] == e[8 + j]);
                assert(e[8 + j] == f2[j]);
            }
            assert(s.subrange((pos + 8) as int, (pos + 14) as int) =~= f2);
            lemma2_to64();
            lemma_val_of_bits_of(l as u64, 6);
            lemma_val_of_bits_of((63 - l - t) as u64, 6);
            lemma_window_bound(xor, l, t);
            assert forall|j: int|
                0 <= j < cb implies s.subrange((pos + 14) as int, (pos + 14 + cb) as int)[j]
                == f3[j] by {
                assert(s[pos as int + (14 + j)] == e[14 + j]);
                assert(e[14 + j] == f3[j]);
            }
            assert(s.subrange((pos + 14) as int, (pos + 14 + cb) as int) =~= f3);
            lemma_val_of_bits_of(xor >> (t as u64), cb);
        }
    }
}

/// Decoding from the end of the first `k` samples, in a state that mirrors
/// the encoder there, yields exactly the remaining samples.
#[verifier::rlimit(30)]
proof fn lemma_gorilla_decode_suffix(
    vals: Seq<u64>,
    k: int,
    s: Seq<bool>,
    dst: GorillaDec,
    fuel: nat,
)
    requires
        forall|i: int| 0 <= i < vals.len() ==> vals[i] != NAN,
        1 <= k <= vals.len(),
        gorilla_stream_bits(vals).len() <= s.len(),
        s.subrange(0, gorilla_stream_bits(vals).len() as int) == gorilla_stream_bits(vals),
        gorilla_mirror(gorilla_run(vals.take(k)), dst),
        gorilla_dec_wf(dst),
        fuel >= vals.len() - k + 1,
    ensures
        gorilla_decode_from(s, gorilla_encode_bits(vals.take(k)).len(), dst, fuel)
            == vals.skip(k),
    decreases vals.len() - k,
{
    let full = gorilla_stream_bits(vals);
    let pos = gorilla_encode_bits(vals.take(k)).len();
    assert(forall|j: int| 0 <= j < full.len() ==> s[j] == full[j]) by {
        assert(forall|j: int| 0 <= j < full.len() ==> s.subrange(0, full.len() as int)[j]
            == full[j]);
    }
    lemma_gorilla_run_wf(vals.take(k));
    if k == vals.len() {
        assert(vals.take(k) =~= vals);
        let e = gorilla_emit(gorilla_run(vals), NAN);
        assert(s.subrange(pos as int, pos + e.len() as int) =~= e) by {
            assert(forall|j: int|
                0 <= j < e.len() ==> full[pos + j] == e[j] && s[pos as int + j] == full[pos + j]);
        }
        lemma_gorilla_parse_emit(gorilla_run(vals), dst, NAN, s, pos);
        assert(gorilla_decode_from(s, pos, dst, fuel) =~= vals.skip(k));
    } else {
        let est = gorilla_run(vals.take(k));
        let x = vals[k];
        let e = gorilla_emit(est, x);
        lemma_gorilla_encode_at(vals, k);
        lemma_gorilla_take_unfold(vals, k);
        assert(s.subrange(pos as int, pos + e.len() as int) =~= e) by {
            assert(gorilla_encode_bits(vals).subrange(pos as int, pos + e.len() as int) == e);
            assert(forall|j: int| 0 <= j < gorilla_encode_bits(vals).len() ==> full[j]
                == gorilla_encode_bits(vals)[j]);
            assert(forall|j: int|
                0 <= j < e.len() ==> s[pos as int + j] == full[pos + j] && full[pos + j] == e[j]);
        }
        lemma_gorilla_parse_emit(est, dst, x, s, pos);
        let sp = gorilla_parse(dst, s, pos)->Some_0;
        lemma_gorilla_decode_suffix(vals, k + 1, s, sp.0, (fuel - 1) as nat);
        assert(gorilla_decode_from(s, pos, dst, fuel) =~= vals.skip(k));
    }
}

/// The Gorilla round-trip law: for any finite sequence of samples free of
/// the sentinel pattern, decoding any stream that begins with the closed
/// encoding yields exactly that sequence.
pub proof fn lemma_gorilla_round_trip(vals: Seq<u64>, s: Seq<bool>)
    requires
        forall|i: int| 0 <= i < vals.len() ==> vals[i] != NAN,
        gorilla_stream_bits(vals).len() <= s.len(),
        s.subrange(0, gorilla_stream_bits(vals).len() as int) == gorilla_stream_bits(vals),
    ensures
        gorilla_decode(s) == vals,
{
    let full = gorilla_stream_bits(vals);
    lemma2_to64_rest();
    assert(forall|j: int| 0 <= j < full.len() ==> s[j] == full[j]) by {
        assert(forall|j: int| 0 <= j < full.len() ==> s.subrange(0, full.len() as int)[j]
            == full[j]);
    }
    if vals.len() == 0 {
        assert(full == bits_of(NAN, 64) + bits_of(0, 1));
        assert(s.subrange(0, 64) =~= bits_of(NAN, 64));
        lemma_val_of_bits_of(NAN, 64);
        assert(gorilla_decode(s) =~= vals);
    } else {
        lemma_gorilla_take_unfold(vals, 0);
        assert(vals.take(0) =~= Seq::<u64>::empty());
        assert(gorilla_encode_bits(vals.take(1)) == gorilla_emit(gorilla_init(), vals[0]));
        lemma_gorilla_encode_at(vals, 0);
        lemma_gorilla_encode_min_len(vals);
        assert(s.subrange(0, 64) =~= bits_of(vals[0], 64)) by {
            assert(gorilla_encode_bits(vals).subrange(0, 64) == bits_of(vals[0], 64));
        }
        lemma_val_of_bits_of(vals[0], 64);
        assert(field_val(s, 0, 64) == vals[0]);
        let dst0 = GorillaDec { curr: vals[0], lead: 0, trail: 0 };
        lemma_gorilla_decode_suffix(vals, 1, s, dst0, s.len());
        assert(gorilla_encode_bits(vals.take(1)).len() == 64);
        assert(gorilla_decode(s) =~= vals) by {
            assert(gorilla_decode_from(s, 64, dst0, s.len()) == vals.skip(1));
        }
    }
}

/// A repeated sample costs a single zero bit.
pub proof fn lemma_gorilla_repeat(st: GorillaEnc, x: u64)
    requires
        !st.first,
        st.prev == x,
    ensures
        gorilla_emit(st, x) == bits_of(0, 1),
{
    lemma_xor_cancel(st.prev, x);
}

/// A single sample: the closed stream is the raw 64 sample bits followed by
/// the sentinel framing, and decoding yields exactly that sample.
pub proof fn lemma_gorilla_single_sample(x: u64, s: Seq<bool>)
    requires
        x != NAN,
        gorilla_stream_bits(seq![x]).len() <= s.len(),
        s.subrange(0, gorilla_stream_bits(seq![x]).len() as int) == gorilla_stream_bits(
            seq![x],
        ),
    ensures
        gorilla_stream_bits(seq![x]) == bits_of(x, 64) + gorilla_emit(
            gorilla_run(seq![x]),
            NAN,
        ) + bits_of(0, 1),
        gorilla_decode(s) == seq![x],
{
    let v1 = seq![x];
    assert(v1.len() == 1 && v1.drop_last() =~= Seq::<u64>::empty() && v1.last() == x);
    assert(gorilla_run(v1.drop_last()) == gorilla_init());
    assert(gorilla_encode_bits(v1.drop_last()) == Seq::<bool>::empty());
    assert(gorilla_encode_bits(v1) == gorilla_encode_bits(v1.drop_last()) + gorilla_emit(gorilla_init(), x));
    assert(gorilla_encode_bits(v1) =~= bits_of(x, 64));
    lemma_gorilla_round_trip(seq![x], s);
}

/// The round trip stated on what `close` hands over: a word buffer holding
/// the closed stream plus zero padding decodes to exactly the encoded
/// samples.
pub proof fn lemma_gorilla_closed_decode(vals: Seq<u64>, words: Seq<u64>, pad: nat)
    requires
        forall|i: int| 0 <= i < vals.len() ==> vals[i] != NAN,
        words_bits(words) == gorilla_stream_bits(vals) + zero_bits(pad),
    ensures
        gorilla_decode(words_bits(words)) == vals,
{
    let full = gorilla_stream_bits(vals);
    let s = words_bits(words);
    assert(s.subrange(0, full.len() as int) =~= full);
    lemma_gorilla_round_trip(vals, s);
}

/// The exact cost of a constant run: 64 raw bits, then one bit per repeat.
proof fn lemma_gorilla_constant_len(x: u64, n: nat)
    requires
        1 <= n,
    ensures
        gorilla_encode_bits(Seq::new(n, |j: int| x)).len() == 64 + (n - 1),
    decreases n,
{
    let c = Seq::new(n, |j: int| x);
    assert(c[n as int - 1] == x);
    assert(c.last() == x);
    if n == 1 {
        assert(c.drop_last() =~= Seq::<u64>::empty());
        assert(gorilla_encode_bits(c) == gorilla_emit(gorilla_init(), x));
    } else {
        assert(c.drop_last() =~= Seq::new((n - 1) as nat, |j: int| x));
        assert(c.drop_last()[n as int - 2] == c[n as int - 2] && c[n as int - 2] == x);
        assert(c.drop_last().last() == x);
        lemma_gorilla_constant_len(x, (n - 1) as nat);
        lemma_gorilla_run_wf(c.drop_last());
        lemma_gorilla_repeat(gorilla_run(c.drop_last()), x);
        assert(gorilla_encode_bits(c) == gorilla_encode_bits(c.drop_last()) + gorilla_emit(
            gorilla_run(c.drop_last()),
            x,
        ));
    }
}

/// Compression on a constant run: from four samples on, the closed stream is
/// strictly smaller than raw 64-bit storage. With close's bound
/// `64 * words < stream + 64`, the closed buffer stays below `64 * n` bits.
pub proof fn lemma_gorilla_constant_run_compresses(x: u64, n: nat)
    requires
        4 <= n,
    ensures
        gorilla_stream_bits(Seq::new(n, |j: int| x)).len() + 64 <= 64 * n,
{
    let c = Seq::new(n, |j: int| x);
    lemma_gorilla_constant_len(x, n);
    lemma_gorilla_run_wf(c);
    lemma_gorilla_emit_len(gorilla_run(c), NAN);
}

} // verus!
