//! The Patas double codec: a byte-aligned XOR codec. Each sample carries a
//! 16-bit packed descriptor (ring index, significant byte count, trailing
//! zeros) and, for a nonzero XOR, its significant bytes. It shares the
//! 128-slot ring and low-14-bit index table with Chimp-128.

use crate::bits::{
    bits_of, field_val, lemma_lead_trail_sum, lemma_val_of_bits_of, lemma_val_of_bound,
    lemma_window_bound, lemma_xor_cancel, words_bits, zero_bits,
};
use crate::bitstream::{Error, InputBitStream, OutputBitStream};
use crate::chimpn::LSB_MASK;
use crate::{Decode, NAN};
use vstd::arithmetic::power2::*;
use vstd::prelude::*;
use vstd::std_specs::bits::{u64_leading_zeros, u64_trailing_zeros};

verus! {

/// The abstract per-sample state of the Patas encoder.
pub struct PatasEnc {
    pub first: bool,
    /// Slot `i % 128` holds the sample with absolute index `i`.
    pub ring: Seq<u64>,
    /// Keyed by low 14 bits: the absolute index at which a sample with those
    /// bits was last stored, or `u64::MAX` for never.
    pub indices: Seq<u64>,
    /// Absolute index of the most recent sample.
    pub idx: nat,
}

pub open spec fn patas_enc_wf(st: PatasEnc) -> bool {
    &&& st.ring.len() == 128
    &&& st.indices.len() == 16384
    &&& st.idx < u64::MAX
    &&& st.first ==> st.idx == 0
}

pub open spec fn patas_init() -> PatasEnc {
    PatasEnc {
        first: true,
        ring: Seq::new(128, |j: int| 0u64),
        indices: Seq::new(16384, |j: int| u64::MAX),
        idx: 0,
    }
}

/// The ring slot a sample is XORed against: the most recent sample sharing
/// its low 14 bits if it is still in the ring, else the previous sample.
pub open spec fn patas_ref(st: PatasEnc, x: u64) -> nat {
    let li = st.indices[(x & LSB_MASK) as int];
    if st.idx < li || st.idx - li >= 128 {
        st.idx % 128
    } else {
        li as nat % 128
    }
}

/// The significant bit count of a sample's XOR against its reference.
pub open spec fn patas_sig_bits(xor: u64) -> nat {
    if xor == 0 {
        1
    } else {
        (64 - u64_trailing_zeros(xor) - u64_leading_zeros(xor)) as nat
    }
}

/// The bits one sample appends to the stream.
pub open spec fn patas_emit(st: PatasEnc, x: u64) -> Seq<bool> {
    if st.first {
        bits_of(x, 64)
    } else {
        let pi = patas_ref(st, x);
        let xor = st.ring[pi as int] ^ x;
        let t = u64_trailing_zeros(xor) as nat;
        let sb = (patas_sig_bits(xor) + 7) / 8;
        let packed = ((pi as u64) << 9u64) | ((((sb - 1) as u64) & 7) << 6u64) | ((t as u64)
            & 0x3F);
        if xor == 0 {
            bits_of(packed, 16)
        } else {
            bits_of(packed, 16) + bits_of(xor >> (t as u64), (sb * 8) as nat)
        }
    }
}

/// How one sample advances the encoder state.
pub open spec fn patas_step(st: PatasEnc, x: u64) -> PatasEnc {
    if st.first {
        PatasEnc {
            first: false,
            ring: st.ring.update(0, x),
            indices: st.indices.update((x & LSB_MASK) as int, 0),
            idx: 0,
        }
    } else {
        PatasEnc {
            first: false,
            ring: st.ring.update(((st.idx + 1) % 128) as int, x),
            indices: st.indices.update((x & LSB_MASK) as int, (st.idx + 1) as u64),
            idx: st.idx + 1,
        }
    }
}

/// The encoder state after a whole sequence of samples.
pub open spec fn patas_run(vals: Seq<u64>) -> PatasEnc
    decreases vals.len(),
{
    if vals.len() == 0 {
        patas_init()
    } else {
        patas_step(patas_run(vals.drop_last()), vals.last())
    }
}

/// The bits a whole sequence of samples appends.
pub open spec fn patas_encode_bits(vals: Seq<u64>) -> Seq<bool>
    decreases vals.len(),
{
    if vals.len() == 0 {
        Seq::empty()
    } else {
        patas_encode_bits(vals.drop_last()) + patas_emit(
            patas_run(vals.drop_last()),
            vals.last(),
        )
    }
}

/// The full stream a closed encoder leaves, before word padding: every
/// sample, the reserved end-of-stream descriptor, and one padding zero bit.
pub open spec fn patas_stream_bits(vals: Seq<u64>) -> Seq<bool> {
    patas_encode_bits(vals) + bits_of(0xFFFF, 16) + bits_of(0, 1)
}

/// Unpacking the 16-bit descriptor recovers its three parts, and the
/// descriptor is the reserved end marker only in the one reserved shape.
proof fn lemma_patas_pack(pi: u64, sbc: u64, tr: u64)
    requires
        pi < 128,
        sbc < 8,
        tr < 64,
    ensures
        ({
            let packed = (pi << 9u64) | (sbc << 6u64) | tr;
            &&& packed < 0x10000
            &&& (packed >> 9u64) == pi
            &&& ((packed >> 6u64) & 7) == sbc
            &&& (packed & 0x3F) == tr
            &&& (packed == 0xFFFF <==> pi == 127 && sbc == 7 && tr == 63)
        }),
{
    let packed = (pi << 9u64) | (sbc << 6u64) | tr;
    assert(packed < 0x10000 && (packed >> 9u64) == pi && ((packed >> 6u64) & 7) == sbc && (
    packed & 0x3F) == tr && (packed == 0xFFFF <==> pi == 127 && sbc == 7 && tr == 63))
        by (bit_vector)
        requires
            packed == (pi << 9u64) | (sbc << 6u64) | tr,
            pi < 128,
            sbc < 8,
            tr < 64,
    ;
}

proof fn lemma_lsb_mask(x: u64)
    ensures
        (x & LSB_MASK) < 16384,
{
    assert((x & 0x3FFF) < 16384) by (bit_vector);
}

/// The significant bits of a XOR fit in its significant bytes.
proof fn lemma_sig_bytes(b: nat)
    requires
        1 <= b <= 64,
    ensures
        1 <= (b + 7) / 8 <= 8,
        b <= 8 * ((b + 7) / 8),
{
    assert(1 <= (b + 7) / 8 <= 8 && b <= 8 * ((b + 7) / 8)) by (nonlinear_arith)
        requires
            1 <= b <= 64,
    ;
}

#[derive(Debug)]
pub struct Encoder {
    first: bool,
    w: OutputBitStream,
    curr_idx: usize,
    index: u64,
    stored_vals: Vec<u64>,
    indices: Vec<u64>,
}

impl Encoder {
    /// The abstract encoder state the fields hold.
    pub closed spec fn model(&self) -> PatasEnc {
        PatasEnc {
            first: self.first,
            ring: self.stored_vals@,
            indices: self.indices@,
            idx: self.index as nat,
        }
    }

    /// The bits written so far.
    pub closed spec fn stream(&self) -> Seq<bool> {
        self.w@
    }

    pub closed spec fn wf(&self) -> bool {
        &&& self.w.wf()
        &&& patas_enc_wf(self.model())
        &&& self.curr_idx == self.index as nat % 128
    }

    pub fn new() -> (r: Encoder)
        ensures
            r.wf(),
            r.stream() == Seq::<bool>::empty(),
            r.model() == patas_init(),
    {
        let r = Encoder {
            first: true,
            stored_vals: vec![0u64; 128],
            indices: vec![u64::MAX; 16384],
            curr_idx: 0,
            index: 0,
            w: OutputBitStream::new(),
        };
        proof {
            assert(r.model().ring =~= patas_init().ring);
            assert(r.model().indices =~= patas_init().indices);
        }
        r
    }

    /// Like `new`, with room for `capa` words reserved up front.
    pub fn with_capacity(capa: usize) -> (r: Encoder)
        ensures
            r.wf(),
            r.stream() == Seq::<bool>::empty(),
            r.model() == patas_init(),
    {
        let r = Encoder {
            first: true,
            stored_vals: vec![0u64; 128],
            indices: vec![u64::MAX; 16384],
            curr_idx: 0,
            index: 0,
            w: OutputBitStream::with_capacity(capa),
        };
        proof {
            assert(r.model().ring =~= patas_init().ring);
            assert(r.model().indices =~= patas_init().indices);
        }
        r
    }

    fn insert_first(&mut self, value: u64)
        requires
            old(self).wf(),
            old(self).model().first,
        ensures
            final(self).wf(),
            final(self).stream() == old(self).stream() + patas_emit(old(self).model(), value),
            final(self).model() == patas_step(old(self).model(), value),
    {
        proof {
            lemma_lsb_mask(value);
            lemma2_to64_rest();
        }
        self.stored_vals.set(0, value);
        self.indices.set((value & LSB_MASK) as usize, 0);
        self.first = false;
        self.w.write_bits(value, 64);
    }

    fn insert_value(&mut self, value: u64)
        requires
            old(self).wf(),
            !old(self).model().first,
            old(self).model().idx + 1 < u64::MAX,
        ensures
            final(self).wf(),
            final(self).stream() == old(self).stream() + patas_emit(old(self).model(), value),
            final(self).model() == patas_step(old(self).model(), value),
    {
        let ghost st = self.model();
        proof {
            lemma_lsb_mask(value);
        }
        let mut lsb_index = self.indices[(value & LSB_MASK) as usize];
        if self.index < lsb_index || self.index - lsb_index >= 128 {
            lsb_index = self.index;
        }
        let li = (lsb_index % 128) as usize;
        proof {
            assert(li == patas_ref(st, value));
        }
        let ref_value = self.stored_vals[li];
        let xor = ref_value ^ value;
        let trail = xor.trailing_zeros();
        let lead = xor.leading_zeros();
        proof {
            if xor != 0 {
                lemma_lead_trail_sum(xor);
            } else {
                vstd::std_specs::bits::axiom_u64_trailing_zeros(xor);
            }
        }
        let sig_bits: u32 = if xor == 0 {
            1
        } else {
            64 - trail - lead
        };
        let sig_bytes: u32 = (sig_bits + 7) / 8;
        proof {
            lemma_sig_bytes(sig_bits as nat);
        }
        let packed: u64 = ((li as u64) << 9) | ((((sig_bytes - 1) as u64) & 7) << 6) | ((
        trail as u64) & 0x3F);
        proof {
            let tru = trail as u64;
            assert((tru & 0x3F) < 64 && (tru <= 63 ==> (tru & 0x3F) == tru) && (tru == 64
                ==> (tru & 0x3F) == 0)) by (bit_vector);
            let sbc = (sig_bytes - 1) as u64;
            assert(sbc < 8 ==> (sbc & 7) == sbc) by (bit_vector);
            lemma_patas_pack(li as u64, sbc & 7, tru & 0x3F);
            lemma_pow2_adds(8, 8);
            lemma2_to64();
            assert(pow2(16) == 0x10000);
        }
        self.w.write_bits(packed, 16);
        if xor != 0 {
            proof {
                lemma_window_bound(
                    xor,
                    u64_leading_zeros(xor) as nat,
                    u64_trailing_zeros(xor) as nat,
                );
                if (sig_bits as nat) < 8 * ((sig_bits + 7) as nat / 8) {
                    lemma_pow2_strictly_increases(
                        sig_bits as nat,
                        (8 * ((sig_bits + 7) as nat / 8)) as nat,
                    );
                }
            }
            self.w.write_bits(xor >> trail, sig_bytes * 8);
            proof {
                assert(self.w@ =~= old(self).w@ + patas_emit(st, value));
            }
        } else {
            proof {
                assert(self.w@ =~= old(self).w@ + patas_emit(st, value));
            }
        }
        self.curr_idx = (self.curr_idx + 1) % 128;
        self.stored_vals.set(self.curr_idx, value);
        self.index = self.index + 1;
        self.indices.set((value & LSB_MASK) as usize, self.index);
        proof {
            vstd::arithmetic::div_mod::lemma_add_mod_noop(st.idx as int, 1int, 128int);
            assert(self.curr_idx == (st.idx + 1) % 128);
            assert(self.model().ring =~= patas_step(st, value).ring);
            assert(self.model().indices =~= patas_step(st, value).indices);
        }
    }

    /// Encode one sample; the first sample is written raw.
    pub fn encode(&mut self, value: u64)
        requires
            old(self).wf(),
            old(self).model().idx + 1 < u64::MAX,
        ensures
            final(self).wf(),
            final(self).stream() == old(self).stream() + patas_emit(old(self).model(), value),
            final(self).model() == patas_step(old(self).model(), value),
    {
        if self.first {
            self.insert_first(value);
        } else {
            self.insert_value(value);
        }
    }

    /// Encode a whole sequence of samples.
    pub fn encode_vec(values: &Vec<u64>) -> (r: Encoder)
        requires
            values@.len() + 1 < u64::MAX,
        ensures
            r.wf(),
            r.stream() == patas_encode_bits(values@),
            r.model() == patas_run(values@),
    {
        let mut enc = Encoder::with_capacity(values.len() / 2);
        proof {
            assert(values@.take(0) =~= Seq::<u64>::empty());
            assert(enc.stream() =~= patas_encode_bits(values@.take(0)));
        }
        let n = values.len();
        for i in 0..n
            invariant
                n == values@.len(),
                n + 1 < u64::MAX,
                enc.wf(),
                enc.model().idx <= i,
                enc.stream() == patas_encode_bits(values@.take(i as int)),
                enc.model() == patas_run(values@.take(i as int)),
        {
            enc.encode(values[i]);
            proof {
                assert(values@.take(i + 1).drop_last() =~= values@.take(i as int));
                assert(values@.take(i + 1).last() == values@[i as int]);
            }
        }
        proof {
            assert(values@.take(n as int) =~= values@);
        }
        enc
    }

    /// Close the stream: write the reserved end descriptor, one padding zero
    /// bit, flush, and hand over the word buffer and the exact count of bits
    /// written.
    pub fn close(self) -> (r: (Vec<u64>, u64))
        requires
            self.wf(),
            self.stream().len() + 100 <= u64::MAX,
        ensures
            ({
                let full = self.stream() + bits_of(0xFFFF, 16) + bits_of(0, 1);
                &&& words_bits(r.0@) == full + zero_bits((64 * r.0@.len() - full.len()) as nat)
                &&& full.len() <= 64 * r.0@.len() < full.len() + 64
                &&& r.1 == full.len()
            }),
    {
        let mut this = self;
        proof {
            lemma_pow2_adds(8, 8);
            lemma2_to64();
            assert(pow2(16) == 0x10000);
        }
        this.w.write_bits(0xFFFF, 16);
        this.w.write_bit(0);
        proof {
            crate::bits::lemma_bit_and_one();
        }
        let size = this.w.bit_count();
        (this.w.close(), size)
    }
}

/// The abstract per-sample state of the Patas decoder.
pub struct PatasDec {
    pub curr: u64,
    pub ring: Seq<u64>,
    pub idx: nat,
}

pub open spec fn patas_dec_wf(st: PatasDec) -> bool {
    &&& st.ring.len() == 128
    &&& st.idx < 128
}

/// The ring advance every decoded sample performs.
pub open spec fn patas_dec_advance(st: PatasDec, c2: u64) -> PatasDec {
    PatasDec {
        curr: c2,
        ring: st.ring.update(((st.idx + 1) % 128) as int, c2),
        idx: (st.idx + 1) % 128,
    }
}

/// Parse one sample at bit position `pos` of `s`: the decoder's step
/// function. `None` is end-of-stream; the reserved descriptor reconstructs
/// the sentinel without advancing the ring.
pub open spec fn patas_parse(st: PatasDec, s: Seq<bool>, pos: nat) -> Option<(PatasDec, nat)> {
    if pos + 16 > s.len() {
        None
    } else {
        let packed = field_val(s, pos, 16);
        let li = (packed >> 9u64) as int;
        let sb = ((packed >> 6u64) & 7) + 1;
        let tr = packed & 0x3F;
        if packed == 0xFFFF {
            Some(
                (
                    PatasDec { curr: NAN, ring: st.ring, idx: st.idx },
                    (pos + 16) as nat,
                ),
            )
        } else if sb == 1 && tr == 0 {
            Some((patas_dec_advance(st, st.ring[li]), (pos + 16) as nat))
        } else {
            if pos + 16 + sb * 8 > s.len() {
                None
            } else {
                let xr = field_val(s, (pos + 16) as nat, (sb * 8) as nat);
                let c2 = st.ring[li] ^ (xr << (tr as u64));
                Some((patas_dec_advance(st, c2), (pos + 16 + sb * 8) as nat))
            }
        }
    }
}

#[derive(Debug)]
pub struct Decoder {
    first: bool,
    done: bool,
    stored_vals: Vec<u64>,
    curr: u64,
    curr_idx: usize,
    r: InputBitStream,
}

impl Decoder {
    /// The abstract decoder state the fields hold.
    pub closed spec fn dec(&self) -> PatasDec {
        PatasDec { curr: self.curr, ring: self.stored_vals@, idx: self.curr_idx as nat }
    }

    pub closed spec fn first_state(&self) -> bool {
        self.first
    }

    pub closed spec fn done_state(&self) -> bool {
        self.done
    }

    pub closed spec fn bits(&self) -> Seq<bool> {
        self.r.bits()
    }

    pub closed spec fn consumed(&self) -> nat {
        self.r.consumed()
    }

    pub closed spec fn wf(&self) -> bool {
        &&& self.r.wf()
        &&& patas_dec_wf(self.dec())
    }

    pub fn new(read: InputBitStream) -> (r: Decoder)
        requires
            read.wf(),
        ensures
            r.wf(),
            r.bits() == read.bits(),
            r.consumed() == read.consumed(),
            r.first_state(),
            !r.done_state(),
            r.dec() == (PatasDec {
                curr: 0u64,
                ring: Seq::new(128, |j: int| 0u64),
                idx: 0 as nat,
            }),
    {
        let d = Decoder {
            first: true,
            done: false,
            stored_vals: vec![0u64; 128],
            curr: 0,
            curr_idx: 0,
            r: read,
        };
        proof {
            assert(d.dec().ring =~= Seq::new(128, |j: int| 0u64));
        }
        d
    }

    /// Read the raw first sample and seed the ring with it.
    fn get_first(&mut self) -> (r: Result<(), Error>)
        requires
            old(self).wf(),
        ensures
            final(self).wf(),
            final(self).bits() == old(self).bits(),
            final(self).first_state() == old(self).first_state(),
            final(self).done_state() == old(self).done_state(),
            old(self).consumed() + 64 <= old(self).bits().len() ==> ({
                let v = field_val(old(self).bits(), old(self).consumed(), 64);
                &&& r == Ok::<(), Error>(())
                &&& final(self).dec() == (PatasDec {
                    curr: v,
                    ring: old(self).dec().ring.update(old(self).dec().idx as int, v),
                    idx: old(self).dec().idx,
                })
                &&& final(self).consumed() == old(self).consumed() + 64
            }),
            old(self).consumed() + 64 > old(self).bits().len() ==> r == Err::<(), Error>(
                Error::EOF,
            ),
    {
        let v = match self.r.read_bits(64) {
            Ok(v) => v,
            Err(e) => {
                return Err(e);
            },
        };
        self.curr = v;
        self.stored_vals.set(self.curr_idx, v);
        Ok(())
    }

    /// Decode one non-first sample: the exact inverse of one parse step.
    fn get_value(&mut self) -> (r: Result<(), Error>)
        requires
            old(self).wf(),
        ensures
            final(self).wf(),
            final(self).bits() == old(self).bits(),
            final(self).first_state() == old(self).first_state(),
            final(self).done_state() == old(self).done_state(),
            match patas_parse(old(self).dec(), old(self).bits(), old(self).consumed()) {
                Some(sp) => {
                    &&& r == Ok::<(), Error>(())
                    &&& final(self).dec() == sp.0
                    &&& final(self).consumed() == sp.1
                },
                None => r == Err::<(), Error>(Error::EOF),
            },
    {
        let ghost s = self.bits();
        let ghost pos = self.consumed();
        let ghost st = self.dec();
        let packed = match self.r.read_bits(16) {
            Ok(v) => v,
            Err(e) => {
                return Err(e);
            },
        };
        proof {
            lemma_val_of_bound(s.subrange(pos as int, (pos + 16) as int));
            lemma_pow2_adds(8, 8);
            lemma2_to64();
            assert(pow2(16) == 0x10000);
            assert(packed < 0x10000 ==> (packed >> 9u64) < 128 && ((packed >> 6u64) & 7) < 8
                && (packed & 0x3F) < 64) by (bit_vector);
        }
        let lsb_index = (packed >> 9) as usize;
        let sig_bytes = (((packed >> 6) & 7) + 1) as u32;
        let trail = (packed & 0x3F) as u32;
        if packed == 0xFFFF {
            self.curr = NAN;
            return Ok(());
        }
        if sig_bytes == 1 && trail == 0 {
            self.curr = self.stored_vals[lsb_index];
        } else {
            let ref_value = self.stored_vals[lsb_index];
            let xor = match self.r.read_bits(sig_bytes * 8) {
                Ok(v) => v,
                Err(e) => {
                    return Err(e);
                },
            };
            self.curr = ref_value ^ (xor << trail);
        }
        self.curr_idx = (self.curr_idx + 1) % 128;
        self.stored_vals.set(self.curr_idx, self.curr);
        proof {
            let sp = patas_parse(st, s, pos)->Some_0;
            assert(self.dec().ring =~= sp.0.ring);
        }
        Ok(())
    }

    /// Pull the next sample. After the end descriptor, a truncated stream,
    /// or an earlier end, every call returns `EOF`.
    fn get_next(&mut self) -> (r: Result<u64, Error>)
        requires
            old(self).wf(),
        ensures
            final(self).wf(),
            final(self).bits() == old(self).bits(),
            old(self).done_state() ==> r == Err::<u64, Error>(Error::EOF) && *final(self)
                == *old(self),
            r is Err ==> final(self).done_state(),
            !old(self).done_state() && old(self).first_state() && old(self).consumed() + 64
                <= old(self).bits().len() ==> ({
                let v = field_val(old(self).bits(), old(self).consumed(), 64);
                &&& !final(self).first_state()
                &&& final(self).dec() == (PatasDec {
                    curr: v,
                    ring: old(self).dec().ring.update(old(self).dec().idx as int, v),
                    idx: old(self).dec().idx,
                })
                &&& final(self).consumed() == old(self).consumed() + 64
                &&& v == NAN ==> r == Err::<u64, Error>(Error::EOF) && final(self).done_state()
                &&& v != NAN ==> r == Ok::<u64, Error>(v) && !final(self).done_state()
            }),
            !old(self).done_state() && old(self).first_state() && old(self).consumed() + 64
                > old(self).bits().len() ==> r == Err::<u64, Error>(Error::EOF) && final(self).done_state(),
            !old(self).done_state() && !old(self).first_state() ==> ({
                match patas_parse(old(self).dec(), old(self).bits(), old(self).consumed()) {
                    Some(sp) => {
                        &&& !final(self).first_state()
                        &&& final(self).dec() == sp.0
                        &&& final(self).consumed() == sp.1
                        &&& sp.0.curr == NAN ==> r == Err::<u64, Error>(Error::EOF) && final(self).done_state()
                        &&& sp.0.curr != NAN ==> r == Ok::<u64, Error>(sp.0.curr) && !final(self).done_state()
                    },
                    None => r == Err::<u64, Error>(Error::EOF) && final(self).done_state(),
                }
            }),
    {
        if self.done {
            return Err(Error::EOF);
        }
        if self.first {
            match self.get_first() {
                Ok(v) => v,
                Err(e) => {
                    self.done = true;
                    return Err(e);
                },
            };
            self.first = false;
        } else {
            match self.get_value() {
                Ok(v) => v,
                Err(e) => {
                    self.done = true;
                    return Err(e);
                },
            };
        }
        if self.curr == NAN {
            self.done = true;
            Err(Error::EOF)
        } else {
            Ok(self.curr)
        }
    }
}

impl Decode for Decoder {
    closed spec fn inv(&self) -> bool {
        self.wf()
    }

    closed spec fn next_value(&self) -> Option<u64> {
        if self.done_state() {
            None
        } else if self.first_state() {
            if self.consumed() + 64 <= self.bits().len() {
                let v = field_val(self.bits(), self.consumed(), 64);
                if v == NAN {
                    None
                } else {
                    Some(v)
                }
            } else {
                None
            }
        } else {
            match patas_parse(self.dec(), self.bits(), self.consumed()) {
                Some(sp) => if sp.0.curr == NAN {
                    None
                } else {
                    Some(sp.0.curr)
                },
                None => None,
            }
        }
    }

    fn get_next(&mut self) -> (r: Result<u64, Error>) {
        self.get_next()
    }
}

/// Decode samples from `pos` until the end descriptor, the end of the
/// stream, or exhausted fuel.
pub open spec fn patas_decode_from(s: Seq<bool>, pos: nat, st: PatasDec, fuel: nat) -> Seq<u64>
    decreases fuel,
{
    if fuel == 0 {
        Seq::empty()
    } else {
        match patas_parse(st, s, pos) {
            None => Seq::empty(),
            Some(sp) => {
                if sp.0.curr == NAN {
                    Seq::empty()
                } else {
                    seq![sp.0.curr] + patas_decode_from(s, sp.1, sp.0, (fuel - 1) as nat)
                }
            },
        }
    }
}

/// Decode a whole stream: the raw first sample seeds the ring, then
/// descriptor-coded samples follow until the end descriptor.
pub open spec fn patas_decode(s: Seq<bool>) -> Seq<u64> {
    if s.len() < 64 {
        Seq::empty()
    } else {
        let v = field_val(s, 0, 64);
        if v == NAN {
            Seq::empty()
        } else {
            seq![v] + patas_decode_from(
                s,
                64,
                PatasDec { curr: v, ring: Seq::new(128, |j: int| 0u64).update(0, v), idx: 0 },
                s.len(),
            )
        }
    }
}

/// A sample's descriptor is decodable: its XOR against the chosen reference
/// is zero, or it does not collapse to the one descriptor shape
/// (`sig_bytes == 1` with `trail == 0`) that the wire format reserves for a
/// zero XOR. A nonzero XOR below 256 with its lowest bit set is the one kind
/// of step the format cannot carry.
pub open spec fn patas_step_ok(st: PatasEnc, x: u64) -> bool {
    st.first || ({
        let xor = st.ring[patas_ref(st, x) as int] ^ x;
        ||| xor == 0
        ||| !((patas_sig_bits(xor) + 7) / 8 == 1 && u64_trailing_zeros(xor) == 0)
    })
}

/// Every step of a sequence is decodable.
pub open spec fn patas_friendly(vals: Seq<u64>) -> bool {
    forall|k: int|
        0 <= k < vals.len() ==> patas_step_ok(patas_run(#[trigger] vals.take(k)), vals[k])
}

/// The decoder state that tracks an encoder state: the rings hold the same
/// samples and the mod-128 positions agree.
pub open spec fn patas_mirror(est: PatasEnc, dst: PatasDec) -> bool {
    &&& dst.ring == est.ring
    &&& dst.idx == est.idx % 128
}

pub proof fn lemma_patas_emit_min(st: PatasEnc, x: u64)
    ensures
        patas_emit(st, x).len() >= 1,
{
}

/// One step keeps the encoder state well formed.
pub proof fn lemma_patas_step_wf(st: PatasEnc, x: u64)
    requires
        patas_enc_wf(st),
        st.idx + 1 < u64::MAX,
    ensures
        patas_enc_wf(patas_step(st, x)),
        !patas_step(st, x).first,
{
    lemma_lsb_mask(x);
    if !st.first {
        assert(0 <= (st.idx + 1) % 128 < 128);
    }
}

/// The state after any run of samples is well formed.
pub proof fn lemma_patas_run_wf(vals: Seq<u64>)
    requires
        vals.len() + 1 < u64::MAX,
    ensures
        patas_enc_wf(patas_run(vals)),
        patas_run(vals).idx + 1 < u64::MAX,
        vals.len() == 0 ==> patas_run(vals) == patas_init(),
        vals.len() > 0 ==> !patas_run(vals).first,
        patas_run(vals).idx + 1 <= vals.len() + 1,
    decreases vals.len(),
{
    if vals.len() > 0 {
        lemma_patas_run_wf(vals.drop_last());
        lemma_patas_step_wf(patas_run(vals.drop_last()), vals.last());
    }
}

proof fn lemma_patas_take_unfold(vals: Seq<u64>, k: int)
    requires
        0 <= k < vals.len(),
    ensures
        patas_run(vals.take(k + 1)) == patas_step(patas_run(vals.take(k)), vals[k]),
        patas_encode_bits(vals.take(k + 1)) == patas_encode_bits(vals.take(k)) + patas_emit(
            patas_run(vals.take(k)),
            vals[k],
        ),
{
    assert(vals.take(k + 1).drop_last() =~= vals.take(k));
    assert(vals.take(k + 1).last() == vals[k]);
}

/// Sample `k`'s emission stands in the full encoding at the offset where the
/// first `k` samples end.
proof fn lemma_patas_encode_at(vals: Seq<u64>, k: int)
    requires
        0 <= k < vals.len(),
    ensures
        ({
            let p = patas_encode_bits(vals.take(k)).len() as int;
            let e = patas_emit(patas_run(vals.take(k)), vals[k]);
            &&& p + e.len() == patas_encode_bits(vals.take(k + 1)).len()
            &&& patas_encode_bits(vals.take(k + 1)).len() <= patas_encode_bits(vals).len()
            &&& patas_encode_bits(vals).subrange(p, p + e.len()) == e
        }),
    decreases vals.len(),
{
    lemma_patas_take_unfold(vals, k);
    let p = patas_encode_bits(vals.take(k)).len() as int;
    let e = patas_emit(patas_run(vals.take(k)), vals[k]);
    if k == vals.len() - 1 {
        assert(vals.take(k + 1) =~= vals);
        assert(patas_encode_bits(vals).subrange(p, p + e.len()) =~= e);
    } else {
        let prefix = vals.drop_last();
        lemma_patas_encode_at(prefix, k);
        assert(vals.take(k) =~= prefix.take(k));
        assert(vals.take(k + 1) =~= prefix.take(k + 1));
        assert(patas_encode_bits(vals) == patas_encode_bits(prefix) + patas_emit(
            patas_run(prefix),
            vals.last(),
        ));
        assert(patas_encode_bits(vals).subrange(p, p + e.len()) =~= patas_encode_bits(
            prefix,
        ).subrange(p, p + e.len()));
    }
}

proof fn lemma_patas_encode_min_len(vals: Seq<u64>)
    ensures
        patas_encode_bits(vals).len() >= vals.len(),
    decreases vals.len(),
{
    if vals.len() > 0 {
        lemma_patas_encode_min_len(vals.drop_last());
        lemma_patas_emit_min(patas_run(vals.drop_last()), vals.last());
    }
}

/// The step-inverse: wherever the bits one decodable sample emitted stand in
/// a stream, a mirroring decoder parses exactly those bits, reconstructs
/// exactly that sample, and mirrors the stepped encoder.
proof fn lemma_patas_parse_emit(est: PatasEnc, dst: PatasDec, x: u64, s: Seq<bool>, pos: nat)
    requires
        !est.first,
        patas_enc_wf(est),
        est.idx + 1 < u64::MAX,
        patas_dec_wf(dst),
        patas_mirror(est, dst),
        patas_step_ok(est, x),
        pos + patas_emit(est, x).len() <= s.len(),
        s.subrange(pos as int, pos + patas_emit(est, x).len() as int) == patas_emit(est, x),
    ensures
        ({
            let e = patas_emit(est, x);
            let r = patas_parse(dst, s, pos);
            &&& r is Some
            &&& r->Some_0.1 == pos + e.len()
            &&& r->Some_0.0.curr == x
            &&& patas_dec_wf(r->Some_0.0)
            &&& patas_mirror(patas_step(est, x), r->Some_0.0)
        }),
{
    let e = patas_emit(est, x);
    let pi = patas_ref(est, x);
    let refv = est.ring[pi as int];
    let xor = refv ^ x;
    let t = u64_trailing_zeros(xor) as nat;
    let sb = (patas_sig_bits(xor) + 7) / 8;
    let packed = ((pi as u64) << 9u64) | ((((sb - 1) as u64) & 7) << 6u64) | ((t as u64)
        & 0x3F);
    lemma2_to64();
    lemma_pow2_adds(8, 8);
    assert(pow2(16) == 0x10000);
    lemma_xor_cancel(refv, x);
    vstd::arithmetic::div_mod::lemma_add_mod_noop(est.idx as int, 1int, 128int);
    assert(pi < 128);
    assert forall|j: int| 0 <= j < e.len() implies s[pos as int + j] == e[j] by {
        assert(s.subrange(pos as int, pos + e.len() as int)[j] == e[j]);
    }
    if xor == 0 {
        vstd::std_specs::bits::axiom_u64_trailing_zeros(xor);
        let tru = t as u64;
        assert((tru == 64 ==> (tru & 0x3F) == 0) && (0u64 & 7) == 0) by (bit_vector);
        lemma_patas_pack(pi as u64, 0, 0);
        assert(((1nat + 7) / 8 - 1) as u64 == 0);
        assert(s.subrange(pos as int, (pos + 16) as int) =~= bits_of(packed, 16));
        lemma_val_of_bits_of(packed, 16);
        let sp = patas_parse(dst, s, pos)->Some_0;
        assert(sp.0.ring =~= patas_step(est, x).ring);
    } else {
        lemma_lead_trail_sum(xor);
        lemma_sig_bytes(patas_sig_bits(xor));
        let sbc = (sb - 1) as u64;
        let tru = t as u64;
        assert((sbc < 8 ==> (sbc & 7) == sbc) && (tru < 64 ==> (tru & 0x3F) == tru))
            by (bit_vector);
        lemma_patas_pack(pi as u64, sbc, tru);
        // the reserved end descriptor cannot arise from a sample
        assert(packed != 0xFFFF) by {
            if sbc == 7 {
                assert(patas_sig_bits(xor) >= 57);
                assert(t <= 7);
            }
        }
        let f = bits_of(xor >> tru, (sb * 8) as nat);
        assert(e == bits_of(packed, 16) + f);
        assert(s.subrange(pos as int, (pos + 16) as int) =~= bits_of(packed, 16)) by {
            assert(forall|j: int| 0 <= j < 16 ==> s[pos as int + j] == e[j] && e[j] == bits_of(
                packed,
                16,
            )[j]);
        }
        lemma_val_of_bits_of(packed, 16);
        lemma_window_bound(xor, u64_leading_zeros(xor) as nat, t);
        if patas_sig_bits(xor) < sb * 8 {
            lemma_pow2_strictly_increases(patas_sig_bits(xor), sb * 8);
        }
        assert forall|j: int|
            0 <= j < sb * 8 implies s.subrange((pos + 16) as int, (pos + 16 + sb * 8) as int)[j]
            == f[j] by {
            assert(s[pos as int + (16 + j)] == e[16 + j]);
            assert(e[16 + j] == f[j]);
        }
        assert(s.subrange((pos + 16) as int, (pos + 16 + sb * 8) as int) =~= f);
        lemma_val_of_bits_of(xor >> tru, (sb * 8) as nat);
        let sp = patas_parse(dst, s, pos)->Some_0;
        assert(sp.0.curr == x);
        assert(sp.0.ring =~= patas_step(est, x).ring);
    }
}

/// Decoding from the end of the first `k` samples, in a state that mirrors
/// the encoder there, yields exactly the remaining samples.
proof fn lemma_patas_decode_suffix(
    vals: Seq<u64>,
    k: int,
    s: Seq<bool>,
    dst: PatasDec,
    fuel: nat,
)
    requires
        forall|i: int| 0 <= i < vals.len() ==> vals[i] != NAN,
        patas_friendly(vals),
        vals.len() + 2 < u64::MAX,
        1 <= k <= vals.len(),
        patas_stream_bits(vals).len() <= s.len(),
        s.subrange(0, patas_stream_bits(vals).len() as int) == patas_stream_bits(vals),
        patas_mirror(patas_run(vals.take(k)), dst),
        patas_dec_wf(dst),
        fuel >= vals.len() - k + 1,
    ensures
        patas_decode_from(s, patas_encode_bits(vals.take(k)).len(), dst, fuel) == vals.skip(k),
    decreases vals.len() - k,
{
    let full = patas_stream_bits(vals);
    let pos = patas_encode_bits(vals.take(k)).len();
    assert(forall|j: int| 0 <= j < full.len() ==> s[j] == full[j]) by {
        assert(forall|j: int| 0 <= j < full.len() ==> s.subrange(0, full.len() as int)[j]
            == full[j]);
    }
    assert(vals.take(k).len() == k);
    lemma_patas_run_wf(vals.take(k));
    if k == vals.len() {
        assert(vals.take(k) =~= vals);
        let e = bits_of(0xFFFF, 16);
        assert(s.subrange(pos as int, (pos + 16) as int) =~= e) by {
            assert(forall|j: int|
                0 <= j < 16 ==> full[pos + j] == e[j] && s[pos + j] == full[pos + j]);
        }
        lemma_pow2_adds(8, 8);
        lemma2_to64();
        assert(pow2(16) == 0x10000);
        lemma_val_of_bits_of(0xFFFF, 16);
        assert(patas_parse(dst, s, pos) is Some);
        assert(patas_parse(dst, s, pos)->Some_0.0.curr == NAN);
        assert(patas_decode_from(s, pos, dst, fuel) =~= vals.skip(k));
    } else {
        let est = patas_run(vals.take(k));
        let x = vals[k];
        let e = patas_emit(est, x);
        lemma_patas_encode_at(vals, k);
        lemma_patas_take_unfold(vals, k);
        assert(s.subrange(pos as int, pos + e.len() as int) =~= e) by {
            assert(patas_encode_bits(vals).subrange(pos as int, pos + e.len() as int) == e);
            assert(forall|j: int| 0 <= j < patas_encode_bits(vals).len() ==> full[j]
                == patas_encode_bits(vals)[j]);
            assert(forall|j: int|
                0 <= j < e.len() ==> s[pos + j] == full[pos + j] && full[pos + j] == e[j]);
        }
        assert(patas_step_ok(est, x));
        lemma_patas_parse_emit(est, dst, x, s, pos);
        let sp = patas_parse(dst, s, pos)->Some_0;
        lemma_patas_decode_suffix(vals, k + 1, s, sp.0, (fuel - 1) as nat);
        assert(patas_decode_from(s, pos, dst, fuel) =~= vals.skip(k));
    }
}

/// The Patas round-trip law: for any finite sequence of samples free of the
/// sentinel pattern, every step of which is decodable, decoding any stream
/// that begins with the closed encoding yields exactly that sequence.
pub proof fn lemma_patas_round_trip(vals: Seq<u64>, s: Seq<bool>)
    requires
        vals.len() >= 1,
        forall|i: int| 0 <= i < vals.len() ==> vals[i] != NAN,
        patas_friendly(vals),
        vals.len() + 2 < u64::MAX,
        patas_stream_bits(vals).len() <= s.len(),
        s.subrange(0, patas_stream_bits(vals).len() as int) == patas_stream_bits(vals),
    ensures
        patas_decode(s) == vals,
{
    let full = patas_stream_bits(vals);
    lemma2_to64_rest();
    assert(forall|j: int| 0 <= j < full.len() ==> s[j] == full[j]) by {
        assert(forall|j: int| 0 <= j < full.len() ==> s.subrange(0, full.len() as int)[j]
            == full[j]);
    }
    {
        lemma_patas_take_unfold(vals, 0);
        assert(vals.take(0) =~= Seq::<u64>::empty());
        assert(patas_encode_bits(vals.take(1)) == patas_emit(patas_init(), vals[0]));
        lemma_patas_encode_at(vals, 0);
        lemma_patas_encode_min_len(vals);
        assert(s.subrange(0, 64) =~= bits_of(vals[0], 64)) by {
            assert(patas_encode_bits(vals).subrange(0, 64) == bits_of(vals[0], 64));
        }
        lemma_val_of_bits_of(vals[0], 64);
        assert(field_val(s, 0, 64) == vals[0]);
        let dst0 = PatasDec {
            curr: vals[0],
            ring: Seq::new(128, |j: int| 0u64).update(0, vals[0]),
            idx: 0,
        };
        assert(patas_mirror(patas_run(vals.take(1)), dst0)) by {
            assert(patas_run(vals.take(1)) == patas_step(patas_init(), vals[0]));
            assert(patas_run(vals.take(1)).ring =~= dst0.ring);
        }
        lemma_patas_decode_suffix(vals, 1, s, dst0, s.len());
        assert(patas_encode_bits(vals.take(1)).len() == 64);
        assert(patas_decode(s) =~= vals) by {
            assert(patas_decode_from(s, 64, dst0, s.len()) == vals.skip(1));
        }
    }
}

/// Any sample whose selected ring slot already holds its bits costs exactly
/// one 16-bit descriptor: the slot index in the high seven bits, a zero
/// significant-bytes code, a zero trail field, and no payload. The ring, its
/// position and the index table advance as for every sample.
pub proof fn lemma_patas_zero_xor(st: PatasEnc, x: u64)
    requires
        patas_enc_wf(st),
        !st.first,
        st.ring[patas_ref(st, x) as int] == x,
    ensures
        patas_emit(st, x) == bits_of(((patas_ref(st, x) as u64)) << 9u64, 16),
        patas_ref(st, x) < 128,
        patas_emit(st, x).len() == 16,
        patas_step(st, x).ring == st.ring.update(((st.idx + 1) % 128) as int, x),
        patas_step(st, x).idx == st.idx + 1,
        patas_step(st, x).indices == st.indices.update(
            (x & LSB_MASK) as int,
            (st.idx + 1) as u64,
        ),
{
    lemma_xor_cancel(st.ring[patas_ref(st, x) as int], x);
    vstd::std_specs::bits::axiom_u64_trailing_zeros(0);
    let p = (patas_ref(st, x)) as u64;
    assert((p << 9u64) | ((0u64 & 7) << 6u64) | (64u64 & 0x3F) == p << 9u64) by (bit_vector);
}

/// A repeat of the sample just stored costs one 16-bit descriptor with one
/// significant byte, a zero trail field, and the index of the ring slot
/// holding that sample.
pub proof fn lemma_patas_repeat(st0: PatasEnc, x: u64)
    requires
        patas_enc_wf(st0),
        st0.idx + 1 < u64::MAX,
    ensures
        ({
            let st = patas_step(st0, x);
            patas_emit(st, x) == bits_of(((st.idx % 128) as u64) << 9u64, 16)
        }),
{
    let st = patas_step(st0, x);
    lemma_lsb_mask(x);
    lemma_patas_step_wf(st0, x);
    assert(st.ring[(st.idx % 128) as int] == x);
    assert(st.indices[(x & LSB_MASK) as int] == st.idx);
    assert(patas_ref(st, x) == st.idx % 128);
    lemma_patas_zero_xor(st, x);
}

/// A single sample: the closed stream is the raw 64 sample bits followed by
/// the end descriptor framing, and decoding yields exactly that sample.
pub proof fn lemma_patas_single_sample(x: u64, s: Seq<bool>)
    requires
        x != NAN,
        patas_stream_bits(seq![x]).len() <= s.len(),
        s.subrange(0, patas_stream_bits(seq![x]).len() as int) == patas_stream_bits(seq![x]),
    ensures
        patas_stream_bits(seq![x]) == bits_of(x, 64) + bits_of(0xFFFF, 16) + bits_of(0, 1),
        patas_decode(s) == seq![x],
{
    let v1 = seq![x];
    assert(v1.len() == 1 && v1.drop_last() =~= Seq::<u64>::empty() && v1.last() == x);
    assert(patas_run(v1.drop_last()) == patas_init());
    assert(patas_encode_bits(v1.drop_last()) == Seq::<bool>::empty());
    assert(patas_encode_bits(v1) == patas_encode_bits(v1.drop_last()) + patas_emit(patas_init(), x));
    assert(patas_encode_bits(v1) =~= bits_of(x, 64));
    assert(patas_friendly(seq![x])) by {
        assert(forall|k: int| 0 <= k < 1 ==> #[trigger] seq![x].take(k) =~= Seq::<u64>::empty());
    }
    lemma_patas_round_trip(seq![x], s);
}

/// The round trip stated on what `close` hands over: a word buffer holding
/// the closed stream plus zero padding decodes to exactly the encoded
/// samples.
pub proof fn lemma_patas_closed_decode(vals: Seq<u64>, words: Seq<u64>, pad: nat)
    requires
        forall|i: int| 0 <= i < vals.len() ==> vals[i] != NAN,
        vals.len() >= 1,
        patas_friendly(vals),
        vals.len() + 2 < u64::MAX,
        words_bits(words) == patas_stream_bits(vals) + zero_bits(pad),
    ensures
        patas_decode(words_bits(words)) == vals,
{
    let full = patas_stream_bits(vals);
    let s = words_bits(words);
    assert(s.subrange(0, full.len() as int) =~= full);
    lemma_patas_round_trip(vals, s);
}

/// The exact cost of a constant run: 64 raw bits, then one 16-bit descriptor
/// per repeat; the run keeps the sample at the current ring slot and in the
/// index table.
proof fn lemma_patas_constant_len(x: u64, n: nat)
    requires
        1 <= n,
        n + 1 < u64::MAX,
    ensures
        ({
            let c = Seq::new(n, |j: int| x);
            &&& patas_encode_bits(c).len() == 64 + 16 * (n - 1)
            &&& patas_run(c).idx == n - 1
            &&& patas_run(c).indices[(x & LSB_MASK) as int] == (n - 1) as u64
            &&& patas_run(c).ring[(patas_run(c).idx % 128) as int] == x
        }),
    decreases n,
{
    let c = Seq::new(n, |j: int| x);
    assert(c[n as int - 1] == x);
    assert(c.last() == x);
    lemma_lsb_mask(x);
    lemma_patas_run_wf(c);
    if n == 1 {
        assert(c.drop_last() =~= Seq::<u64>::empty());
        assert(patas_encode_bits(c.drop_last()) == Seq::<bool>::empty());
        assert(patas_run(c.drop_last()) == patas_init());
        assert(patas_encode_bits(c) == patas_encode_bits(c.drop_last()) + patas_emit(
            patas_run(c.drop_last()),
            x,
        ));
        assert(patas_encode_bits(c) =~= patas_emit(patas_init(), x));
        assert(patas_run(c) == patas_step(patas_init(), x));
    } else {
        let c0 = c.drop_last();
        assert(c0 =~= Seq::new((n - 1) as nat, |j: int| x));
        assert(c0[n as int - 2] == c[n as int - 2] && c[n as int - 2] == x);
        lemma_patas_constant_len(x, (n - 1) as nat);
        lemma_patas_run_wf(c0);
        let st = patas_run(c0);
        assert(patas_ref(st, x) == st.idx % 128);
        lemma_patas_zero_xor(st, x);
        assert(patas_encode_bits(c) == patas_encode_bits(c0) + patas_emit(st, x));
        vstd::arithmetic::div_mod::lemma_add_mod_noop(st.idx as int, 1int, 128int);
    }
}

/// Compression on a constant run: from four samples on, the closed stream is
/// strictly smaller than raw 64-bit storage. With close's bound
/// `64 * words < stream + 64`, the closed buffer stays below `64 * n` bits.
pub proof fn lemma_patas_constant_run_compresses(x: u64, n: nat)
    requires
        4 <= n,
        n + 1 < u64::MAX,
    ensures
        patas_stream_bits(Seq::new(n, |j: int| x)).len() + 64 <= 64 * n,
{
    lemma_patas_constant_len(x, n);
    assert(64 + 16 * (n - 1) + 16 + 1 + 64 <= 64 * n) by (nonlinear_arith)
        requires
            4 <= n,
    ;
}

} // verus!
