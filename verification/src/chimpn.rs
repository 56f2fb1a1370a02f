//! The Chimp-128 double codec: Chimp extended with a 128-slot ring of recent
//! samples and a table keyed by the low 14 bits of a sample's pattern, so
//! each new sample can XOR against the best recent reference.

use crate::bits::{
    bits_of, field_val, lemma_bit64_single, lemma_bits_of_split, lemma_lead_trail_sum,
    lemma_val_of_bits_of, lemma_val_of_bound, lemma_window_bound, lemma_xor_cancel, val_of,
    words_bits, zero_bits,
};
use crate::bitstream::{Error, InputBitStream, OutputBitStream};
use crate::{
    leading_dec, leading_dec_spec, leading_enc, leading_enc_spec, leading_round,
    leading_round_spec, lemma_leading_tables_inverse, Decode, NAN,
};
use vstd::arithmetic::power2::*;
use vstd::prelude::*;
use vstd::std_specs::bits::{u64_leading_zeros, u64_trailing_zeros};

verus! {

/// A reference must share at least this many trailing XOR zeros to be used.
pub const THRESHOLD: u32 = 13;

/// The low 14 bits of a sample key its slot in the index table.
pub const LSB_MASK: u64 = 0x3FFF;

/// The abstract per-sample state of the Chimp-128 encoder.
pub struct ChimpNEnc {
    pub first: bool,
    pub lead: nat,
    /// Slot `i % 128` holds the sample with absolute index `i`.
    pub ring: Seq<u64>,
    /// Keyed by low 14 bits: the absolute index at which a sample with those
    /// bits was last stored, or `u64::MAX` for never.
    pub indices: Seq<u64>,
    /// Absolute index of the most recent sample.
    pub idx: nat,
}

pub open spec fn chimpn_enc_wf(st: ChimpNEnc) -> bool {
    &&& st.ring.len() == 128
    &&& st.indices.len() == 16384
    &&& st.lead <= 24 || st.lead >= 64
    &&& st.idx < u64::MAX
    &&& st.first ==> st.idx == 0
}

pub open spec fn chimpn_init() -> ChimpNEnc {
    ChimpNEnc {
        first: true,
        lead: 65,
        ring: Seq::new(128, |j: int| 0u64),
        indices: Seq::new(16384, |j: int| u64::MAX),
        idx: 0,
    }
}

/// The reference a sample is XORed against: the most recent sample sharing
/// its low 14 bits, if that sample is still in the ring and the XOR has more
/// than `THRESHOLD` trailing zeros; otherwise the previous sample.
pub struct ChimpNRef {
    pub pi: nat,
    pub xor: u64,
    pub sel: bool,
}

pub open spec fn chimpn_ref(st: ChimpNEnc, x: u64) -> ChimpNRef {
    let li = st.indices[(x & LSB_MASK) as int];
    if li <= st.idx && st.idx - li < 128 && u64_trailing_zeros(
        x ^ st.ring[(li as nat % 128) as int],
    ) > THRESHOLD {
        ChimpNRef {
            pi: li as nat % 128,
            xor: x ^ st.ring[(li as nat % 128) as int],
            sel: true,
        }
    } else {
        ChimpNRef {
            pi: st.idx % 128,
            xor: st.ring[(st.idx % 128) as int] ^ x,
            sel: false,
        }
    }
}

/// The bits one sample appends to the stream.
pub open spec fn chimpn_emit(st: ChimpNEnc, x: u64) -> Seq<bool> {
    if st.first {
        bits_of(x, 64)
    } else {
        let r = chimpn_ref(st, x);
        if r.xor == 0 {
            bits_of(r.pi as u64, 9)
        } else {
            let l = leading_round_spec(u64_leading_zeros(r.xor) as nat);
            let t = u64_trailing_zeros(r.xor) as nat;
            if r.sel {
                let cb = (64 - l - t) as nat;
                bits_of(
                    ((128u64 | (r.pi as u64)) << 9u64) | ((leading_enc_spec(l) as u64) << 6u64)
                        | (cb as u64),
                    18,
                ) + bits_of(r.xor >> (t as u64), cb)
            } else if l == st.lead {
                bits_of(2, 2) + bits_of(r.xor, (64 - l) as nat)
            } else {
                bits_of(3, 2) + bits_of(leading_enc_spec(l) as u64, 3) + bits_of(
                    r.xor,
                    (64 - l) as nat,
                )
            }
        }
    }
}

/// How one sample advances the encoder state.
pub open spec fn chimpn_step(st: ChimpNEnc, x: u64) -> ChimpNEnc {
    if st.first {
        ChimpNEnc {
            first: false,
            lead: st.lead,
            ring: st.ring.update(0, x),
            indices: st.indices.update((x & LSB_MASK) as int, 0),
            idx: 0,
        }
    } else {
        let r = chimpn_ref(st, x);
        let lead2: nat = if r.xor == 0 {
            st.lead
        } else {
            leading_round_spec(u64_leading_zeros(r.xor) as nat)
        };
        ChimpNEnc {
            first: false,
            lead: lead2,
            ring: st.ring.update(((st.idx + 1) % 128) as int, x),
            indices: st.indices.update((x & LSB_MASK) as int, (st.idx + 1) as u64),
            idx: st.idx + 1,
        }
    }
}

/// The encoder state after a whole sequence of samples.
pub open spec fn chimpn_run(vals: Seq<u64>) -> ChimpNEnc
    decreases vals.len(),
{
    if vals.len() == 0 {
        chimpn_init()
    } else {
        chimpn_step(chimpn_run(vals.drop_last()), vals.last())
    }
}

/// The bits a whole sequence of samples appends.
pub open spec fn chimpn_encode_bits(vals: Seq<u64>) -> Seq<bool>
    decreases vals.len(),
{
    if vals.len() == 0 {
        Seq::empty()
    } else {
        chimpn_encode_bits(vals.drop_last()) + chimpn_emit(
            chimpn_run(vals.drop_last()),
            vals.last(),
        )
    }
}

/// The full stream a closed encoder leaves, before word padding.
pub open spec fn chimpn_stream_bits(vals: Seq<u64>) -> Seq<bool> {
    chimpn_encode_bits(vals) + chimpn_emit(chimpn_run(vals), NAN) + bits_of(0, 1)
}

/// Unpacking the 18-bit reference descriptor recovers its three parts.
proof fn lemma_chimpn_pack(pi: u64, e: u64, c: u64)
    requires
        pi < 128,
        e < 8,
        c < 64,
    ensures
        ({
            let tmp = ((128u64 | pi) << 9u64) | (e << 6u64) | c;
            &&& tmp < 0x40000
            &&& tmp >> 16u64 == 1
            &&& (tmp & 0xFFFF) == tmp % 0x10000
            &&& ((tmp & 0xFFFF) & 0x3F) == c
            &&& (((tmp & 0xFFFF) >> 6u64) & 7) == e
            &&& (((tmp & 0xFFFF) >> 9u64) & 0x7F) == pi
        }),
{
    let tmp = ((128u64 | pi) << 9u64) | (e << 6u64) | c;
    assert(tmp < 0x40000 && tmp >> 16u64 == 1 && (tmp & 0xFFFF) == tmp % 0x10000 && ((tmp
        & 0xFFFF) & 0x3F) == c && (((tmp & 0xFFFF) >> 6u64) & 7) == e && (((tmp & 0xFFFF)
        >> 9u64) & 0x7F) == pi) by (bit_vector)
        requires
            tmp == ((128u64 | pi) << 9u64) | (e << 6u64) | c,
            pi < 128,
            e < 8,
            c < 64,
    ;
}

/// The low 14 bits key fits the index table.
proof fn lemma_lsb_mask(x: u64)
    ensures
        (x & LSB_MASK) < 16384,
{
    assert((x & 0x3FFF) < 16384) by (bit_vector);
}

#[derive(Debug)]
pub struct Encoder {
    first: bool,
    stored_vals: Vec<u64>,
    indices: Vec<u64>,
    leading_zeros: u32,
    curr_idx: usize,
    index: u64,
    w: OutputBitStream,
}

impl Encoder {
    /// The abstract encoder state the fields hold.
    pub closed spec fn model(&self) -> ChimpNEnc {
        ChimpNEnc {
            first: self.first,
            lead: self.leading_zeros as nat,
            ring: self.stored_vals@,
            indices: self.indices@,
            idx: self.index as nat,
        }
    }

    /// The bits written so far.
    pub closed spec fn stream(&self) -> Seq<bool> {
        self.w@
    }

    pub closed spec fn wf(&self) -> bool {
        &&& self.w.wf()
        &&& chimpn_enc_wf(self.model())
        &&& self.curr_idx == self.index as nat % 128
    }

    pub fn new() -> (r: Encoder)
        ensures
            r.wf(),
            r.stream() == Seq::<bool>::empty(),
            r.model() == chimpn_init(),
    {
        let r = Encoder {
            first: true,
            stored_vals: vec![0u64; 128],
            indices: vec![u64::MAX; 16384],
            leading_zeros: 65,
            curr_idx: 0,
            index: 0,
            w: OutputBitStream::new(),
        };
        proof {
            assert(r.model().ring =~= chimpn_init().ring);
            assert(r.model().indices =~= chimpn_init().indices);
        }
        r
    }

    /// Like `new`, with room for `capa` words reserved up front.
    pub fn with_capacity(capa: usize) -> (r: Encoder)
        ensures
            r.wf(),
            r.stream() == Seq::<bool>::empty(),
            r.model() == chimpn_init(),
    {
        let r = Encoder {
            first: true,
            stored_vals: vec![0u64; 128],
            indices: vec![u64::MAX; 16384],
            leading_zeros: 65,
            curr_idx: 0,
            index: 0,
            w: OutputBitStream::with_capacity(capa),
        };
        proof {
            assert(r.model().ring =~= chimpn_init().ring);
            assert(r.model().indices =~= chimpn_init().indices);
        }
        r
    }

    fn insert_first(&mut self, value: u64)
        requires
            old(self).wf(),
            old(self).model().first,
            old(self).model().idx == 0,
        ensures
            final(self).wf(),
            final(self).stream() == old(self).stream() + chimpn_emit(
                old(self).model(),
                value,
            ),
            final(self).model() == chimpn_step(old(self).model(), value),
    {
        proof {
            lemma_lsb_mask(value);
            lemma2_to64_rest();
        }
        self.stored_vals.set(0, value);
        self.indices.set((value & LSB_MASK) as usize, 0);
        self.first = false;
        self.w.write_bits(value, 64);
    }

    fn insert_value(&mut self, value: u64)
        requires
            old(self).wf(),
            !old(self).model().first,
            old(self).model().idx + 1 < u64::MAX,
        ensures
            final(self).wf(),
            final(self).stream() == old(self).stream() + chimpn_emit(
                old(self).model(),
                value,
            ),
            final(self).model() == chimpn_step(old(self).model(), value),
    {
        let ghost st = self.model();
        proof {
            lemma_lsb_mask(value);
        }
        let lsb_index = self.indices[(value & LSB_MASK) as usize];
        let prev_index: usize;
        let mut xor: u64;
        let mut sel = false;
        let mut trail: u32 = 0;
        if lsb_index <= self.index && self.index - lsb_index < 128 {
            let cand = self.stored_vals[(lsb_index % 128) as usize];
            let xc = value ^ cand;
            let tc = xc.trailing_zeros();
            if tc > THRESHOLD {
                prev_index = (lsb_index % 128) as usize;
                xor = xc;
                trail = tc;
                sel = true;
            } else {
                prev_index = self.curr_idx;
                xor = self.stored_vals[self.curr_idx] ^ value;
            }
        } else {
            prev_index = self.curr_idx;
            xor = self.stored_vals[self.curr_idx] ^ value;
        }
        let ghost r = chimpn_ref(st, value);
        proof {
            assert(r.pi == prev_index && r.xor == xor && r.sel == sel);
            assert(prev_index < 128);
            lemma2_to64();
        }
        if xor == 0 {
            self.w.write_bits(prev_index as u64, 9);
            proof {
                assert(self.w@ =~= old(self).w@ + chimpn_emit(st, value));
            }
        } else {
            let lead = leading_round(xor.leading_zeros());
            proof {
                lemma_lead_trail_sum(xor);
            }
            if sel {
                let center_bits = 64 - lead - trail;
                let tmp = ((128u64 | (prev_index as u64)) << 9) | ((leading_enc(lead) as u64)
                    << 6) | (center_bits as u64);
                proof {
                    lemma_chimpn_pack(
                        prev_index as u64,
                        leading_enc_spec(lead as nat) as u64,
                        center_bits as u64,
                    );
                    lemma_window_bound(xor, lead as nat, trail as nat);
                }
                self.w.write_bits(tmp, 18);
                self.w.write_bits(xor >> trail, center_bits);
                self.leading_zeros = lead;
                proof {
                    assert(self.w@ =~= old(self).w@ + chimpn_emit(st, value));
                }
            } else {
                let center_bits = 64 - lead;
                proof {
                    lemma_window_bound(xor, lead as nat, 0);
                    assert(xor >> 0u64 == xor) by (bit_vector);
                }
                if lead != self.leading_zeros {
                    self.leading_zeros = lead;
                    self.w.write_bits(3, 2);
                    self.w.write_bits(leading_enc(lead) as u64, 3);
                } else {
                    self.w.write_bits(2, 2);
                }
                self.w.write_bits(xor, center_bits);
                proof {
                    assert(self.w@ =~= old(self).w@ + chimpn_emit(st, value));
                }
            }
        }
        self.curr_idx = (self.curr_idx + 1) % 128;
        self.stored_vals.set(self.curr_idx, value);
        self.index = self.index + 1;
        self.indices.set((value & LSB_MASK) as usize, self.index);
        proof {
            vstd::arithmetic::div_mod::lemma_add_mod_noop(
                st.idx as int,
                1int,
                128int,
            );
            assert(self.curr_idx == (st.idx + 1) % 128);
            assert(self.model().ring =~= chimpn_step(st, value).ring);
            assert(self.model().indices =~= chimpn_step(st, value).indices);
        }
    }

    /// Encode one sample; the first sample is written raw.
    pub fn encode(&mut self, value: u64)
        requires
            old(self).wf(),
            old(self).model().idx + 1 < u64::MAX,
        ensures
            final(self).wf(),
            final(self).stream() == old(self).stream() + chimpn_emit(
                old(self).model(),
                value,
            ),
            final(self).model() == chimpn_step(old(self).model(), value),
    {
        if self.first {
            self.insert_first(value);
        } else {
            self.insert_value(value);
        }
    }

    /// Encode a whole sequence of samples.
    pub fn encode_vec(values: &Vec<u64>) -> (r: Encoder)
        requires
            values@.len() + 1 < u64::MAX,
        ensures
            r.wf(),
            r.stream() == chimpn_encode_bits(values@),
            r.model() == chimpn_run(values@),
    {
        let mut enc = Encoder::with_capacity(values.len() / 2);
        proof {
            assert(values@.take(0) =~= Seq::<u64>::empty());
            assert(enc.stream() =~= chimpn_encode_bits(values@.take(0)));
        }
        let n = values.len();
        for i in 0..n
            invariant
                n == values@.len(),
                n + 1 < u64::MAX,
                enc.wf(),
                enc.model().idx <= i,
                enc.stream() == chimpn_encode_bits(values@.take(i as int)),
                enc.model() == chimpn_run(values@.take(i as int)),
        {
            enc.encode(values[i]);
            proof {
                assert(values@.take(i + 1).drop_last() =~= values@.take(i as int));
                assert(values@.take(i + 1).last() == values@[i as int]);
            }
        }
        proof {
            assert(values@.take(n as int) =~= values@);
        }
        enc
    }

    /// Close the stream: encode the sentinel, append one padding zero bit,
    /// flush, and hand over the word buffer and the exact count of bits
    /// written.
    pub fn close(self) -> (r: (Vec<u64>, u64))
        requires
            self.wf(),
            self.stream().len() + 100 <= u64::MAX,
            self.model().idx + 1 < u64::MAX,
        ensures
            ({
                let full = self.stream() + chimpn_emit(self.model(), NAN) + bits_of(0, 1);
                &&& words_bits(r.0@) == full + zero_bits((64 * r.0@.len() - full.len()) as nat)
                &&& full.len() <= 64 * r.0@.len() < full.len() + 64
                &&& r.1 == full.len()
            }),
    {
        let mut this = self;
        proof {
            lemma_chimpn_emit_len(this.model(), NAN);
        }
        if this.first {
            this.insert_first(NAN);
        } else {
            this.insert_value(NAN);
        }
        this.w.write_bit(0);
        proof {
            crate::bits::lemma_bit_and_one();
        }
        let size = this.w.bit_count();
        (this.w.close(), size)
    }
}

/// One sample appends at most 82 bits.
pub proof fn lemma_chimpn_emit_len(st: ChimpNEnc, x: u64)
    requires
        chimpn_enc_wf(st),
    ensures
        chimpn_emit(st, x).len() <= 82,
{
    if !st.first {
        let r = chimpn_ref(st, x);
        if r.xor != 0 {
            lemma_lead_trail_sum(r.xor);
        }
    }
}

/// The abstract per-sample state of the Chimp-128 decoder.
pub struct ChimpNDec {
    pub curr: u64,
    pub lead: nat,
    pub ring: Seq<u64>,
    pub idx: nat,
}

pub open spec fn chimpn_dec_wf(st: ChimpNDec) -> bool {
    &&& st.lead <= 24
    &&& st.ring.len() == 128
    &&& st.idx < 128
}

/// The ring advance every decoded sample performs.
pub open spec fn chimpn_dec_advance(st: ChimpNDec, c2: u64, l: nat) -> ChimpNDec {
    ChimpNDec {
        curr: c2,
        lead: l,
        ring: st.ring.update(((st.idx + 1) % 128) as int, c2),
        idx: (st.idx + 1) % 128,
    }
}

/// Parse one sample at bit position `pos` of `s`: the decoder's step
/// function. `None` is end-of-stream.
pub open spec fn chimpn_parse(st: ChimpNDec, s: Seq<bool>, pos: nat) -> Option<
    (ChimpNDec, nat),
> {
    if pos + 2 > s.len() {
        None
    } else {
        let flag = val_of(s.subrange(pos as int, (pos + 2) as int));
        if flag == 1 {
            if pos + 18 > s.len() {
                None
            } else {
                let v16 = field_val(s, (pos + 2) as nat, 16);
                let c0 = v16 & 0x3F;
                let l = leading_dec_spec(((v16 >> 6u64) & 7) as nat);
                let pi = (v16 >> 9u64) & 0x7F;
                let cb: nat = if c0 == 0 {
                    64
                } else {
                    c0 as nat
                };
                let t: nat = if cb + l > 64 {
                    0
                } else {
                    (64 - cb - l) as nat
                };
                if pos + 18 + cb > s.len() {
                    None
                } else {
                    let xor = field_val(s, (pos + 18) as nat, cb);
                    let c2 = st.ring[pi as int] ^ (xor << (t as u64));
                    Some((chimpn_dec_advance(st, c2, l), (pos + 18 + cb) as nat))
                }
            }
        } else if flag == 2 {
            let cb = (64 - st.lead) as nat;
            if pos + 2 + cb > s.len() {
                None
            } else {
                let c2 = st.curr ^ field_val(s, (pos + 2) as nat, cb);
                Some((chimpn_dec_advance(st, c2, st.lead), (pos + 2 + cb) as nat))
            }
        } else if flag == 3 {
            if pos + 5 > s.len() {
                None
            } else {
                let l = leading_dec_spec(
                    val_of(s.subrange((pos + 2) as int, (pos + 5) as int)),
                );
                let cb = (64 - l) as nat;
                if pos + 5 + cb > s.len() {
                    None
                } else {
                    let c2 = st.curr ^ field_val(s, (pos + 5) as nat, cb);
                    Some((chimpn_dec_advance(st, c2, l), (pos + 5 + cb) as nat))
                }
            }
        } else {
            if pos + 9 > s.len() {
                None
            } else {
                let pi = val_of(s.subrange((pos + 2) as int, (pos + 9) as int));
                let c2 = st.ring[pi as int];
                Some((chimpn_dec_advance(st, c2, st.lead), (pos + 9) as nat))
            }
        }
    }
}

#[derive(Debug)]
pub struct Decoder {
    first: bool,
    done: bool,
    stored_vals: Vec<u64>,
    curr: u64,
    curr_idx: usize,
    leading_zeros: u32,
    r: InputBitStream,
}

impl Decoder {
    /// The abstract decoder state the fields hold.
    pub closed spec fn dec(&self) -> ChimpNDec {
        ChimpNDec {
            curr: self.curr,
            lead: self.leading_zeros as nat,
            ring: self.stored_vals@,
            idx: self.curr_idx as nat,
        }
    }

    pub closed spec fn first_state(&self) -> bool {
        self.first
    }

    pub closed spec fn done_state(&self) -> bool {
        self.done
    }

    pub closed spec fn bits(&self) -> Seq<bool> {
        self.r.bits()
    }

    pub closed spec fn consumed(&self) -> nat {
        self.r.consumed()
    }

    pub closed spec fn wf(&self) -> bool {
        &&& self.r.wf()
        &&& chimpn_dec_wf(self.dec())
    }

    pub fn new(read: InputBitStream) -> (r: Decoder)
        requires
            read.wf(),
        ensures
            r.wf(),
            r.bits() == read.bits(),
            r.consumed() == read.consumed(),
            r.first_state(),
            !r.done_state(),
            r.dec() == (ChimpNDec {
                curr: 0u64,
                lead: 0 as nat,
                ring: Seq::new(128, |j: int| 0u64),
                idx: 0 as nat,
            }),
    {
        let d = Decoder {
            first: true,
            done: false,
            stored_vals: vec![0u64; 128],
            curr: 0,
            curr_idx: 0,
            leading_zeros: 0,
            r: read,
        };
        proof {
            assert(d.dec().ring =~= Seq::new(128, |j: int| 0u64));
        }
        d
    }

    /// Read the raw first sample and seed the ring with it.
    fn get_first(&mut self) -> (r: Result<(), Error>)
        requires
            old(self).wf(),
        ensures
            final(self).wf(),
            final(self).bits() == old(self).bits(),
            final(self).first_state() == old(self).first_state(),
            final(self).done_state() == old(self).done_state(),
            old(self).consumed() + 64 <= old(self).bits().len() ==> ({
                let v = field_val(old(self).bits(), old(self).consumed(), 64);
                &&& r == Ok::<(), Error>(())
                &&& final(self).dec() == (ChimpNDec {
                    curr: v,
                    lead: old(self).dec().lead,
                    ring: old(self).dec().ring.update(old(self).dec().idx as int, v),
                    idx: old(self).dec().idx,
                })
                &&& final(self).consumed() == old(self).consumed() + 64
            }),
            old(self).consumed() + 64 > old(self).bits().len() ==> r == Err::<(), Error>(
                Error::EOF,
            ),
    {
        let v = match self.r.read_bits(64) {
            Ok(v) => v,
            Err(e) => {
                return Err(e);
            },
        };
        self.curr = v;
        self.stored_vals.set(self.curr_idx, v);
        Ok(())
    }

    /// Decode one non-first sample: the exact inverse of one parse step.
    fn get_value(&mut self) -> (r: Result<(), Error>)
        requires
            old(self).wf(),
        ensures
            final(self).wf(),
            final(self).bits() == old(self).bits(),
            final(self).first_state() == old(self).first_state(),
            final(self).done_state() == old(self).done_state(),
            match chimpn_parse(old(self).dec(), old(self).bits(), old(self).consumed()) {
                Some(sp) => {
                    &&& r == Ok::<(), Error>(())
                    &&& final(self).dec() == sp.0
                    &&& final(self).consumed() == sp.1
                },
                None => r == Err::<(), Error>(Error::EOF),
            },
    {
        let ghost s = self.bits();
        let ghost pos = self.consumed();
        let ghost st = self.dec();
        let flag = match self.r.read_bits(2) {
            Ok(v) => v,
            Err(e) => {
                return Err(e);
            },
        };
        if flag == 1 {
            let tmp = match self.r.read_bits(16) {
                Ok(v) => v,
                Err(e) => {
                    return Err(e);
                },
            };
            let center0 = tmp & 0x3F;
            let cls = ((tmp >> 6) & 7) as u32;
            let lead = leading_dec(cls);
            let index = ((tmp >> 9) & 0x7F) as usize;
            proof {
                assert((tmp & 0x3F) < 64 && ((tmp >> 6u64) & 7) < 8 && ((tmp >> 9u64) & 0x7F)
                    < 128) by (bit_vector);
            }
            let center_bits: u32 = if center0 == 0 {
                64
            } else {
                center0 as u32
            };
            let trailing: u32 = if center_bits + lead > 64 {
                0
            } else {
                64 - center_bits - lead
            };
            let refv = self.stored_vals[index];
            let xor = match self.r.read_bits(center_bits) {
                Ok(v) => v,
                Err(e) => {
                    return Err(e);
                },
            };
            self.curr = refv ^ (xor << trailing);
            self.leading_zeros = lead;
        } else if flag == 2 {
            let xor = match self.r.read_bits(64 - self.leading_zeros) {
                Ok(v) => v,
                Err(e) => {
                    return Err(e);
                },
            };
            self.curr = self.curr ^ xor;
        } else if flag == 3 {
            let cls = match self.r.read_bits(3) {
                Ok(v) => v,
                Err(e) => {
                    return Err(e);
                },
            };
            proof {
                lemma_val_of_bound(s.subrange((pos + 2) as int, (pos + 5) as int));
                lemma2_to64();
            }
            let lead = leading_dec(cls as u32);
            let xor = match self.r.read_bits(64 - lead) {
                Ok(v) => v,
                Err(e) => {
                    return Err(e);
                },
            };
            self.curr = self.curr ^ xor;
            self.leading_zeros = lead;
        } else {
            let index64 = match self.r.read_bits(7) {
                Ok(v) => v,
                Err(e) => {
                    return Err(e);
                },
            };
            proof {
                lemma_val_of_bound(s.subrange((pos + 2) as int, (pos + 9) as int));
                lemma2_to64();
            }
            self.curr = self.stored_vals[index64 as usize];
        }
        self.curr_idx = (self.curr_idx + 1) % 128;
        self.stored_vals.set(self.curr_idx, self.curr);
        proof {
            lemma_val_of_bound(s.subrange(pos as int, (pos + 2) as int));
            lemma2_to64();
            let sp = chimpn_parse(st, s, pos)->Some_0;
            assert(self.dec().ring =~= sp.0.ring);
        }
        Ok(())
    }

    /// Pull the next sample. After the sentinel, a truncated stream, or an
    /// earlier end, every call returns `EOF`.
    pub fn get_next(&mut self) -> (r: Result<u64, Error>)
        requires
            old(self).wf(),
        ensures
            final(self).wf(),
            final(self).bits() == old(self).bits(),
            old(self).done_state() ==> r == Err::<u64, Error>(Error::EOF) && *final(self)
                == *old(self),
            r is Err ==> final(self).done_state(),
            !old(self).done_state() && old(self).first_state() && old(self).consumed() + 64
                <= old(self).bits().len() ==> ({
                let v = field_val(old(self).bits(), old(self).consumed(), 64);
                &&& !final(self).first_state()
                &&& final(self).dec() == (ChimpNDec {
                    curr: v,
                    lead: old(self).dec().lead,
                    ring: old(self).dec().ring.update(old(self).dec().idx as int, v),
                    idx: old(self).dec().idx,
                })
                &&& final(self).consumed() == old(self).consumed() + 64
                &&& v == NAN ==> r == Err::<u64, Error>(Error::EOF) && final(self).done_state()
                &&& v != NAN ==> r == Ok::<u64, Error>(v) && !final(self).done_state()
            }),
            !old(self).done_state() && old(self).first_state() && old(self).consumed() + 64
                > old(self).bits().len() ==> r == Err::<u64, Error>(Error::EOF) && final(self).done_state(),
            !old(self).done_state() && !old(self).first_state() ==> ({
                match chimpn_parse(old(self).dec(), old(self).bits(), old(self).consumed()) {
                    Some(sp) => {
                        &&& !final(self).first_state()
                        &&& final(self).dec() == sp.0
                        &&& final(self).consumed() == sp.1
                        &&& sp.0.curr == NAN ==> r == Err::<u64, Error>(Error::EOF) && final(self).done_state()
                        &&& sp.0.curr != NAN ==> r == Ok::<u64, Error>(sp.0.curr) && !final(self).done_state()
                    },
                    None => r == Err::<u64, Error>(Error::EOF) && final(self).done_state(),
                }
            }),
    {
        if self.done {
            return Err(Error::EOF);
        }
        if self.first {
            match self.get_first() {
                Ok(v) => v,
                Err(e) => {
                    self.done = true;
                    return Err(e);
                },
            };
            self.first = false;
        } else {
            match self.get_value() {
                Ok(v) => v,
                Err(e) => {
                    self.done = true;
                    return Err(e);
                },
            };
        }
        if self.curr == NAN {
            self.done = true;
            Err(Error::EOF)
        } else {
            Ok(self.curr)
        }
    }
}

impl Decode for Decoder {
    closed spec fn inv(&self) -> bool {
        self.wf()
    }

    closed spec fn next_value(&self) -> Option<u64> {
        if self.done_state() {
            None
        } else if self.first_state() {
            if self.consumed() + 64 <= self.bits().len() {
                let v = field_val(self.bits(), self.consumed(), 64);
                if v == NAN {
                    None
                } else {
                    Some(v)
                }
            } else {
                None
            }
        } else {
            match chimpn_parse(self.dec(), self.bits(), self.consumed()) {
                Some(sp) => if sp.0.curr == NAN {
                    None
                } else {
                    Some(sp.0.curr)
                },
                None => None,
            }
        }
    }

    fn get_next(&mut self) -> (r: Result<u64, Error>) {
        self.get_next()
    }
}

/// Decode samples from `pos` until the sentinel, the end of the stream, or
/// exhausted fuel.
pub open spec fn chimpn_decode_from(s: Seq<bool>, pos: nat, st: ChimpNDec, fuel: nat) -> Seq<
    u64,
>
    decreases fuel,
{
    if fuel == 0 {
        Seq::empty()
    } else {
        match chimpn_parse(st, s, pos) {
            None => Seq::empty(),
            Some(sp) => {
                if sp.0.curr == NAN {
                    Seq::empty()
                } else {
                    seq![sp.0.curr] + chimpn_decode_from(s, sp.1, sp.0, (fuel - 1) as nat)
                }
            },
        }
    }
}

/// Decode a whole stream: the raw first sample seeds the ring, then
/// flag-coded samples follow until the sentinel.
pub open spec fn chimpn_decode(s: Seq<bool>) -> Seq<u64> {
    if s.len() < 64 {
        Seq::empty()
    } else {
        let v = field_val(s, 0, 64);
        if v == NAN {
            Seq::empty()
        } else {
            seq![v] + chimpn_decode_from(
                s,
                64,
                ChimpNDec {
                    curr: v,
                    lead: 0,
                    ring: Seq::new(128, |j: int| 0u64).update(0, v),
                    idx: 0,
                },
                s.len(),
            )
        }
    }
}

/// The decoder state that tracks an encoder state: the rings hold the same
/// samples, the mod-128 positions agree, the decoder reconstructed the
/// previous sample, and a meaningful class agrees.
pub open spec fn chimpn_mirror(est: ChimpNEnc, dst: ChimpNDec) -> bool {
    &&& dst.ring == est.ring
    &&& dst.idx == est.idx % 128
    &&& dst.curr == est.ring[(est.idx % 128) as int]
    &&& est.lead <= 24 ==> dst.lead == est.lead
}

/// Every sample emits at least one bit.
pub proof fn lemma_chimpn_emit_min(st: ChimpNEnc, x: u64)
    ensures
        chimpn_emit(st, x).len() >= 1,
{
}

/// One step keeps the encoder state well formed.
pub proof fn lemma_chimpn_step_wf(st: ChimpNEnc, x: u64)
    requires
        chimpn_enc_wf(st),
        st.idx + 1 < u64::MAX,
    ensures
        chimpn_enc_wf(chimpn_step(st, x)),
        !chimpn_step(st, x).first,
        chimpn_step(st, x).ring[(chimpn_step(st, x).idx % 128) as int] == x,
{
    let st2 = chimpn_step(st, x);
    lemma_lsb_mask(x);
    if st.first {
        assert(st2.idx % 128 == 0);
    } else {
        let r = chimpn_ref(st, x);
        if r.xor != 0 {
            crate::chimp::lemma_leading_round_le(u64_leading_zeros(r.xor) as nat);
        }
        assert(0 <= st2.idx % 128 < 128);
    }
}

/// The state after any nonempty run is well formed and holds its last sample
/// at the current ring position.
pub proof fn lemma_chimpn_run_wf(vals: Seq<u64>)
    requires
        vals.len() + 1 < u64::MAX,
    ensures
        chimpn_enc_wf(chimpn_run(vals)),
        chimpn_run(vals).idx + 1 < u64::MAX,
        vals.len() == 0 ==> chimpn_run(vals) == chimpn_init(),
        vals.len() > 0 ==> !chimpn_run(vals).first && chimpn_run(vals).ring[(chimpn_run(
            vals,
        ).idx % 128) as int] == vals.last(),
        chimpn_run(vals).idx + 1 <= vals.len() + 1,
    decreases vals.len(),
{
    if vals.len() > 0 {
        lemma_chimpn_run_wf(vals.drop_last());
        lemma_chimpn_step_wf(chimpn_run(vals.drop_last()), vals.last());
    }
}

proof fn lemma_chimpn_take_unfold(vals: Seq<u64>, k: int)
    requires
        0 <= k < vals.len(),
    ensures
        chimpn_run(vals.take(k + 1)) == chimpn_step(chimpn_run(vals.take(k)), vals[k]),
        chimpn_encode_bits(vals.take(k + 1)) == chimpn_encode_bits(vals.take(k)) + chimpn_emit(
            chimpn_run(vals.take(k)),
            vals[k],
        ),
{
    assert(vals.take(k + 1).drop_last() =~= vals.take(k));
    assert(vals.take(k + 1).last() == vals[k]);
}

/// Sample `k`'s emission stands in the full encoding at the offset where the
/// first `k` samples end.
proof fn lemma_chimpn_encode_at(vals: Seq<u64>, k: int)
    requires
        0 <= k < vals.len(),
    ensures
        ({
            let p = chimpn_encode_bits(vals.take(k)).len() as int;
            let e = chimpn_emit(chimpn_run(vals.take(k)), vals[k]);
            &&& p + e.len() == chimpn_encode_bits(vals.take(k + 1)).len()
            &&& chimpn_encode_bits(vals.take(k + 1)).len() <= chimpn_encode_bits(vals).len()
            &&& chimpn_encode_bits(vals).subrange(p, p + e.len()) == e
        }),
    decreases vals.len(),
{
    lemma_chimpn_take_unfold(vals, k);
    let p = chimpn_encode_bits(vals.take(k)).len() as int;
    let e = chimpn_emit(chimpn_run(vals.take(k)), vals[k]);
    if k == vals.len() - 1 {
        assert(vals.take(k + 1) =~= vals);
        assert(chimpn_encode_bits(vals).subrange(p, p + e.len()) =~= e);
    } else {
        let prefix = vals.drop_last();
        lemma_chimpn_encode_at(prefix, k);
        assert(vals.take(k) =~= prefix.take(k));
        assert(vals.take(k + 1) =~= prefix.take(k + 1));
        assert(chimpn_encode_bits(vals) == chimpn_encode_bits(prefix) + chimpn_emit(
            chimpn_run(prefix),
            vals.last(),
        ));
        assert(chimpn_encode_bits(vals).subrange(p, p + e.len()) =~= chimpn_encode_bits(
            prefix,
        ).subrange(p, p + e.len()));
    }
}

proof fn lemma_chimpn_encode_min_len(vals: Seq<u64>)
    ensures
        chimpn_encode_bits(vals).len() >= vals.len(),
    decreases vals.len(),
{
    if vals.len() > 0 {
        lemma_chimpn_encode_min_len(vals.drop_last());
        lemma_chimpn_emit_min(chimpn_run(vals.drop_last()), vals.last());
    }
}

/// The step-inverse: wherever the bits one sample emitted stand in a stream,
/// a mirroring decoder parses exactly those bits, reconstructs exactly that
/// sample, and mirrors the stepped encoder.
proof fn lemma_chimpn_parse_emit(est: ChimpNEnc, dst: ChimpNDec, x: u64, s: Seq<bool>, pos: nat)
    requires
        !est.first,
        chimpn_enc_wf(est),
        est.idx + 1 < u64::MAX,
        chimpn_dec_wf(dst),
        chimpn_mirror(est, dst),
        pos + chimpn_emit(est, x).len() <= s.len(),
        s.subrange(pos as int, pos + chimpn_emit(est, x).len() as int) == chimpn_emit(est, x),
    ensures
        ({
            let e = chimpn_emit(est, x);
            let r = chimpn_parse(dst, s, pos);
            &&& r is Some
            &&& r->Some_0.1 == pos + e.len()
            &&& r->Some_0.0.curr == x
            &&& chimpn_dec_wf(r->Some_0.0)
            &&& chimpn_mirror(chimpn_step(est, x), r->Some_0.0)
        }),
{
    let e = chimpn_emit(est, x);
    let rf = chimpn_ref(est, x);
    let refv = est.ring[rf.pi as int];
    lemma_bit64_single();
    lemma2_to64();
    vstd::arithmetic::div_mod::lemma_add_mod_noop(est.idx as int, 1int, 128int);
    assert(rf.pi < 128);
    assert forall|j: int| 0 <= j < e.len() implies s[pos as int + j] == e[j] by {
        assert(s.subrange(pos as int, pos + e.len() as int)[j] == e[j]);
    }
    if rf.sel {
        lemma_xor_cancel(refv, x);
        assert(rf.xor == refv ^ x);
    } else {
        lemma_xor_cancel(refv, x);
    }
    if rf.xor == 0 {
        assert(refv == x);
        lemma_bits_of_split(rf.pi as u64, 9, 2);
        let piu = rf.pi as u64;
        assert(piu >> 7u64 == 0 && piu < 512) by (bit_vector)
            requires
                piu < 128,
        ;
        assert(s.subrange(pos as int, (pos + 2) as int) =~= bits_of(0, 2)) by {
            assert(s[pos as int + 0] == e[0] && s[pos as int + 1] == e[1]);
        }
        lemma_val_of_bits_of(0, 2);
        let f = bits_of(rf.pi as u64, 7);
        assert forall|j: int|
            0 <= j < 7 implies s.subrange((pos + 2) as int, (pos + 9) as int)[j] == f[j] by {
            assert(s[pos as int + (2 + j)] == e[2 + j]);
            assert(e[2 + j] == (bits_of((rf.pi as u64) >> 7u64, 2) + f)[2 + j]);
        }
        assert(s.subrange((pos + 2) as int, (pos + 9) as int) =~= f);
        lemma_val_of_bits_of(rf.pi as u64, 7);
        let sp = chimpn_parse(dst, s, pos)->Some_0;
        assert(sp.0.ring =~= chimpn_step(est, x).ring);
    } else {
        let l = leading_round_spec(u64_leading_zeros(rf.xor) as nat);
        let t = u64_trailing_zeros(rf.xor) as nat;
        lemma_lead_trail_sum(rf.xor);
        crate::chimp::lemma_leading_round_le(u64_leading_zeros(rf.xor) as nat);
        lemma_leading_tables_inverse(u64_leading_zeros(rf.xor) as nat);
        if rf.sel {
            let cb = (64 - l - t) as nat;
            let tmp = ((128u64 | (rf.pi as u64)) << 9u64) | ((leading_enc_spec(l) as u64)
                << 6u64) | (cb as u64);
            lemma_chimpn_pack(rf.pi as u64, leading_enc_spec(l) as u64, cb as u64);
            lemma_bits_of_split(tmp, 18, 2);
            let f3 = bits_of(rf.xor >> (t as u64), cb);
            assert(e == bits_of(tmp, 18) + f3);
            assert(s.subrange(pos as int, (pos + 2) as int) =~= bits_of(1, 2)) by {
                assert(s[pos as int + 0] == e[0] && s[pos as int + 1] == e[1]);
                assert(e[0] == (bits_of(tmp >> 16u64, 2) + bits_of(tmp, 16))[0]);
                assert(e[1] == (bits_of(tmp >> 16u64, 2) + bits_of(tmp, 16))[1]);
            }
            lemma_val_of_bits_of(1, 2);
            let fld16 = bits_of(tmp, 16);
            assert forall|j: int|
                0 <= j < 16 implies s.subrange((pos + 2) as int, (pos + 18) as int)[j]
                == fld16[j] by {
                assert(s[pos as int + (2 + j)] == e[2 + j]);
                assert(e[2 + j] == (bits_of(tmp >> 16u64, 2) + fld16)[2 + j]);
            }
            assert(s.subrange((pos + 2) as int, (pos + 18) as int) =~= fld16);
            crate::bits::lemma_val_of_bits_of_mod(tmp, 16);
            lemma_pow2_adds(8, 8);
            assert(pow2(16) == 0x10000);
            assert(field_val(s, (pos + 2) as nat, 16) == tmp % 0x10000);
            lemma_window_bound(rf.xor, l, t);
            assert forall|j: int|
                0 <= j < cb implies s.subrange((pos + 18) as int, (pos + 18 + cb) as int)[j]
                == f3[j] by {
                assert(s[pos as int + (18 + j)] == e[18 + j]);
                assert(e[18 + j] == f3[j]);
            }
            assert(s.subrange((pos + 18) as int, (pos + 18 + cb) as int) =~= f3);
            lemma_val_of_bits_of(rf.xor >> (t as u64), cb);
            let sp = chimpn_parse(dst, s, pos)->Some_0;
            assert(sp.0.curr == x);
            assert(sp.0.ring =~= chimpn_step(est, x).ring);
        } else if l == est.lead {
            let cb = (64 - l) as nat;
            let f = bits_of(rf.xor, cb);
            assert(e == bits_of(2, 2) + f);
            assert(s.subrange(pos as int, (pos + 2) as int) =~= bits_of(2, 2)) by {
                assert(s[pos as int + 0] == e[0] && s[pos as int + 1] == e[1]);
            }
            lemma_val_of_bits_of(2, 2);
            lemma_window_bound(rf.xor, l, 0);
            let xr = rf.xor;
            assert(xr >> 0u64 == xr) by (bit_vector);
            assert forall|j: int|
                0 <= j < cb implies s.subrange((pos + 2) as int, (pos + 2 + cb) as int)[j]
                == f[j] by {
                assert(s[pos as int + (2 + j)] == e[2 + j]);
                assert(e[2 + j] == f[j]);
            }
            assert(s.subrange((pos + 2) as int, (pos + 2 + cb) as int) =~= f);
            lemma_val_of_bits_of(rf.xor, cb);
            let sp = chimpn_parse(dst, s, pos)->Some_0;
            assert(sp.0.curr == x);
            assert(sp.0.ring =~= chimpn_step(est, x).ring);
        } else {
            let cb = (64 - l) as nat;
            let f1 = bits_of(leading_enc_spec(l) as u64, 3);
            let f = bits_of(rf.xor, cb);
            assert(e == bits_of(3, 2) + f1 + f);
            assert(s.subrange(pos as int, (pos + 2) as int) =~= bits_of(3, 2)) by {
                assert(s[pos as int + 0] == e[0] && s[pos as int + 1] == e[1]);
            }
            lemma_val_of_bits_of(3, 2);
            assert forall|j: int|
                0 <= j < 3 implies s.subrange((pos + 2) as int, (pos + 5) as int)[j]
                == f1[j] by {
                assert(s[pos as int + (2 + j)] == e[2 + j]);
                assert(e[2 + j] == f1[j]);
            }
            assert(s.subrange((pos + 2) as int, (pos + 5) as int) =~= f1);
            lemma_val_of_bits_of(leading_enc_spec(l) as u64, 3);
            lemma_window_bound(rf.xor, l, 0);
            let xr = rf.xor;
            assert(xr >> 0u64 == xr) by (bit_vector);
            assert forall|j: int|
                0 <= j < cb implies s.subrange((pos + 5) as int, (pos + 5 + cb) as int)[j]
                == f[j] by {
                assert(s[pos as int + (5 + j)] == e[5 + j]);
                assert(e[5 + j] == f[j]);
            }
            assert(s.subrange((pos + 5) as int, (pos + 5 + cb) as int) =~= f);
            lemma_val_of_bits_of(rf.xor, cb);
            let sp = chimpn_parse(dst, s, pos)->Some_0;
            assert(sp.0.curr == x);
            assert(sp.0.ring =~= chimpn_step(est, x).ring);
        }
    }
}

/// Decoding from the end of the first `k` samples, in a state that mirrors
/// the encoder there, yields exactly the remaining samples.
proof fn lemma_chimpn_decode_suffix(
    vals: Seq<u64>,
    k: int,
    s: Seq<bool>,
    dst: ChimpNDec,
    fuel: nat,
)
    requires
        forall|i: int| 0 <= i < vals.len() ==> vals[i] != NAN,
        vals.len() + 2 < u64::MAX,
        1 <= k <= vals.len(),
        chimpn_stream_bits(vals).len() <= s.len(),
        s.subrange(0, chimpn_stream_bits(vals).len() as int) == chimpn_stream_bits(vals),
        chimpn_mirror(chimpn_run(vals.take(k)), dst),
        chimpn_dec_wf(dst),
        fuel >= vals.len() - k + 1,
    ensures
        chimpn_decode_from(s, chimpn_encode_bits(vals.take(k)).len(), dst, fuel) == vals.skip(
            k,
        ),
    decreases vals.len() - k,
{
    let full = chimpn_stream_bits(vals);
    let pos = chimpn_encode_bits(vals.take(k)).len();
    assert(forall|j: int| 0 <= j < full.len() ==> s[j] == full[j]) by {
        assert(forall|j: int| 0 <= j < full.len() ==> s.subrange(0, full.len() as int)[j]
            == full[j]);
    }
    assert(vals.take(k).len() == k);
    lemma_chimpn_run_wf(vals.take(k));
    if k == vals.len() {
        assert(vals.take(k) =~= vals);
        let e = chimpn_emit(chimpn_run(vals), NAN);
        assert(s.subrange(pos as int, pos + e.len() as int) =~= e) by {
            assert(forall|j: int|
                0 <= j < e.len() ==> full[pos + j] == e[j] && s[pos + j] == full[pos + j]);
        }
        lemma_chimpn_parse_emit(chimpn_run(vals), dst, NAN, s, pos);
        assert(chimpn_decode_from(s, pos, dst, fuel) =~= vals.skip(k));
    } else {
        let est = chimpn_run(vals.take(k));
        let x = vals[k];
        let e = chimpn_emit(est, x);
        lemma_chimpn_encode_at(vals, k);
        lemma_chimpn_take_unfold(vals, k);
        assert(s.subrange(pos as int, pos + e.len() as int) =~= e) by {
            assert(chimpn_encode_bits(vals).subrange(pos as int, pos + e.len() as int) == e);
            assert(forall|j: int| 0 <= j < chimpn_encode_bits(vals).len() ==> full[j]
                == chimpn_encode_bits(vals)[j]);
            assert(forall|j: int|
                0 <= j < e.len() ==> s[pos + j] == full[pos + j] && full[pos + j] == e[j]);
        }
        lemma_chimpn_parse_emit(est, dst, x, s, pos);
        let sp = chimpn_parse(dst, s, pos)->Some_0;
        lemma_chimpn_decode_suffix(vals, k + 1, s, sp.0, (fuel - 1) as nat);
        assert(chimpn_decode_from(s, pos, dst, fuel) =~= vals.skip(k));
    }
}

/// The Chimp-128 round-trip law: for any finite sequence of samples free of
/// the sentinel pattern, decoding any stream that begins with the closed
/// encoding yields exactly that sequence.
pub proof fn lemma_chimpn_round_trip(vals: Seq<u64>, s: Seq<bool>)
    requires
        forall|i: int| 0 <= i < vals.len() ==> vals[i] != NAN,
        vals.len() + 2 < u64::MAX,
        chimpn_stream_bits(vals).len() <= s.len(),
        s.subrange(0, chimpn_stream_bits(vals).len() as int) == chimpn_stream_bits(vals),
    ensures
        chimpn_decode(s) == vals,
{
    let full = chimpn_stream_bits(vals);
    lemma2_to64_rest();
    assert(forall|j: int| 0 <= j < full.len() ==> s[j] == full[j]) by {
        assert(forall|j: int| 0 <= j < full.len() ==> s.subrange(0, full.len() as int)[j]
            == full[j]);
    }
    if vals.len() == 0 {
        assert(full == bits_of(NAN, 64) + bits_of(0, 1));
        assert(s.subrange(0, 64) =~= bits_of(NAN, 64));
        lemma_val_of_bits_of(NAN, 64);
        assert(chimpn_decode(s) =~= vals);
    } else {
        lemma_chimpn_take_unfold(vals, 0);
        assert(vals.take(0) =~= Seq::<u64>::empty());
        assert(chimpn_encode_bits(vals.take(1)) == chimpn_emit(chimpn_init(), vals[0]));
        lemma_chimpn_encode_at(vals, 0);
        lemma_chimpn_encode_min_len(vals);
        assert(s.subrange(0, 64) =~= bits_of(vals[0], 64)) by {
            assert(chimpn_encode_bits(vals).subrange(0, 64) == bits_of(vals[0], 64));
        }
        lemma_val_of_bits_of(vals[0], 64);
        assert(field_val(s, 0, 64) == vals[0]);
        let dst0 = ChimpNDec {
            curr: vals[0],
            lead: 0,
            ring: Seq::new(128, |j: int| 0u64).update(0, vals[0]),
            idx: 0,
        };
        assert(chimpn_mirror(chimpn_run(vals.take(1)), dst0)) by {
            assert(chimpn_run(vals.take(1)) == chimpn_step(chimpn_init(), vals[0]));
            assert(chimpn_run(vals.take(1)).ring =~= dst0.ring);
        }
        lemma_chimpn_decode_suffix(vals, 1, s, dst0, s.len());
        assert(chimpn_encode_bits(vals.take(1)).len() == 64);
        assert(chimpn_decode(s) =~= vals) by {
            assert(chimpn_decode_from(s, 64, dst0, s.len()) == vals.skip(1));
        }
    }
}

/// Any sample whose selected reference already holds its bits costs exactly
/// the 9-bit zero-XOR form: the ring slot index under two zero framing bits.
/// The ring, its position and the index table advance as for every sample.
pub proof fn lemma_chimpn_zero_xor(st: ChimpNEnc, x: u64)
    requires
        chimpn_enc_wf(st),
        !st.first,
        chimpn_ref(st, x).xor == 0,
    ensures
        chimpn_emit(st, x) == bits_of(chimpn_ref(st, x).pi as u64, 9),
        chimpn_ref(st, x).pi < 128,
        chimpn_emit(st, x).len() == 9,
        !chimpn_emit(st, x)[0],
        !chimpn_emit(st, x)[1],
        chimpn_step(st, x).ring == st.ring.update(((st.idx + 1) % 128) as int, x),
        chimpn_step(st, x).idx == st.idx + 1,
        chimpn_step(st, x).indices == st.indices.update(
            (x & LSB_MASK) as int,
            (st.idx + 1) as u64,
        ),
{
    let pi = chimpn_ref(st, x).pi;
    assert(pi < 128);
    lemma2_to64();
    crate::bits::lemma_high_bits_zero(pi as u64, 7);
}

/// A repeat of the sample just stored costs the 9-bit zero-XOR form, its
/// low 7 bits pointing at the ring slot holding that sample.
pub proof fn lemma_chimpn_repeat(st0: ChimpNEnc, x: u64)
    requires
        chimpn_enc_wf(st0),
        st0.idx + 1 < u64::MAX,
    ensures
        ({
            let st = chimpn_step(st0, x);
            chimpn_emit(st, x) == bits_of((st.idx % 128) as u64, 9)
        }),
{
    let st = chimpn_step(st0, x);
    lemma_lsb_mask(x);
    lemma_chimpn_step_wf(st0, x);
    lemma_xor_cancel(st.ring[(st.idx % 128) as int], x);
    vstd::std_specs::bits::axiom_u64_trailing_zeros(0);
    assert(st.indices[(x & LSB_MASK) as int] == st.idx);
    assert(chimpn_ref(st, x).xor == 0);
    lemma_chimpn_zero_xor(st, x);
}

/// A single sample: the closed stream is the raw 64 sample bits followed by
/// the sentinel framing, and decoding yields exactly that sample.
pub proof fn lemma_chimpn_single_sample(x: u64, s: Seq<bool>)
    requires
        x != NAN,
        chimpn_stream_bits(seq![x]).len() <= s.len(),
        s.subrange(0, chimpn_stream_bits(seq![x]).len() as int) == chimpn_stream_bits(seq![x]),
    ensures
        chimpn_stream_bits(seq![x]) == bits_of(x, 64) + chimpn_emit(chimpn_run(seq![x]), NAN)
            + bits_of(0, 1),
        chimpn_decode(s) == seq![x],
{
    let v1 = seq![x];
    assert(v1.len() == 1 && v1.drop_last() =~= Seq::<u64>::empty() && v1.last() == x);
    assert(chimpn_run(v1.drop_last()) == chimpn_init());
    assert(chimpn_encode_bits(v1.drop_last()) == Seq::<bool>::empty());
    assert(chimpn_encode_bits(v1) == chimpn_encode_bits(v1.drop_last()) + chimpn_emit(chimpn_init(), x));
    assert(chimpn_encode_bits(v1) =~= bits_of(x, 64));
    lemma_chimpn_round_trip(seq![x], s);
}

/// The round trip stated on what `close` hands over: a word buffer holding
/// the closed stream plus zero padding decodes to exactly the encoded
/// samples.
pub proof fn lemma_chimpn_closed_decode(vals: Seq<u64>, words: Seq<u64>, pad: nat)
    requires
        forall|i: int| 0 <= i < vals.len() ==> vals[i] != NAN,
        vals.len() + 2 < u64::MAX,
        words_bits(words) == chimpn_stream_bits(vals) + zero_bits(pad),
    ensures
        chimpn_decode(words_bits(words)) == vals,
{
    let full = chimpn_stream_bits(vals);
    let s = words_bits(words);
    assert(s.subrange(0, full.len() as int) =~= full);
    lemma_chimpn_round_trip(vals, s);
}

/// The exact cost of a constant run: 64 raw bits, then nine bits per repeat;
/// the run keeps the sample at the current ring slot and in the index table.
proof fn lemma_chimpn_constant_len(x: u64, n: nat)
    requires
        1 <= n,
        n + 1 < u64::MAX,
    ensures
        ({
            let c = Seq::new(n, |j: int| x);
            &&& chimpn_encode_bits(c).len() == 64 + 9 * (n - 1)
            &&& chimpn_run(c).idx == n - 1
            &&& chimpn_run(c).indices[(x & LSB_MASK) as int] == (n - 1) as u64
            &&& chimpn_run(c).ring[(chimpn_run(c).idx % 128) as int] == x
        }),
    decreases n,
{
    let c = Seq::new(n, |j: int| x);
    assert(c[n as int - 1] == x);
    assert(c.last() == x);
    lemma_lsb_mask(x);
    lemma_chimpn_run_wf(c);
    if n == 1 {
        assert(c.drop_last() =~= Seq::<u64>::empty());
        assert(chimpn_encode_bits(c.drop_last()) == Seq::<bool>::empty());
        assert(chimpn_run(c.drop_last()) == chimpn_init());
        assert(chimpn_encode_bits(c) == chimpn_encode_bits(c.drop_last()) + chimpn_emit(
            chimpn_run(c.drop_last()),
            x,
        ));
        assert(chimpn_encode_bits(c) =~= chimpn_emit(chimpn_init(), x));
        assert(chimpn_run(c) == chimpn_step(chimpn_init(), x));
    } else {
        let c0 = c.drop_last();
        assert(c0 =~= Seq::new((n - 1) as nat, |j: int| x));
        assert(c0[n as int - 2] == c[n as int - 2] && c[n as int - 2] == x);
        lemma_chimpn_constant_len(x, (n - 1) as nat);
        lemma_chimpn_run_wf(c0);
        let st = chimpn_run(c0);
        lemma_xor_cancel(st.ring[(st.idx % 128) as int], x);
        vstd::std_specs::bits::axiom_u64_trailing_zeros(0);
        assert(chimpn_ref(st, x).xor == 0);
        lemma_chimpn_zero_xor(st, x);
        assert(chimpn_encode_bits(c) == chimpn_encode_bits(c0) + chimpn_emit(st, x));
        vstd::arithmetic::div_mod::lemma_add_mod_noop(st.idx as int, 1int, 128int);
    }
}

/// Compression on a constant run: from four samples on, the closed stream is
/// strictly smaller than raw 64-bit storage. With close's bound
/// `64 * words < stream + 64`, the closed buffer stays below `64 * n` bits.
pub proof fn lemma_chimpn_constant_run_compresses(x: u64, n: nat)
    requires
        4 <= n,
        n + 1 < u64::MAX,
    ensures
        chimpn_stream_bits(Seq::new(n, |j: int| x)).len() + 64 <= 64 * n,
{
    let c = Seq::new(n, |j: int| x);
    lemma_chimpn_constant_len(x, n);
    lemma_chimpn_run_wf(c);
    lemma_chimpn_emit_len(chimpn_run(c), NAN);
    assert(64 + 9 * (n - 1) + 82 + 1 + 64 <= 64 * n) by (nonlinear_arith)
        requires
            4 <= n,
    ;
}

} // verus!
