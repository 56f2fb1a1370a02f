//! Lossless compression for streams of 64-bit IEEE-754 values, given to the
//! library as their raw bit patterns. Four XOR-based streaming codecs —
//! Gorilla, Chimp, Chimp-128 and Patas — share a bit-level stream
//! abstraction. Each codec turns an ordered sequence of 64-bit patterns into
//! a compact bit stream; the paired decoder reconstructs the original
//! sequence exactly.

pub mod aligned;
pub mod bits;
pub mod bitstream;
pub mod chimp;
pub mod chimpn;
pub mod gorilla;

use vstd::prelude::*;

verus! {

/// The canonical quiet-NaN bit pattern that marks end-of-stream.
pub const NAN: u64 = 0x7FF8000000000000;

/// A single bit read from an input stream.
#[derive(PartialEq, Eq, Structural, Clone, Copy, Debug)]
pub enum Bit {
    Zero,
    One,
}

impl Bit {
    pub fn into_64(&self) -> (r: u64)
        ensures
            r == if self is One { 1u64 } else { 0u64 },
    {
        match self {
            Bit::Zero => 0,
            Bit::One => 1,
        }
    }
}

/// The decoding capability every codec offers: pull the next reconstructed
/// 64-bit pattern, or learn that the stream has ended. Each codec defines
/// `next_value` from its own parse step, so the trait method's result is
/// pinned exactly.
pub trait Decode {
    spec fn inv(&self) -> bool;

    /// The sample this decoder reconstructs on its next pull, or `None` when
    /// it reports end-of-stream instead.
    spec fn next_value(&self) -> Option<u64>;

    fn get_next(&mut self) -> (r: Result<u64, bitstream::Error>)
        requires
            old(self).inv(),
        ensures
            final(self).inv(),
            match old(self).next_value() {
                Some(v) => r == Ok::<u64, bitstream::Error>(v),
                None => r == Err::<u64, bitstream::Error>(bitstream::Error::EOF),
            },
    ;
}

/// Which codec a driver runs.
#[derive(Debug, Clone, Copy, PartialEq, Eq, Structural)]
pub enum ChimpType {
    Chimp,
    ChimpN,
    SIMD,
    Gorilla,
    Rayon,
    Patas,
}

/// A measured leading-zero count quantized to its representative:
/// the `LEADING_ROUND` table.
pub open spec fn leading_round_spec(l: nat) -> nat {
    if l < 8 {
        0
    } else if l < 12 {
        8
    } else if l < 16 {
        12
    } else if l < 18 {
        16
    } else if l < 20 {
        18
    } else if l < 22 {
        20
    } else if l < 24 {
        22
    } else {
        24
    }
}

/// The 3-bit class of a quantized leading-zero representative:
/// the `LEADING_REPR_ENC` table.
pub open spec fn leading_enc_spec(l: nat) -> nat {
    if l < 8 {
        0
    } else if l < 12 {
        1
    } else if l < 16 {
        2
    } else if l < 18 {
        3
    } else if l < 20 {
        4
    } else if l < 22 {
        5
    } else if l < 24 {
        6
    } else {
        7
    }
}

/// A 3-bit class back to its quantized representative:
/// the `LEADING_REPR_DEC` table, the inverse of `LEADING_REPR_ENC`.
pub open spec fn leading_dec_spec(c: nat) -> nat {
    if c == 0 {
        0
    } else if c == 1 {
        8
    } else if c == 2 {
        12
    } else if c == 3 {
        16
    } else if c == 4 {
        18
    } else if c == 5 {
        20
    } else if c == 6 {
        22
    } else {
        24
    }
}

pub fn leading_round(l: u32) -> (r: u32)
    ensures
        r == leading_round_spec(l as nat),
        r <= 24,
        r <= l,
{
    if l < 8 {
        0
    } else if l < 12 {
        8
    } else if l < 16 {
        12
    } else if l < 18 {
        16
    } else if l < 20 {
        18
    } else if l < 22 {
        20
    } else if l < 24 {
        22
    } else {
        24
    }
}

pub fn leading_enc(l: u32) -> (r: u32)
    ensures
        r == leading_enc_spec(l as nat),
        r < 8,
{
    if l < 8 {
        0
    } else if l < 12 {
        1
    } else if l < 16 {
        2
    } else if l < 18 {
        3
    } else if l < 20 {
        4
    } else if l < 22 {
        5
    } else if l < 24 {
        6
    } else {
        7
    }
}

pub fn leading_dec(c: u32) -> (r: u32)
    ensures
        r == leading_dec_spec(c as nat),
        r <= 24,
{
    if c == 0 {
        0
    } else if c == 1 {
        8
    } else if c == 2 {
        12
    } else if c == 3 {
        16
    } else if c == 4 {
        18
    } else if c == 5 {
        20
    } else if c == 6 {
        22
    } else {
        24
    }
}

/// The class of a representative decodes back to that representative.
pub broadcast proof fn lemma_leading_tables_inverse(l: nat)
    ensures
        #[trigger] leading_dec_spec(leading_enc_spec(leading_round_spec(l)))
            == leading_round_spec(l),
{
}

} // verus!
