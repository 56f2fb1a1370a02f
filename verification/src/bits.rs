//! The mathematical model shared by the bit stream and the codecs: a 64-bit
//! word as a sequence of bits (most significant first), the value a bit
//! sequence denotes, and the flattening of a word buffer into one bit
//! sequence.

use vstd::prelude::*;
use vstd::arithmetic::power2::*;
use vstd::bits::*;
use vstd::std_specs::bits::{
    axiom_u64_leading_zeros, axiom_u64_trailing_zeros, u64_leading_zeros, u64_trailing_zeros,
};

verus! {

/// Bit `i` of `v`, where bit 0 is the least significant.
pub open spec fn bit64(v: u64, i: u64) -> bool {
    ((v >> i) & 1) == 1
}

/// The low `len` bits of `v`, most significant first.
pub open spec fn bits_of(v: u64, len: nat) -> Seq<bool> {
    Seq::new(len, |j: int| bit64(v, (len - 1 - j) as u64))
}

/// The value denoted by a bit sequence read most significant first.
pub open spec fn val_of(s: Seq<bool>) -> nat
    decreases s.len(),
{
    if s.len() == 0 {
        0
    } else {
        2 * val_of(s.drop_last()) + (if s.last() {
            1nat
        } else {
            0nat
        })
    }
}

/// All bits of a word sequence, each word most significant bit first.
pub open spec fn words_bits(ws: Seq<u64>) -> Seq<bool>
    decreases ws.len(),
{
    if ws.len() == 0 {
        Seq::empty()
    } else {
        words_bits(ws.drop_last()) + bits_of(ws.last(), 64)
    }
}

/// `n` zero bits.
pub open spec fn zero_bits(n: nat) -> Seq<bool> {
    Seq::new(n, |j: int| false)
}

/// The value of the `len`-bit field at bit position `pos` of `s`: what
/// reading `len` bits there returns.
pub open spec fn field_val(s: Seq<bool>, pos: nat, len: nat) -> u64 {
    val_of(s.subrange(pos as int, (pos + len) as int)) as u64
}

/// The high `p` bits of `w`, most significant first: the bits a partially
/// filled word accumulator holds.
pub open spec fn high_bits(w: u64, p: nat) -> Seq<bool> {
    Seq::new(p, |j: int| bit64(w, (63 - j) as u64))
}

pub broadcast proof fn lemma_bit64_or(a: u64, b: u64, i: u64)
    requires
        i < 64,
    ensures
        #[trigger] bit64(a | b, i) == (bit64(a, i) || bit64(b, i)),
{
    assert((((a | b) >> i) & 1 == 1) == ((((a >> i) & 1) == 1) || (((b >> i) & 1) == 1)))
        by (bit_vector)
        requires
            i < 64,
    ;
}

pub broadcast proof fn lemma_bit64_xor(a: u64, b: u64, i: u64)
    requires
        i < 64,
    ensures
        #[trigger] bit64(a ^ b, i) == (bit64(a, i) != bit64(b, i)),
{
    assert((((a ^ b) >> i) & 1 == 1) == ((((a >> i) & 1) == 1) != (((b >> i) & 1) == 1)))
        by (bit_vector)
        requires
            i < 64,
    ;
}

pub broadcast proof fn lemma_bit64_shl(x: u64, s: u64, i: u64)
    requires
        s < 64,
        i < 64,
    ensures
        #[trigger] bit64(x << s, i) == (s <= i && bit64(x, (i - s) as u64)),
{
    if s <= i {
        let j = (i - s) as u64;
        assert((((x << s) >> i) & 1 == 1) == (((x >> j) & 1) == 1)) by (bit_vector)
            requires
                i < 64,
                s < 64,
                s <= i,
                j + s == i,
        ;
    } else {
        assert(((x << s) >> i) & 1 == 0) by (bit_vector)
            requires
                i < 64,
                s < 64,
                i < s,
        ;
    }
}

pub broadcast proof fn lemma_bit64_shr(x: u64, s: u64, i: u64)
    requires
        s < 64,
        i < 64,
    ensures
        #[trigger] bit64(x >> s, i) == (i + s < 64 && bit64(x, (i + s) as u64)),
{
    if i + s < 64 {
        let j = (i + s) as u64;
        assert((((x >> s) >> i) & 1 == 1) == (((x >> j) & 1) == 1)) by (bit_vector)
            requires
                i < 64,
                s < 64,
                i + s < 64,
                j == i + s,
        ;
    } else {
        assert(((x >> s) >> i) & 1 == 0) by (bit_vector)
            requires
                i < 64,
                s < 64,
                i + s >= 64,
        ;
    }
}

/// A value below `pow2(k)` has no bit at position `k` or above.
pub proof fn lemma_high_bits_zero(x: u64, k: u64)
    requires
        k < 64,
        x < pow2(k as nat),
    ensures
        forall|i: u64| k <= i < 64 ==> !bit64(x, i),
{
    lemma_pow2_shr_zero(x, k);
    assert forall|i: u64| k <= i < 64 implies !bit64(x, i) by {
        assert(x >> k == 0 && k <= i < 64 ==> ((x >> i) & 1) == 0) by (bit_vector);
    }
}

/// `x < pow2(k)` exactly when shifting `x` right by `k` gives zero.
pub proof fn lemma_pow2_shr_zero(x: u64, k: u64)
    requires
        k < 64,
    ensures
        (x >> k == 0) <==> (x < pow2(k as nat)),
{
    lemma_u64_shr_is_div(x, k);
    lemma_u64_pow2_no_overflow(k as nat);
    if x < pow2(k as nat) {
        vstd::arithmetic::div_mod::lemma_basic_div(x as int, pow2(k as nat) as int);
    } else {
        vstd::arithmetic::div_mod::lemma_div_non_zero(x as int, pow2(k as nat) as int);
    }
}

/// Dropping the last bit of `bits_of(v, len)` shows the bits of `v >> 1`.
proof fn lemma_bits_of_drop_last(v: u64, len: nat)
    requires
        1 <= len <= 64,
    ensures
        bits_of(v, len).drop_last() =~= bits_of(v >> 1, (len - 1) as nat),
{
    assert forall|j: int| 0 <= j < len - 1 implies bits_of(v, len).drop_last()[j] == bits_of(
        v >> 1,
        (len - 1) as nat,
    )[j] by {
        lemma_bit64_shr(v, 1, (len - 2 - j) as u64);
    }
}

/// Reading back the low `len` bits of `v` yields `v` itself.
pub proof fn lemma_val_of_bits_of(v: u64, len: nat)
    requires
        len <= 64,
        v < pow2(len),
    ensures
        val_of(bits_of(v, len)) == v,
    decreases len,
{
    if len == 0 {
        lemma2_to64();
        assert(bits_of(v, 0) =~= Seq::<bool>::empty());
    } else {
        let s = bits_of(v, len);
        lemma_bits_of_drop_last(v, len);
        lemma_u64_shr_is_div(v, 1);
        lemma2_to64();
        assert(v >> 1 == v as nat / 2);
        lemma_pow2_unfold(len);
        assert(pow2(len) == 2 * pow2((len - 1) as nat));
        assert((v as int) / 2 < pow2((len - 1) as nat)) by (nonlinear_arith)
            requires
                v < 2 * pow2((len - 1) as nat),
        ;
        lemma_val_of_bits_of(v >> 1, (len - 1) as nat);
        assert(val_of(s.drop_last()) == v >> 1);
        assert(s.last() == bit64(v, 0));
        assert((((v >> 0) & 1) == 1) == (v % 2 == 1)) by (bit_vector);
        assert(v == 2 * (v as int / 2) + (v as int % 2));
        assert(val_of(s) == 2 * (v as int / 2) + (if v % 2 == 1 { 1int } else { 0int }));
        assert(v % 2 == 1 || v % 2 == 0);
    }
}

/// The value of the low `len` bits of `v` is `v` modulo `pow2(len)`.
pub proof fn lemma_val_of_bits_of_mod(v: u64, len: nat)
    requires
        len <= 64,
    ensures
        val_of(bits_of(v, len)) == v as nat % pow2(len),
    decreases len,
{
    if len == 0 {
        lemma2_to64();
        assert(bits_of(v, 0) =~= Seq::<bool>::empty());
    } else {
        let s = bits_of(v, len);
        lemma_bits_of_drop_last(v, len);
        lemma_u64_shr_is_div(v, 1);
        lemma2_to64();
        assert(v >> 1 == v as nat / 2);
        lemma_pow2_unfold(len);
        let p1 = pow2((len - 1) as nat);
        lemma_pow2_pos((len - 1) as nat);
        lemma_val_of_bits_of_mod(v >> 1, (len - 1) as nat);
        assert(val_of(s.drop_last()) == (v as int / 2) % (p1 as int));
        assert(s.last() == bit64(v, 0));
        assert((((v >> 0) & 1) == 1) == (v % 2 == 1)) by (bit_vector);
        vstd::arithmetic::div_mod::lemma_mod_breakdown(v as int, 2, p1 as int);
        assert(v as int % (2 * p1 as int) == 2 * ((v as int / 2) % (p1 as int)) + (v as int)
            % 2);
        assert(v % 2 == 1 || v % 2 == 0);
    }
}

/// The low-bits mask written as a right shift of the all-ones word.
pub proof fn lemma_max_shr_mask(s: u64)
    requires
        s < 64,
    ensures
        (u64::MAX >> s) as nat == low_bits_mask((64 - s) as nat),
{
    lemma_u64_shr_is_div(u64::MAX, s);
    lemma_pow2_adds(s as nat, (64 - s) as nat);
    lemma2_to64_rest();
    lemma_pow2_pos(s as nat);
    lemma_pow2_pos((64 - s) as nat);
    let d = pow2(s as nat) as int;
    let q = pow2((64 - s) as nat) as int - 1;
    assert(u64::MAX as int == q * d + (d - 1)) by (nonlinear_arith)
        requires
            d == pow2(s as nat),
            q == pow2((64 - s) as nat) - 1,
            pow2(s as nat) * pow2((64 - s) as nat) == pow2(64),
            u64::MAX as int == pow2(64) - 1,
    ;
    vstd::arithmetic::div_mod::lemma_fundamental_div_mod_converse(
        u64::MAX as int,
        d,
        q,
        d - 1,
    );
}

/// Masking with the low `len` bits is taking the value modulo `pow2(len)`.
pub proof fn lemma_mask_mod(x: u64, len: u64)
    requires
        1 <= len <= 64,
    ensures
        (x & (u64::MAX >> ((64 - len) as u64))) == x as nat % pow2(len as nat),
{
    lemma_max_shr_mask((64 - len) as u64);
    if len < 64 {
        lemma_u64_low_bits_mask_is_mod(x, len as nat);
        lemma_u64_pow2_no_overflow(len as nat);
    } else {
        assert(u64::MAX >> 0u64 == u64::MAX) by (bit_vector);
        assert(x & u64::MAX == x) by (bit_vector);
        lemma2_to64_rest();
        vstd::arithmetic::div_mod::lemma_small_mod(x as nat, pow2(64));
    }
}

/// A bit sequence denotes a value below `pow2` of its length.
pub proof fn lemma_val_of_bound(s: Seq<bool>)
    ensures
        val_of(s) < pow2(s.len()),
    decreases s.len(),
{
    if s.len() == 0 {
        lemma2_to64();
    } else {
        lemma_val_of_bound(s.drop_last());
        lemma_pow2_unfold(s.len());
    }
}

/// The value of a concatenation: the first part is shifted up by the length
/// of the second.
pub proof fn lemma_val_of_concat(a: Seq<bool>, b: Seq<bool>)
    ensures
        val_of(a + b) == val_of(a) * pow2(b.len()) + val_of(b),
    decreases b.len(),
{
    if b.len() == 0 {
        assert(a + b =~= a);
        lemma2_to64();
        assert(pow2(0) == 1);
        assert(val_of(b) == 0);
        assert(val_of(a) * 1 == val_of(a)) by (nonlinear_arith);
    } else {
        assert((a + b).drop_last() =~= a + b.drop_last());
        assert((a + b).last() == b.last());
        lemma_val_of_concat(a, b.drop_last());
        lemma_pow2_unfold(b.len());
        let p1 = pow2((b.len() - 1) as nat);
        assert(pow2(b.len()) == 2 * p1);
        let last: nat = if b.last() {
            1nat
        } else {
            0nat
        };
        assert(val_of(a + b) == 2 * (val_of(a) * p1 + val_of(b.drop_last())) + last);
        assert(val_of(b) == 2 * val_of(b.drop_last()) + last);
        assert(2 * (val_of(a) * p1 + val_of(b.drop_last())) + last == val_of(a) * (2 * p1) + (2
            * val_of(b.drop_last()) + last)) by (nonlinear_arith);
    }
}

/// A subrange of the bits of `v` is itself the bits of a shifted `v`.
pub proof fn lemma_bits_of_subrange(v: u64, len: nat, a: int, b: int)
    requires
        0 <= a <= b <= len <= 64,
        b >= 1,
    ensures
        bits_of(v, len).subrange(a, b) =~= bits_of(v >> ((len - b) as u64), (b - a) as nat),
{
    assert forall|j: int| 0 <= j < b - a implies bits_of(v, len).subrange(a, b)[j] == bits_of(
        v >> ((len - b) as u64),
        (b - a) as nat,
    )[j] by {
        lemma_bit64_shr(v, (len - b) as u64, (b - 1 - a - j) as u64);
    }
}

/// A bit field splits at any boundary: the high `k` bits are the bits of the
/// value shifted down, the rest are the bits of the value itself.
pub proof fn lemma_bits_of_split(v: u64, len: nat, k: nat)
    requires
        1 <= k <= len,
        len <= 64,
    ensures
        bits_of(v, len) =~= bits_of(v >> ((len - k) as u64), k) + bits_of(v, (len - k) as nat),
{
    assert forall|j: int| 0 <= j < len implies bits_of(v, len)[j] == (bits_of(
        v >> ((len - k) as u64),
        k,
    ) + bits_of(v, (len - k) as nat))[j] by {
        if j < k {
            lemma_bit64_shr(v, (len - k) as u64, (k - 1 - j) as u64);
        }
    }
}

/// Shifting right keeps a value below `pow2` of the remaining width.
pub proof fn lemma_shr_bound(x: u64, s: u64)
    requires
        s < 64,
    ensures
        (x >> s) < pow2((64 - s) as nat),
{
    if s == 0 {
        assert(x >> 0 == x) by (bit_vector);
        lemma2_to64_rest();
    } else {
        let j = (64 - s) as u64;
        assert((x >> s) >> j == 0) by (bit_vector)
            requires
                0 < s < 64 && s + j == 64,
        ;
        lemma_pow2_shr_zero(x >> s, j);
    }
}

/// Shifting a bounded value right tightens the bound by the shift.
pub proof fn lemma_shr_lt(x: u64, s: u64, k: nat)
    requires
        x < pow2(k),
        s <= k,
        k <= 64,
        s < 64,
    ensures
        (x >> s) < pow2((k - s) as nat),
{
    lemma_u64_shr_is_div(x, s);
    lemma_pow2_adds(s as nat, (k - s) as nat);
    lemma_pow2_pos(s as nat);
    assert((x as int / pow2(s as nat) as int) < pow2((k - s) as nat)) by (nonlinear_arith)
        requires
            x < pow2(s as nat) * pow2((k - s) as nat),
            pow2(s as nat) > 0,
    ;
}

/// Oring a field of `len` bits, shifted below the `p` bits a word already
/// holds, extends the held high bits by exactly that field.
pub proof fn lemma_high_bits_or_field(c: u64, w: u64, p: nat, len: nat)
    requires
        p + len <= 64,
        1 <= len,
        w < pow2(len),
        forall|i: u64| i < 64 - p ==> !bit64(c, i),
    ensures
        high_bits(c | (w << ((64 - len - p) as u64)), (p + len) as nat) =~= high_bits(c, p)
            + bits_of(w, len),
        forall|i: u64| i < 64 - p - len ==> !#[trigger] bit64(
            c | (w << ((64 - len - p) as u64)),
            i,
        ),
{
    let sh = (64 - len - p) as u64;
    let c2 = c | (w << sh);
    if len < 64 {
        lemma_high_bits_zero(w, len as u64);
    }
    assert forall|i: u64| i < 64 implies #[trigger] bit64(c2, i) == (bit64(c, i) || (sh <= i
        && bit64(w, (i - sh) as u64))) by {
        lemma_bit64_or(c, w << sh, i);
        lemma_bit64_shl(w, sh, i);
    }
    assert forall|j: int| 0 <= j < p + len implies high_bits(c2, (p + len) as nat)[j] == (
    high_bits(c, p) + bits_of(w, len))[j] by {
        let i = (63 - j) as u64;
        if j < p {
            assert(!(sh <= i && bit64(w, (i - sh) as u64)));
        } else {
            assert(!bit64(c, i));
            assert(i - sh == len + p - 1 - j);
        }
    }
}

/// A nonzero value is bounded by `pow2` of its width without leading zeros.
pub proof fn lemma_leading_bound(x: u64)
    requires
        x != 0,
    ensures
        0 <= u64_leading_zeros(x) <= 63,
        x < pow2((64 - u64_leading_zeros(x)) as nat),
{
    axiom_u64_leading_zeros(x);
    let lz = u64_leading_zeros(x);
    let k = (64 - lz) as u64;
    if k == 64 {
        lemma2_to64_rest();
    } else {
        lemma_pow2_shr_zero(x, k);
    }
}

/// Shifting down by at most the trailing-zero count and back up restores the
/// value: no set bit is lost.
pub proof fn lemma_trailing_shift(x: u64, t: u64)
    requires
        t <= u64_trailing_zeros(x),
        t < 64,
    ensures
        ((x >> t) << t) == x,
{
    axiom_u64_trailing_zeros(x);
    let tz = u64_trailing_zeros(x) as u64;
    let s = (64 - tz) as u64;
    assert(((x >> t) << t) == x) by (bit_vector)
        requires
            t <= tz,
            tz <= 64,
            s + tz == 64,
            x << s == 0,
            t < 64,
    ;
}

/// A nonzero value's leading- and trailing-zero runs leave at least one
/// significant bit between them.
pub proof fn lemma_lead_trail_sum(x: u64)
    requires
        x != 0,
    ensures
        0 <= u64_leading_zeros(x) <= 63,
        u64_trailing_zeros(x) <= 63,
        u64_leading_zeros(x) + u64_trailing_zeros(x) <= 63,
{
    axiom_u64_leading_zeros(x);
    axiom_u64_trailing_zeros(x);
    let lz = u64_leading_zeros(x);
    let tz = u64_trailing_zeros(x) as u64;
    if lz + tz >= 64 {
        assert((x >> tz) & 1u64 == 1u64);
        assert(64 - lz <= tz < 64);
        assert((x >> tz) & 1u64 == 0u64);
    }
}

/// The significant window of a nonzero value, shifted down by `t`, fits in
/// `64 - l - t` bits, for any `l` and `t` at or below its zero runs; and
/// shifting it back restores the value.
pub proof fn lemma_window_bound(x: u64, l: nat, t: nat)
    requires
        x != 0,
        l <= u64_leading_zeros(x),
        t <= u64_trailing_zeros(x),
        l + t <= 63,
    ensures
        (x >> (t as u64)) < pow2((64 - l - t) as nat),
        ((x >> (t as u64)) << (t as u64)) == x,
{
    lemma_leading_bound(x);
    let lz = u64_leading_zeros(x) as nat;
    if l < lz {
        lemma_pow2_strictly_increases((64 - lz) as nat, (64 - l) as nat);
    }
    lemma_shr_lt(x, t as u64, (64 - l) as nat);
    lemma_trailing_shift(x, t as u64);
}

/// The bit patterns of the short flag constants the codecs emit.
pub proof fn lemma_bit64_single()
    ensures
        bit64(1u64, 0),
        !bit64(0u64, 0),
        forall|i: u64| !bit64(0u64, i),
        bit64(2u64, 1),
        !bit64(2u64, 0),
        bit64(3u64, 1),
        bit64(3u64, 0),
        !bit64(1u64, 1),
{
    assert(((1u64 >> 0u64) & 1) == 1 && ((2u64 >> 1u64) & 1) == 1 && ((2u64 >> 0u64) & 1) == 0
        && ((3u64 >> 1u64) & 1) == 1 && ((3u64 >> 0u64) & 1) == 1 && ((1u64 >> 1u64) & 1)
        == 0) by (bit_vector);
    assert(forall|i: u64| ((0u64 >> i) & 1) != 1) by (bit_vector);
}

/// The masked single-bit values a `write_bit` call appends.
pub proof fn lemma_bit_and_one()
    ensures
        (0u8 & 1) as u64 == 0,
        (1u8 & 1) as u64 == 1,
{
    assert(0u8 & 1 == 0 && 1u8 & 1 == 1) by (bit_vector);
}

/// XOR by the same value twice cancels.
pub proof fn lemma_xor_cancel(a: u64, b: u64)
    ensures
        a ^ (a ^ b) == b,
        (a ^ b == 0) <==> a == b,
        a ^ b == b ^ a,
{
    assert(a ^ (a ^ b) == b && ((a ^ b == 0) <==> a == b) && (a ^ b == b ^ a)) by (bit_vector);
}

pub proof fn lemma_words_bits_len(ws: Seq<u64>)
    ensures
        words_bits(ws).len() == 64 * ws.len(),
    decreases ws.len(),
{
    if ws.len() > 0 {
        lemma_words_bits_len(ws.drop_last());
    }
}

pub proof fn lemma_words_bits_push(ws: Seq<u64>, w: u64)
    ensures
        words_bits(ws.push(w)) == words_bits(ws) + bits_of(w, 64),
{
    assert(ws.push(w).drop_last() =~= ws);
    assert(ws.push(w).last() == w);
}

/// Bit `i` of a flattened word sequence comes from word `i / 64`.
pub proof fn lemma_words_bits_index(ws: Seq<u64>, i: int)
    requires
        0 <= i < 64 * ws.len(),
    ensures
        words_bits(ws)[i] == bit64(ws[i / 64], (63 - (i % 64)) as u64),
    decreases ws.len(),
{
    lemma_words_bits_len(ws.drop_last());
    let n = ws.len() as int;
    if i < 64 * (n - 1) {
        lemma_words_bits_index(ws.drop_last(), i);
        assert(ws.drop_last()[i / 64] == ws[i / 64]) by {
            assert(i / 64 < n - 1) by (nonlinear_arith)
                requires
                    0 <= i < 64 * (n - 1),
            ;
        }
    } else {
        let j = i - 64 * (n - 1);
        assert(words_bits(ws)[i] == bits_of(ws.last(), 64)[j]);
        assert(i / 64 == n - 1 && i % 64 == j) by (nonlinear_arith)
            requires
                64 * (n - 1) <= i < 64 * n,
                j == i - 64 * (n - 1),
        ;
    }
}

/// The bits of word `k` within a flattened word sequence.
pub proof fn lemma_words_bits_word(ws: Seq<u64>, k: int)
    requires
        0 <= k < ws.len(),
    ensures
        words_bits(ws).subrange(64 * k, 64 * (k + 1)) =~= bits_of(ws[k], 64),
{
    lemma_words_bits_len(ws);
    assert forall|j: int| 0 <= j < 64 implies words_bits(ws).subrange(64 * k, 64 * (k + 1))[j]
        == bits_of(ws[k], 64)[j] by {
        let i = 64 * k + j;
        assert(0 <= i < 64 * ws.len()) by (nonlinear_arith)
            requires
                0 <= k < ws.len(),
                0 <= j < 64,
                i == 64 * k + j,
        ;
        lemma_words_bits_index(ws, i);
        assert(i / 64 == k && i % 64 == j) by (nonlinear_arith)
            requires
                0 <= j < 64,
                i == 64 * k + j,
        ;
    }
}

} // verus!
