//! The shared model of packed ternary words.
//!
//! A packed word holds `n` trits; trit `k`, counted from the least significant
//! end, is `t(k)` in `-1..=1`. Its digits, most significant first, are
//! `digits_lsb(t, n)`.
//!
//! Interleaved words keep trit `k` in the bit pair `(2k+1, 2k)` with the codes
//! `00` (`Neg`), `01` (`Zero`), `10` (`Pos`); the unsigned ones keep the digit
//! `0..=2` itself. The trit-wise logic on such words works on the high bits
//! `h = (w >> 1) & mask` and the low bits `l = w & mask` of every pair, where
//! `mask` holds the low bit of every pair in use.
use vstd::prelude::*;
use crate::digit::{Digit, digit_of};
use crate::model::{abs_int, lemma_trimmed_len, lemma_value_prepend, pow3, value};
use crate::ternary::Ternary;

verus! {

/// The `n` digits, most significant first, whose `k`-th from the right is `t(k)`.
pub open spec fn digits_lsb(t: spec_fn(int) -> int, n: nat) -> Seq<Digit> {
    Seq::new(n, |i: int| digit_of(t(n - 1 - i)))
}

/// `t(0) + t(1) * 3 + ... + t(n-1) * 3^(n-1)`.
pub open spec fn lsb_value(t: spec_fn(int) -> int, n: nat) -> int
    decreases n,
{
    if n == 0 {
        0
    } else {
        lsb_value(t, (n - 1) as nat) + t(n - 1) * pow3((n - 1) as nat)
    }
}

/// Every one of the first `n` values of `t` is a trit.
pub open spec fn is_trits(t: spec_fn(int) -> int, n: nat) -> bool {
    forall|k: int| 0 <= k < n ==> -1 <= #[trigger] t(k) <= 1
}

/// The digits of a packed word are worth the weighted sum of its trits.
pub proof fn lemma_digits_lsb_value(t: spec_fn(int) -> int, n: nat)
    requires
        is_trits(t, n),
    ensures
        digits_lsb(t, n).len() == n,
        value(digits_lsb(t, n)) == lsb_value(t, n),
    decreases n,
{
    if n > 0 {
        let m = (n - 1) as nat;
        lemma_digits_lsb_value(t, m);
        let d = digit_of(t(m as int));
        assert(digits_lsb(t, n) =~= seq![d] + digits_lsb(t, m));
        lemma_value_prepend(d, digits_lsb(t, m));
        assert(d.val() == t(m as int));
    }
}

/// Two trit functions that agree below `n` give the same sum.
pub proof fn lemma_lsb_value_ext(t: spec_fn(int) -> int, u: spec_fn(int) -> int, n: nat)
    requires
        forall|k: int| 0 <= k < n ==> #[trigger] t(k) == u(k),
    ensures
        lsb_value(t, n) == lsb_value(u, n),
    decreases n,
{
    if n > 0 {
        lemma_lsb_value_ext(t, u, (n - 1) as nat);
    }
}

/// The trit a two-bit code `00`/`01`/`10` stands for.
pub open spec fn code_trit(c: int) -> int {
    c - 1
}

/// The code of the smaller of two trits.
pub open spec fn code_and(a: int, b: int) -> int {
    if a <= b {
        a
    } else {
        b
    }
}

/// The code of the larger of two trits.
pub open spec fn code_or(a: int, b: int) -> int {
    if a >= b {
        a
    } else {
        b
    }
}

/// The code of `-(x * y)`.
pub open spec fn code_xor(a: int, b: int) -> int {
    if a == 1 || b == 1 {
        1
    } else if a == b {
        0
    } else {
        2
    }
}

/// The code of the consensus of two trits.
pub open spec fn code_consensus(a: int, b: int) -> int {
    if a == b {
        a
    } else {
        1
    }
}

/// The code of the sign of the sum of two trits.
pub open spec fn code_accept(a: int, b: int) -> int {
    if a == 1 {
        b
    } else if b == 1 {
        a
    } else if a == b {
        a
    } else {
        1
    }
}

/// The digit of a code is the expected logic of the digits of the operands.
pub proof fn lemma_code_digits(a: int, b: int)
    requires
        0 <= a <= 2,
        0 <= b <= 2,
    ensures
        digit_of(code_trit(code_and(a, b))) == digit_of(code_trit(a)).min_digit(
            digit_of(code_trit(b)),
        ),
        digit_of(code_trit(code_or(a, b))) == digit_of(code_trit(a)).max_digit(
            digit_of(code_trit(b)),
        ),
        digit_of(code_trit(code_xor(a, b))) == digit_of(
            -(digit_of(code_trit(a)).val() * digit_of(code_trit(b)).val()),
        ),
        digit_of(code_trit(code_consensus(a, b))) == digit_of(code_trit(a)).consensus(
            digit_of(code_trit(b)),
        ),
        digit_of(code_trit(code_accept(a, b))) == digit_of(code_trit(a)).accept_anything(
            digit_of(code_trit(b)),
        ),
        digit_of(code_trit(2 - a)) == digit_of(code_trit(a)).negated(),
{
    let x = digit_of(code_trit(a)).val();
    let y = digit_of(code_trit(b)).val();
    assert(x == a - 1 && y == b - 1);
    if a == 1 || b == 1 {
        assert(x * y == 0);
    } else if a == b {
        assert(x * y == 1);
    } else {
        assert(x * y == -1);
    }
}

// ---------------------------------------------------------------------------
// 64-bit interleaved words
// ---------------------------------------------------------------------------

/// The code in the bit pair starting at bit `s`.
pub open spec fn pair64(w: u64, s: u64) -> u64 {
    (w >> s) & 3
}

/// The trit-wise negation of an interleaved word.
pub open spec fn il_neg64(w: u64, m: u64) -> u64 {
    let h = (w >> 1u64) & m;
    let l = w & m;
    ((!(h | l) & m) << 1u64) | (!h & l & m)
}

/// The trit-wise minimum of two interleaved words.
pub open spec fn il_and64(a: u64, b: u64, m: u64) -> u64 {
    let ha = (a >> 1u64) & m;
    let la = a & m;
    let hb = (b >> 1u64) & m;
    let lb = b & m;
    ((ha & hb) << 1u64) | (((la & (hb | lb)) | (ha & lb)) & m)
}

/// The trit-wise maximum of two interleaved words.
pub open spec fn il_or64(a: u64, b: u64, m: u64) -> u64 {
    let ha = (a >> 1u64) & m;
    let la = a & m;
    let hb = (b >> 1u64) & m;
    let lb = b & m;
    ((ha | hb) << 1u64) | (!(ha | hb) & (la | lb) & m)
}

/// The trit-wise `-(x * y)` of two interleaved words.
pub open spec fn il_xor64(a: u64, b: u64, m: u64) -> u64 {
    let ha = (a >> 1u64) & m;
    let la = a & m;
    let hb = (b >> 1u64) & m;
    let lb = b & m;
    let na = m & !ha & !la;
    let nb = m & !hb & !lb;
    let nh = (ha & nb) | (na & hb);
    let is_n = (ha & hb) | (na & nb);
    (nh << 1u64) | (m & !nh & !is_n)
}

/// The trit-wise consensus of two interleaved words.
pub open spec fn il_consensus64(a: u64, b: u64, m: u64) -> u64 {
    let ha = (a >> 1u64) & m;
    let la = a & m;
    let hb = (b >> 1u64) & m;
    let lb = b & m;
    let na = m & !ha & !la;
    let nb = m & !hb & !lb;
    let nh = ha & hb;
    let is_n = na & nb;
    (nh << 1u64) | (m & !nh & !is_n)
}

/// The trit-wise accept-anything of two interleaved words.
pub open spec fn il_accept64(a: u64, b: u64, m: u64) -> u64 {
    let ha = (a >> 1u64) & m;
    let la = a & m;
    let hb = (b >> 1u64) & m;
    let lb = b & m;
    let na = m & !ha & !la;
    let nb = m & !hb & !lb;
    let nh = (ha & (hb | lb)) | (hb & (ha | la));
    let is_n = (na & ((m & !hb) | lb)) | (nb & ((m & !ha) | la));
    (nh << 1u64) | (m & !nh & !is_n)
}

/// Pair by pair, the logic on 64-bit interleaved words computes the code
/// tables; where the mask has no bit, the result pair is `00`.
pub proof fn lemma_il64(a: u64, b: u64, m: u64, s: u64)
    by (bit_vector)
    requires
        s < 64,
        s % 2 == 0,
        m & 0xAAAA_AAAA_AAAA_AAAAu64 == 0,
        (a >> s) & 3 < 3,
        (b >> s) & 3 < 3,
    ensures
        (m >> s) & 1 == 1 ==> {
            let ca = (a >> s) & 3;
            let cb = (b >> s) & 3;
            &&& (il_neg64(a, m) >> s) & 3 == 2 - ca
            &&& (il_and64(a, b, m) >> s) & 3 == (if ca <= cb { ca } else { cb })
            &&& (il_or64(a, b, m) >> s) & 3 == (if ca >= cb { ca } else { cb })
            &&& (il_xor64(a, b, m) >> s) & 3 == (if ca == 1 || cb == 1 {
                1u64
            } else if ca == cb {
                0u64
            } else {
                2u64
            })
            &&& (il_consensus64(a, b, m) >> s) & 3 == (if ca == cb { ca } else { 1u64 })
            &&& (il_accept64(a, b, m) >> s) & 3 == (if ca == 1 {
                cb
            } else if cb == 1 {
                ca
            } else if ca == cb {
                ca
            } else {
                1u64
            })
        },
        (m >> s) & 1 == 0 ==> {
            &&& (il_neg64(a, m) >> s) & 3 == 0
            &&& (il_and64(a, b, m) >> s) & 3 == 0
            &&& (il_or64(a, b, m) >> s) & 3 == 0
            &&& (il_xor64(a, b, m) >> s) & 3 == 0
        },
{
}

/// Setting the empty pair at `s` to `c` leaves the other pairs alone.
pub proof fn lemma_set_pair64(w: u64, c: u64, s: u64, t: u64)
    by (bit_vector)
    requires
        s < 64,
        t < 64,
        s % 2 == 0,
        t % 2 == 0,
        c < 4,
        (w >> s) & 3 == 0,
    ensures
        ((w | (c << s)) >> t) & 3 == (if t == s { c } else { (w >> t) & 3 }),
        (0u64 >> t) & 3 == 0,
{
}

// ---------------------------------------------------------------------------
// 32-bit interleaved words
// ---------------------------------------------------------------------------

/// The code in the bit pair starting at bit `s`.
pub open spec fn pair32(w: u32, s: u32) -> u32 {
    (w >> s) & 3
}

/// The trit-wise negation of an interleaved word.
pub open spec fn il_neg32(w: u32, m: u32) -> u32 {
    let h = (w >> 1u32) & m;
    let l = w & m;
    ((!(h | l) & m) << 1u32) | (!h & l & m)
}

/// The trit-wise minimum of two interleaved words.
pub open spec fn il_and32(a: u32, b: u32, m: u32) -> u32 {
    let ha = (a >> 1u32) & m;
    let la = a & m;
    let hb = (b >> 1u32) & m;
    let lb = b & m;
    ((ha & hb) << 1u32) | (((la & (hb | lb)) | (ha & lb)) & m)
}

/// The trit-wise maximum of two interleaved words.
pub open spec fn il_or32(a: u32, b: u32, m: u32) -> u32 {
    let ha = (a >> 1u32) & m;
    let la = a & m;
    let hb = (b >> 1u32) & m;
    let lb = b & m;
    ((ha | hb) << 1u32) | (!(ha | hb) & (la | lb) & m)
}

/// The trit-wise `-(x * y)` of two interleaved words.
pub open spec fn il_xor32(a: u32, b: u32, m: u32) -> u32 {
    let ha = (a >> 1u32) & m;
    let la = a & m;
    let hb = (b >> 1u32) & m;
    let lb = b & m;
    let na = m & !ha & !la;
    let nb = m & !hb & !lb;
    let nh = (ha & nb) | (na & hb);
    let is_n = (ha & hb) | (na & nb);
    (nh << 1u32) | (m & !nh & !is_n)
}

/// The trit-wise consensus of two interleaved words.
pub open spec fn il_consensus32(a: u32, b: u32, m: u32) -> u32 {
    let ha = (a >> 1u32) & m;
    let la = a & m;
    let hb = (b >> 1u32) & m;
    let lb = b & m;
    let na = m & !ha & !la;
    let nb = m & !hb & !lb;
    let nh = ha & hb;
    let is_n = na & nb;
    (nh << 1u32) | (m & !nh & !is_n)
}

/// The trit-wise accept-anything of two interleaved words.
pub open spec fn il_accept32(a: u32, b: u32, m: u32) -> u32 {
    let ha = (a >> 1u32) & m;
    let la = a & m;
    let hb = (b >> 1u32) & m;
    let lb = b & m;
    let na = m & !ha & !la;
    let nb = m & !hb & !lb;
    let nh = (ha & (hb | lb)) | (hb & (ha | la));
    let is_n = (na & ((m & !hb) | lb)) | (nb & ((m & !ha) | la));
    (nh << 1u32) | (m & !nh & !is_n)
}

/// Pair by pair, the logic on 32-bit interleaved words computes the code
/// tables; where the mask has no bit, the result pair is `00`.
pub proof fn lemma_il32(a: u32, b: u32, m: u32, s: u32)
    by (bit_vector)
    requires
        s < 32,
        s % 2 == 0,
        m & 0xAAAA_AAAAu32 == 0,
        (a >> s) & 3 < 3,
        (b >> s) & 3 < 3,
    ensures
        (m >> s) & 1 == 1 ==> {
            let ca = (a >> s) & 3;
            let cb = (b >> s) & 3;
            &&& (il_neg32(a, m) >> s) & 3 == 2 - ca
            &&& (il_and32(a, b, m) >> s) & 3 == (if ca <= cb { ca } else { cb })
            &&& (il_or32(a, b, m) >> s) & 3 == (if ca >= cb { ca } else { cb })
            &&& (il_xor32(a, b, m) >> s) & 3 == (if ca == 1 || cb == 1 {
                1u32
            } else if ca == cb {
                0u32
            } else {
                2u32
            })
            &&& (il_consensus32(a, b, m) >> s) & 3 == (if ca == cb { ca } else { 1u32 })
            &&& (il_accept32(a, b, m) >> s) & 3 == (if ca == 1 {
                cb
            } else if cb == 1 {
                ca
            } else if ca == cb {
                ca
            } else {
                1u32
            })
        },
        (m >> s) & 1 == 0 ==> {
            &&& (il_neg32(a, m) >> s) & 3 == 0
            &&& (il_and32(a, b, m) >> s) & 3 == 0
            &&& (il_or32(a, b, m) >> s) & 3 == 0
            &&& (il_xor32(a, b, m) >> s) & 3 == 0
        },
{
}

/// Setting the empty pair at `s` to `c` leaves the other pairs alone.
pub proof fn lemma_set_pair32(w: u32, c: u32, s: u32, t: u32)
    by (bit_vector)
    requires
        s < 32,
        t < 32,
        s % 2 == 0,
        t % 2 == 0,
        c < 4,
        (w >> s) & 3 == 0,
    ensures
        ((w | (c << s)) >> t) & 3 == (if t == s { c } else { (w >> t) & 3 }),
        (0u32 >> t) & 3 == 0,
{
}

// ---------------------------------------------------------------------------
// 128-bit interleaved words
// ---------------------------------------------------------------------------

/// The code in the bit pair starting at bit `s`.
pub open spec fn pair128(w: u128, s: u128) -> u128 {
    (w >> s) & 3
}

/// The trit-wise negation of an interleaved word.
pub open spec fn il_neg128(w: u128, m: u128) -> u128 {
    let h = (w >> 1u128) & m;
    let l = w & m;
    ((!(h | l) & m) << 1u128) | (!h & l & m)
}

/// The trit-wise minimum of two interleaved words.
pub open spec fn il_and128(a: u128, b: u128, m: u128) -> u128 {
    let ha = (a >> 1u128) & m;
    let la = a & m;
    let hb = (b >> 1u128) & m;
    let lb = b & m;
    ((ha & hb) << 1u128) | (((la & (hb | lb)) | (ha & lb)) & m)
}

/// The trit-wise maximum of two interleaved words.
pub open spec fn il_or128(a: u128, b: u128, m: u128) -> u128 {
    let ha = (a >> 1u128) & m;
    let la = a & m;
    let hb = (b >> 1u128) & m;
    let lb = b & m;
    ((ha | hb) << 1u128) | (!(ha | hb) & (la | lb) & m)
}

/// The trit-wise `-(x * y)` of two interleaved words.
pub open spec fn il_xor128(a: u128, b: u128, m: u128) -> u128 {
    let ha = (a >> 1u128) & m;
    let la = a & m;
    let hb = (b >> 1u128) & m;
    let lb = b & m;
    let na = m & !ha & !la;
    let nb = m & !hb & !lb;
    let nh = (ha & nb) | (na & hb);
    let is_n = (ha & hb) | (na & nb);
    (nh << 1u128) | (m & !nh & !is_n)
}

/// The trit-wise consensus of two interleaved words.
pub open spec fn il_consensus128(a: u128, b: u128, m: u128) -> u128 {
    let ha = (a >> 1u128) & m;
    let la = a & m;
    let hb = (b >> 1u128) & m;
    let lb = b & m;
    let na = m & !ha & !la;
    let nb = m & !hb & !lb;
    let nh = ha & hb;
    let is_n = na & nb;
    (nh << 1u128) | (m & !nh & !is_n)
}

/// The trit-wise accept-anything of two interleaved words.
pub open spec fn il_accept128(a: u128, b: u128, m: u128) -> u128 {
    let ha = (a >> 1u128) & m;
    let la = a & m;
    let hb = (b >> 1u128) & m;
    let lb = b & m;
    let na = m & !ha & !la;
    let nb = m & !hb & !lb;
    let nh = (ha & (hb | lb)) | (hb & (ha | la));
    let is_n = (na & ((m & !hb) | lb)) | (nb & ((m & !ha) | la));
    (nh << 1u128) | (m & !nh & !is_n)
}

/// Pair by pair, the logic on 128-bit interleaved words computes the code
/// tables; where the mask has no bit, the result pair is `00`.
pub proof fn lemma_il128(a: u128, b: u128, m: u128, s: u128)
    by (bit_vector)
    requires
        s < 128,
        s % 2 == 0,
        m & 0xAAAA_AAAA_AAAA_AAAA_AAAA_AAAA_AAAA_AAAAu128 == 0,
        (a >> s) & 3 < 3,
        (b >> s) & 3 < 3,
    ensures
        (m >> s) & 1 == 1 ==> {
            let ca = (a >> s) & 3;
            let cb = (b >> s) & 3;
            &&& (il_neg128(a, m) >> s) & 3 == 2 - ca
            &&& (il_and128(a, b, m) >> s) & 3 == (if ca <= cb { ca } else { cb })
            &&& (il_or128(a, b, m) >> s) & 3 == (if ca >= cb { ca } else { cb })
            &&& (il_xor128(a, b, m) >> s) & 3 == (if ca == 1 || cb == 1 {
                1u128
            } else if ca == cb {
                0u128
            } else {
                2u128
            })
            &&& (il_consensus128(a, b, m) >> s) & 3 == (if ca == cb { ca } else { 1u128 })
            &&& (il_accept128(a, b, m) >> s) & 3 == (if ca == 1 {
                cb
            } else if cb == 1 {
                ca
            } else if ca == cb {
                ca
            } else {
                1u128
            })
        },
        (m >> s) & 1 == 0 ==> {
            &&& (il_neg128(a, m) >> s) & 3 == 0
            &&& (il_and128(a, b, m) >> s) & 3 == 0
            &&& (il_or128(a, b, m) >> s) & 3 == 0
            &&& (il_xor128(a, b, m) >> s) & 3 == 0
        },
{
}

/// Setting the empty pair at `s` to `c` leaves the other pairs alone.
pub proof fn lemma_set_pair128(w: u128, c: u128, s: u128, t: u128)
    by (bit_vector)
    requires
        s < 128,
        t < 128,
        s % 2 == 0,
        t % 2 == 0,
        c < 4,
        (w >> s) & 3 == 0,
    ensures
        ((w | (c << s)) >> t) & 3 == (if t == s { c } else { (w >> t) & 3 }),
        (0u128 >> t) & 3 == 0,
{
}

// ---------------------------------------------------------------------------
// Single bits of 32-bit masks
// ---------------------------------------------------------------------------

/// Bit `i` of `x` is set.
pub open spec fn bit32(x: u32, i: u32) -> bool {
    (x >> i) & 1 == 1
}

/// How single bits of 32-bit words behave under the word operations.
pub proof fn lemma_bits32(a: u32, b: u32, r: u32, i: u32)
    by (bit_vector)
    requires
        i < 32,
        r < 32,
    ensures
        bit32(a & b, i) == (bit32(a, i) && bit32(b, i)),
        bit32(a | b, i) == (bit32(a, i) || bit32(b, i)),
        bit32(!a, i) == !bit32(a, i),
        bit32(a << r, i) == (i >= r && bit32(a, (i - r) as u32)),
        bit32(a >> r, i) == (i + r < 32 && bit32(a, (i + r) as u32)),
        bit32(a | (1u32 << r), i) == (i == r || bit32(a, i)),
        (a & (1u32 << i) != 0) == bit32(a, i),
        !bit32(0u32, i),
        bit32(0xFFFF_FFFFu32, i),
        (a & b == 0 && !bit32(b, r)) ==> (a | (1u32 << r)) & b == 0,
        (a & b == 0 && !bit32(a, r)) ==> a & (b | (1u32 << r)) == 0,
        (a & b == 0) ==> !(bit32(a, i) && bit32(b, i)),
        a & 0u32 == 0,
        0u32 & a == 0,
{
}

/// The `n`-digit ternary of a value that fits `n >= 1` digits.
pub(crate) fn fixed_ternary(v: i64, n: usize) -> (t: Ternary)
    requires
        n >= 1,
        2 * abs_int(v as int) <= pow3(n as nat) - 1,
    ensures
        t@.len() == n,
        value(t@) == v,
{
    let t = Ternary::from_dec(v);
    proof {
        lemma_trimmed_len(t@, n as nat);
    }
    t.with_length(n)
}

/// Bit `i` of a 64-bit word is set.
pub open spec fn bit64(x: u64, i: u64) -> bool {
    (x >> i) & 1 == 1
}

/// Pairs of an interleaved word under the checks, shifts and fills that the
/// interleaved types use; `m` is the mask of the low bits of all 32 pairs.
pub proof fn lemma_il_word64(w: u64, n2: u64, s: u64)
    by (bit_vector)
    requires
        n2 < 64,
        n2 % 2 == 0,
        s < 64,
        s % 2 == 0,
    ensures
        w & (w >> 1u64) & 0x5555_5555_5555_5555u64 == 0 ==> (w >> s) & 3 < 3,
        (((w << n2) | (0x5555_5555_5555_5555u64 & ((1u64 << n2) - 1u64) as u64)) >> s) & 3 == (
        if s >= n2 {
            (w >> ((s - n2) as u64)) & 3
        } else {
            1u64
        }),
        n2 >= 2 ==> (((w >> n2) | (0x5555_5555_5555_5555u64 & (0xFFFF_FFFF_FFFF_FFFFu64 << ((64
            - n2) as u64)))) >> s) & 3 == (if s + n2 < 64 {
            (w >> ((s + n2) as u64)) & 3
        } else {
            1u64
        }),
        (0x5555_5555_5555_5555u64 >> s) & 3 == 1,
        (0x5555_5555_5555_5555u64 >> s) & 1 == 1,
        1u64 << n2 >= 1u64,
        (0xAAAA_AAAA_AAAA_AAAAu64 >> s) & 3 == 2,
        (0u64 >> s) & 3 == 0,
        bit64(w >> 1u64, s) == bit64(w, (s + 1) as u64),
        0x5555_5555_5555_5555u64 & 0xAAAA_AAAA_AAAA_AAAAu64 == 0,
        (0x5555_5555_5555_5556u64 >> s) & 3 == (if s == 0 { 2u64 } else { 1u64 }),
{
}

/// The even bit positions of a word receive the bits of a 32-bit value.
pub open spec fn spread_spec(x: u32) -> u64 {
    let x0 = x as u64;
    let x1 = (x0 | (x0 << 16u64)) & 0x0000_FFFF_0000_FFFFu64;
    let x2 = (x1 | (x1 << 8u64)) & 0x00FF_00FF_00FF_00FFu64;
    let x3 = (x2 | (x2 << 4u64)) & 0x0F0F_0F0F_0F0F_0F0Fu64;
    let x4 = (x3 | (x3 << 2u64)) & 0x3333_3333_3333_3333u64;
    (x4 | (x4 << 1u64)) & 0x5555_5555_5555_5555u64
}

/// The even bit positions of a word gathered into a 32-bit value.
pub open spec fn compact_spec(x: u64) -> u32 {
    let x0 = x & 0x5555_5555_5555_5555u64;
    let x1 = (x0 | (x0 >> 1u64)) & 0x3333_3333_3333_3333u64;
    let x2 = (x1 | (x1 >> 2u64)) & 0x0F0F_0F0F_0F0F_0F0Fu64;
    let x3 = (x2 | (x2 >> 4u64)) & 0x00FF_00FF_00FF_00FFu64;
    let x4 = (x3 | (x3 >> 8u64)) & 0x0000_FFFF_0000_FFFFu64;
    ((x4 | (x4 >> 16u64)) & 0x0000_0000_FFFF_FFFFu64) as u32
}

/// Spreading puts bit `i` at bit `2i` and nothing on odd bits; compacting
/// takes bit `2i` back to bit `i`.
pub proof fn lemma_spread_compact(x: u32, y: u64, y2: u64, i: u32)
    by (bit_vector)
    requires
        i < 32,
    ensures
        spread_spec(x) & 0xAAAA_AAAA_AAAA_AAAAu64 == 0,
        ((spread_spec(x) >> ((2 * i) as u64)) & 1 == 1) == ((x >> i) & 1 == 1),
        ((compact_spec(y) >> i) & 1 == 1) == ((y >> ((2 * i) as u64)) & 1 == 1),
        compact_spec(y) & compact_spec(y2) == compact_spec(y & y2),
        compact_spec(0) == 0,
{
}

/// Building an interleaved word from spread masks gives, in each pair, the
/// code of the trit the masks hold.
pub proof fn lemma_il_from_masks(pe: u64, ne: u64, s: u64)
    by (bit_vector)
    requires
        s < 64,
        s % 2 == 0,
        pe & 0xAAAA_AAAA_AAAA_AAAAu64 == 0,
        ne & 0xAAAA_AAAA_AAAA_AAAAu64 == 0,
        !(bit64(pe, s) && bit64(ne, s)),
    ensures
        (((0x5555_5555_5555_5555u64 | (pe << 1u64)) & !(pe | ne)) >> s) & 3 == (if bit64(pe, s) {
            2u64
        } else if bit64(ne, s) {
            0u64
        } else {
            1u64
        }),
{
}

/// Splitting a valid interleaved word: the high bits mark the `Pos` pairs, the
/// pairs with neither bit are the `Neg` ones.
pub proof fn lemma_il_to_masks(w: u64, s: u64)
    by (bit_vector)
    requires
        s < 64,
        s % 2 == 0,
        (w >> s) & 3 < 3,
    ensures
        bit64((w >> 1u64) & 0x5555_5555_5555_5555u64, s) == ((w >> s) & 3 == 2),
        bit64(
            0x5555_5555_5555_5555u64 & !((w >> 1u64) & 0x5555_5555_5555_5555u64) & !(w
                & 0x5555_5555_5555_5555u64),
            s,
        ) == ((w >> s) & 3 == 0),
        ((w >> 1u64) & 0x5555_5555_5555_5555u64) & (0x5555_5555_5555_5555u64 & !((w >> 1u64)
            & 0x5555_5555_5555_5555u64) & !(w & 0x5555_5555_5555_5555u64)) == 0,
{
}

/// The trit in pair `k` of an interleaved word.
pub open spec fn il_trit64(w: u64, k: int) -> int {
    pair64(w, (2 * k) as u64) - 1
}

/// The trits of an interleaved word as a function of their index.
pub open spec fn il_trits64(w: u64) -> spec_fn(int) -> int {
    |k: int| il_trit64(w, k)
}

/// The first `n` pairs hold valid codes.
pub open spec fn il_valid64(w: u64, n: nat) -> bool {
    forall|k: int| 0 <= k < n ==> #[trigger] pair64(w, (2 * k) as u64) < 3
}

/// The `n` digits of an interleaved word, most significant first.
pub open spec fn il_digits64(w: u64, n: nat) -> Seq<Digit> {
    digits_lsb(il_trits64(w), n)
}

/// The digits of a valid interleaved word have the value of its trits.
pub proof fn lemma_il_value64(w: u64, n: nat)
    requires
        il_valid64(w, n),
    ensures
        il_digits64(w, n).len() == n,
        value(il_digits64(w, n)) == lsb_value(il_trits64(w), n),
        2 * abs_int(value(il_digits64(w, n))) <= pow3(n) - 1,
{
    assert(is_trits(il_trits64(w), n));
    lemma_digits_lsb_value(il_trits64(w), n);
    crate::model::lemma_value_bound(il_digits64(w, n));
}

/// The digit in pair `k` of an interleaved word; an invalid code reads as `Zero`.
pub(crate) fn read_il64(w: u64, k: u64) -> (d: Digit)
    requires
        k < 32,
    ensures
        pair64(w, (2 * k) as u64) < 3 ==> d == digit_of(il_trit64(w, k as int)),
{
    let code = (w >> (2 * k)) & 3;
    if code == 2 {
        Digit::Pos
    } else if code == 0 {
        Digit::Neg
    } else {
        Digit::Zero
    }
}

/// The word with the empty pair `k` set to the code of `d`.
pub(crate) fn write_il64(w: u64, k: u64, d: Digit) -> (r: u64)
    requires
        k < 32,
        pair64(w, (2 * k) as u64) == 0,
    ensures
        forall|j: int|
            0 <= j < 32 ==> #[trigger] pair64(r, (2 * j) as u64) == if j == k {
                d.val() + 1
            } else {
                pair64(w, (2 * j) as u64) as int
            },
{
    let code: u64 = match d {
        Digit::Pos => 2,
        Digit::Zero => 1,
        Digit::Neg => 0,
    };
    proof {
        assert forall|j: int| 0 <= j < 32 implies #[trigger] pair64(w | (code << (2 * k)), (2 * j) as u64)
            == if j == k {
            d.val() + 1
        } else {
            pair64(w, (2 * j) as u64) as int
        } by {
            lemma_set_pair64(w, code, (2 * k) as u64, (2 * j) as u64);
        }
    }
    w | (code << (2 * k))
}

/// A word being filled pair by pair: the first `i` pairs hold the codes of
/// `g`, the other pairs are empty.
pub open spec fn il_holds64(w: u64, g: spec_fn(int) -> int, i: int) -> bool {
    &&& forall|j: int| 0 <= j < i ==> #[trigger] pair64(w, (2 * j) as u64) == g(j) + 1
    &&& forall|j: int| i <= j < 32 ==> #[trigger] pair64(w, (2 * j) as u64) == 0
}

/// The empty word holds nothing yet.
pub proof fn lemma_il_start64(g: spec_fn(int) -> int)
    ensures
        il_holds64(0, g, 0),
{
    assert forall|j: int| 0 <= j < 32 implies #[trigger] pair64(0, (2 * j) as u64) == 0 by {
        lemma_il_word64(0, 0, (2 * j) as u64);
    }
}

/// Writing the code of `g(i)` into the next pair.
pub proof fn lemma_il_step64(w: u64, r: u64, g: spec_fn(int) -> int, i: int)
    requires
        0 <= i < 32,
        il_holds64(w, g, i),
        -1 <= g(i) <= 1,
        forall|j: int|
            0 <= j < 32 ==> #[trigger] pair64(r, (2 * j) as u64) == if j == i {
                g(i) + 1
            } else {
                pair64(w, (2 * j) as u64) as int
            },
    ensures
        il_holds64(r, g, i + 1),
{
    assert forall|j: int| 0 <= j < i + 1 implies #[trigger] pair64(r, (2 * j) as u64) == g(j) + 1 by {
        if j < i {
            assert(pair64(w, (2 * j) as u64) == g(j) + 1);
        }
    }
    assert forall|j: int| i + 1 <= j < 32 implies #[trigger] pair64(r, (2 * j) as u64) == 0 by {
        assert(pair64(w, (2 * j) as u64) == 0);
    }
}

/// A word filled with the codes of `n` trits is valid and has their digits.
pub proof fn lemma_il_done64(w: u64, g: spec_fn(int) -> int, n: nat)
    requires
        n <= 32,
        il_holds64(w, g, n as int),
        is_trits(g, n),
    ensures
        il_valid64(w, n),
        forall|k: int| 0 <= k < n ==> #[trigger] il_trit64(w, k) == g(k),
        forall|i: int| 0 <= i < n ==> #[trigger] il_digits64(w, n)[i] == digit_of(g(n - 1 - i)),
        lsb_value(il_trits64(w), n) == lsb_value(g, n),
{
    assert forall|k: int| 0 <= k < n implies #[trigger] pair64(w, (2 * k) as u64) < 3 by {
        assert(pair64(w, (2 * k) as u64) == g(k) + 1);
    }
    assert forall|k: int| 0 <= k < n implies #[trigger] il_trit64(w, k) == g(k) by {
        assert(pair64(w, (2 * k) as u64) == g(k) + 1);
    }
    assert forall|i: int| 0 <= i < n implies #[trigger] il_digits64(w, n)[i] == digit_of(
        g(n - 1 - i),
    ) by {
        assert(il_trit64(w, n - 1 - i) == g(n - 1 - i));
    }
    lemma_lsb_value_ext(il_trits64(w), g, n);
}

/// The trit-wise negation of an interleaved word.
pub(crate) fn il_neg_u64(w: u64, mask_l: u64) -> (r: u64)
    ensures
        r == il_neg64(w, mask_l),
{
    let h = (w >> 1) & mask_l;
    let l = w & mask_l;
    ((!(h | l) & mask_l) << 1) | (!h & l & mask_l)
}

/// The trit-wise minimum of two interleaved words.
pub(crate) fn il_and_u64(a: u64, b: u64, mask_l: u64) -> (r: u64)
    ensures
        r == il_and64(a, b, mask_l),
{
    let ha = (a >> 1) & mask_l;
    let la = a & mask_l;
    let hb = (b >> 1) & mask_l;
    let lb = b & mask_l;
    let hr = ha & hb;
    let lr = (la & (hb | lb)) | (ha & lb);
    (hr << 1) | (lr & mask_l)
}

/// The trit-wise maximum of two interleaved words.
pub(crate) fn il_or_u64(a: u64, b: u64, mask_l: u64) -> (r: u64)
    ensures
        r == il_or64(a, b, mask_l),
{
    let ha = (a >> 1) & mask_l;
    let la = a & mask_l;
    let hb = (b >> 1) & mask_l;
    let lb = b & mask_l;
    let hr = ha | hb;
    let lr = !(ha | hb) & (la | lb) & mask_l;
    (hr << 1) | lr
}

/// The trit-wise `-(x * y)` of two interleaved words.
pub(crate) fn il_xor_u64(a: u64, b: u64, mask_l: u64) -> (r: u64)
    ensures
        r == il_xor64(a, b, mask_l),
{
    let ha = (a >> 1) & mask_l;
    let la = a & mask_l;
    let hb = (b >> 1) & mask_l;
    let lb = b & mask_l;
    let na = mask_l & !ha & !la;
    let nb = mask_l & !hb & !lb;
    let new_h = (ha & nb) | (na & hb);
    let is_n = (ha & hb) | (na & nb);
    let new_l = mask_l & !new_h & !is_n;
    (new_h << 1) | new_l
}

/// The trit in pair `k` of a 32-bit interleaved word.
pub open spec fn il_trit32(w: u32, k: int) -> int {
    pair32(w, (2 * k) as u32) - 1
}

/// The trits of an interleaved word as a function of their index.
pub open spec fn il_trits32(w: u32) -> spec_fn(int) -> int {
    |k: int| il_trit32(w, k)
}

/// The first `n` pairs hold valid codes.
pub open spec fn il_valid32(w: u32, n: nat) -> bool {
    forall|k: int| 0 <= k < n ==> #[trigger] pair32(w, (2 * k) as u32) < 3
}

/// The `n` digits of an interleaved word, most significant first.
pub open spec fn il_digits32(w: u32, n: nat) -> Seq<Digit> {
    digits_lsb(il_trits32(w), n)
}

/// The digits of a valid interleaved word have the value of its trits.
pub proof fn lemma_il_value32(w: u32, n: nat)
    requires
        il_valid32(w, n),
    ensures
        il_digits32(w, n).len() == n,
        value(il_digits32(w, n)) == lsb_value(il_trits32(w), n),
        2 * abs_int(value(il_digits32(w, n))) <= pow3(n) - 1,
{
    assert(is_trits(il_trits32(w), n));
    lemma_digits_lsb_value(il_trits32(w), n);
    crate::model::lemma_value_bound(il_digits32(w, n));
}

/// The trit-wise negation of an interleaved word.
pub(crate) fn il_neg_u32(w: u32, mask_l: u32) -> (r: u32)
    ensures
        r == il_neg32(w, mask_l),
{
    let h = (w >> 1) & mask_l;
    let l = w & mask_l;
    ((!(h | l) & mask_l) << 1) | (!h & l & mask_l)
}

/// The trit-wise minimum of two interleaved words.
pub(crate) fn il_and_u32(a: u32, b: u32, mask_l: u32) -> (r: u32)
    ensures
        r == il_and32(a, b, mask_l),
{
    let ha = (a >> 1) & mask_l;
    let la = a & mask_l;
    let hb = (b >> 1) & mask_l;
    let lb = b & mask_l;
    let hr = ha & hb;
    let lr = (la & (hb | lb)) | (ha & lb);
    (hr << 1) | (lr & mask_l)
}

/// The trit-wise maximum of two interleaved words.
pub(crate) fn il_or_u32(a: u32, b: u32, mask_l: u32) -> (r: u32)
    ensures
        r == il_or32(a, b, mask_l),
{
    let ha = (a >> 1) & mask_l;
    let la = a & mask_l;
    let hb = (b >> 1) & mask_l;
    let lb = b & mask_l;
    let hr = ha | hb;
    let lr = !(ha | hb) & (la | lb) & mask_l;
    (hr << 1) | lr
}

/// The trit-wise `-(x * y)` of two interleaved words.
pub(crate) fn il_xor_u32(a: u32, b: u32, mask_l: u32) -> (r: u32)
    ensures
        r == il_xor32(a, b, mask_l),
{
    let ha = (a >> 1) & mask_l;
    let la = a & mask_l;
    let hb = (b >> 1) & mask_l;
    let lb = b & mask_l;
    let na = mask_l & !ha & !la;
    let nb = mask_l & !hb & !lb;
    let new_h = (ha & nb) | (na & hb);
    let is_n = (ha & hb) | (na & nb);
    let new_l = mask_l & !new_h & !is_n;
    (new_h << 1) | new_l
}

/// The pairs of the empty 128-bit word are `00`.
pub proof fn lemma_zero_pairs128(t: u128)
    by (bit_vector)
    ensures
        (0u128 >> t) & 3 == 0,
{
}

/// The trit in pair `k` of a 128-bit interleaved word.
pub open spec fn il_trit128(w: u128, k: int) -> int {
    pair128(w, (2 * k) as u128) - 1
}

/// The trits of an interleaved word as a function of their index.
pub open spec fn il_trits128(w: u128) -> spec_fn(int) -> int {
    |k: int| il_trit128(w, k)
}

/// The first `n` pairs hold valid codes.
pub open spec fn il_valid128(w: u128, n: nat) -> bool {
    forall|k: int| 0 <= k < n ==> #[trigger] pair128(w, (2 * k) as u128) < 3
}

/// The `n` digits of an interleaved word, most significant first.
pub open spec fn il_digits128(w: u128, n: nat) -> Seq<Digit> {
    digits_lsb(il_trits128(w), n)
}

/// The digits of a valid interleaved word have the value of its trits.
pub proof fn lemma_il_value128(w: u128, n: nat)
    requires
        il_valid128(w, n),
    ensures
        il_digits128(w, n).len() == n,
        value(il_digits128(w, n)) == lsb_value(il_trits128(w), n),
        2 * abs_int(value(il_digits128(w, n))) <= pow3(n) - 1,
{
    assert(is_trits(il_trits128(w), n));
    lemma_digits_lsb_value(il_trits128(w), n);
    crate::model::lemma_value_bound(il_digits128(w, n));
}

/// The digit in pair `k` of an interleaved word; an invalid code reads as `Zero`.
pub(crate) fn read_il128(w: u128, k: u128) -> (d: Digit)
    requires
        k < 40,
    ensures
        pair128(w, (2 * k) as u128) < 3 ==> d == digit_of(il_trit128(w, k as int)),
{
    let code = (w >> (2 * k)) & 3;
    if code == 2 {
        Digit::Pos
    } else if code == 0 {
        Digit::Neg
    } else {
        Digit::Zero
    }
}

/// The word with the empty pair `k` set to the code of `d`.
pub(crate) fn write_il128(w: u128, k: u128, d: Digit) -> (r: u128)
    requires
        k < 40,
        pair128(w, (2 * k) as u128) == 0,
    ensures
        forall|j: int|
            0 <= j < 40 ==> #[trigger] pair128(r, (2 * j) as u128) == if j == k {
                d.val() + 1
            } else {
                pair128(w, (2 * j) as u128) as int
            },
{
    let code: u128 = match d {
        Digit::Pos => 2,
        Digit::Zero => 1,
        Digit::Neg => 0,
    };
    proof {
        assert forall|j: int| 0 <= j < 40 implies #[trigger] pair128(w | (code << (2 * k)), (2 * j) as u128)
            == if j == k {
            d.val() + 1
        } else {
            pair128(w, (2 * j) as u128) as int
        } by {
            lemma_set_pair128(w, code, (2 * k) as u128, (2 * j) as u128);
        }
    }
    w | (code << (2 * k))
}

/// A word being filled pair by pair: the first `i` pairs hold the codes of
/// `g`, the other pairs are empty.
pub open spec fn il_holds128(w: u128, g: spec_fn(int) -> int, i: int) -> bool {
    &&& forall|j: int| 0 <= j < i ==> #[trigger] pair128(w, (2 * j) as u128) == g(j) + 1
    &&& forall|j: int| i <= j < 40 ==> #[trigger] pair128(w, (2 * j) as u128) == 0
}

/// The empty word holds nothing yet.
pub proof fn lemma_il_start128(g: spec_fn(int) -> int)
    ensures
        il_holds128(0, g, 0),
{
    assert forall|j: int| 0 <= j < 40 implies #[trigger] pair128(0, (2 * j) as u128) == 0 by {
        lemma_zero_pairs128((2 * j) as u128);
    }
}

/// Writing the code of `g(i)` into the next pair.
pub proof fn lemma_il_step128(w: u128, r: u128, g: spec_fn(int) -> int, i: int)
    requires
        0 <= i < 40,
        il_holds128(w, g, i),
        -1 <= g(i) <= 1,
        forall|j: int|
            0 <= j < 40 ==> #[trigger] pair128(r, (2 * j) as u128) == if j == i {
                g(i) + 1
            } else {
                pair128(w, (2 * j) as u128) as int
            },
    ensures
        il_holds128(r, g, i + 1),
{
    assert forall|j: int| 0 <= j < i + 1 implies #[trigger] pair128(r, (2 * j) as u128) == g(j) + 1 by {
        if j < i {
            assert(pair128(w, (2 * j) as u128) == g(j) + 1);
        }
    }
    assert forall|j: int| i + 1 <= j < 40 implies #[trigger] pair128(r, (2 * j) as u128) == 0 by {
        assert(pair128(w, (2 * j) as u128) == 0);
    }
}

/// A word filled with the codes of `n` trits is valid and has their digits.
pub proof fn lemma_il_done128(w: u128, g: spec_fn(int) -> int, n: nat)
    requires
        n <= 40,
        il_holds128(w, g, n as int),
        is_trits(g, n),
    ensures
        il_valid128(w, n),
        forall|k: int| 0 <= k < n ==> #[trigger] il_trit128(w, k) == g(k),
        forall|i: int| 0 <= i < n ==> #[trigger] il_digits128(w, n)[i] == digit_of(g(n - 1 - i)),
        lsb_value(il_trits128(w), n) == lsb_value(g, n),
{
    assert forall|k: int| 0 <= k < n implies #[trigger] pair128(w, (2 * k) as u128) < 3 by {
        assert(pair128(w, (2 * k) as u128) == g(k) + 1);
    }
    assert forall|k: int| 0 <= k < n implies #[trigger] il_trit128(w, k) == g(k) by {
        assert(pair128(w, (2 * k) as u128) == g(k) + 1);
    }
    assert forall|i: int| 0 <= i < n implies #[trigger] il_digits128(w, n)[i] == digit_of(
        g(n - 1 - i),
    ) by {
        assert(il_trit128(w, n - 1 - i) == g(n - 1 - i));
    }
    lemma_lsb_value_ext(il_trits128(w), g, n);
}

/// The trit-wise negation of an interleaved word.
pub(crate) fn il_neg_u128(w: u128, mask_l: u128) -> (r: u128)
    ensures
        r == il_neg128(w, mask_l),
{
    let h = (w >> 1) & mask_l;
    let l = w & mask_l;
    ((!(h | l) & mask_l) << 1) | (!h & l & mask_l)
}

/// The trit-wise minimum of two interleaved words.
pub(crate) fn il_and_u128(a: u128, b: u128, mask_l: u128) -> (r: u128)
    ensures
        r == il_and128(a, b, mask_l),
{
    let ha = (a >> 1) & mask_l;
    let la = a & mask_l;
    let hb = (b >> 1) & mask_l;
    let lb = b & mask_l;
    let hr = ha & hb;
    let lr = (la & (hb | lb)) | (ha & lb);
    (hr << 1) | (lr & mask_l)
}

/// The trit-wise maximum of two interleaved words.
pub(crate) fn il_or_u128(a: u128, b: u128, mask_l: u128) -> (r: u128)
    ensures
        r == il_or128(a, b, mask_l),
{
    let ha = (a >> 1) & mask_l;
    let la = a & mask_l;
    let hb = (b >> 1) & mask_l;
    let lb = b & mask_l;
    let hr = ha | hb;
    let lr = !(ha | hb) & (la | lb) & mask_l;
    (hr << 1) | lr
}

/// The trit-wise `-(x * y)` of two interleaved words.
pub(crate) fn il_xor_u128(a: u128, b: u128, mask_l: u128) -> (r: u128)
    ensures
        r == il_xor128(a, b, mask_l),
{
    let ha = (a >> 1) & mask_l;
    let la = a & mask_l;
    let hb = (b >> 1) & mask_l;
    let lb = b & mask_l;
    let na = mask_l & !ha & !la;
    let nb = mask_l & !hb & !lb;
    let new_h = (ha & nb) | (na & hb);
    let is_n = (ha & hb) | (na & nb);
    let new_l = mask_l & !new_h & !is_n;
    (new_h << 1) | new_l
}

/// `3^32`.
pub proof fn lemma_pow3_32()
    ensures
        pow3(32) == 1853020188851841,
{
    reveal_with_fuel(pow3, 33);
}

/// How single bits of 64-bit words behave under the word operations.
pub proof fn lemma_bits64(a: u64, b: u64, r: u64, i: u64)
    by (bit_vector)
    requires
        i < 64,
        r < 64,
    ensures
        bit64(a & b, i) == (bit64(a, i) && bit64(b, i)),
        bit64(a | b, i) == (bit64(a, i) || bit64(b, i)),
        bit64(!a, i) == !bit64(a, i),
        bit64(1u64 << r, i) == (i == r),
        (a & (1u64 << i) != 0) == bit64(a, i),
        !bit64(0u64, i),
{
}

} // verus!
