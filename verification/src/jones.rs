//! Interleaved ternary words of 9 trits in a `u32` and 27 trits in a `u64`,
//! two bits per trit: `UTer9` and `UTer27` hold unsigned digits `0..=2`,
//! `BTer9` and `BTer27` hold balanced trits coded `00` (`Neg`), `01` (`Zero`)
//! and `10` (`Pos`). A balanced word is the unsigned word of its value plus
//! the bias `(3^n - 1) / 2`, whose digits are all `1`.
use vstd::prelude::*;
use std::ops::{Add, BitAnd, BitOr, BitXor, Div, Mul, Neg, Not, Shl, Shr, Sub};
use crate::digit::{Digit, digit_of};
use crate::model::{abs_int, lemma_pow3_pos, lemma_value_bound, max_value, pow3, value, zeros};
use crate::operations::trunc_div;
use crate::packed::{
    il_valid32, il_valid64, lemma_il_value32, lemma_il_value64, code_and, code_or, code_trit, code_xor, il_and32, il_and64, il_and_u32, il_and_u64,
    il_digits32, il_digits64, il_neg32, il_neg64, il_neg_u32, il_neg_u64, il_or32, il_or64,
    il_or_u32, il_or_u64, il_trit32, il_trit64, il_trits32, il_trits64, il_xor32, il_xor64,
    il_xor_u32, il_xor_u64, is_trits, lemma_code_digits, lemma_digits_lsb_value, lemma_il32,
    lemma_il64, lemma_lsb_value_ext, lemma_set_pair32, lemma_set_pair64, lsb_value, pair32,
    pair64,
};

verus! {

/// The low bit of each of the nine pairs.
const MASK9_L: u32 = 0x0001_5555;

/// The high bit of each of the nine pairs.
const MASK9_H: u32 = 0x0002_AAAA;

/// The 18 bits of the nine pairs.
const MASK9: u32 = 0x0003_FFFF;

/// The low bit of each of the 27 pairs.
const MASK27_L: u64 = 0x0015_5555_5555_5555;

/// The high bit of each of the 27 pairs.
const MASK27_H: u64 = 0x002A_AAAA_AAAA_AAAA;

/// The 54 bits of the 27 pairs.
const MASK27: u64 = 0x003F_FFFF_FFFF_FFFF;

/// A valid 9-trit word: no pair holds `11`, no bit above the nine pairs is set.
pub open spec fn valid9(w: u32) -> bool {
    w & (w >> 1u32) & 0x0001_5555u32 == 0 && w & 0xFFFC_0000u32 == 0
}

/// A valid 27-trit word: no pair holds `11`, no bit above the 27 pairs is set.
pub open spec fn valid27(w: u64) -> bool {
    w & (w >> 1u64) & 0x0015_5555_5555_5555u64 == 0 && w & 0xFFC0_0000_0000_0000u64 == 0
}

/// The unsigned digits of a 32-bit word, as a function of their position.
pub open spec fn ucodes32(w: u32) -> spec_fn(int) -> int {
    |k: int| pair32(w, (2 * k) as u32) as int
}

/// The unsigned digits of a 64-bit word, as a function of their position.
pub open spec fn ucodes64(w: u64) -> spec_fn(int) -> int {
    |k: int| pair64(w, (2 * k) as u64) as int
}

/// The first `n` unsigned digits of a 32-bit word, least significant first.
pub open spec fn udigits32(w: u32, n: nat) -> Seq<int> {
    Seq::new(n, |k: int| pair32(w, (2 * k) as u32) as int)
}

/// The first `n` unsigned digits of a 64-bit word, least significant first.
pub open spec fn udigits64(w: u64, n: nat) -> Seq<int> {
    Seq::new(n, |k: int| pair64(w, (2 * k) as u64) as int)
}

/// The value of unsigned digits given least significant first.
pub open spec fn uvalue(s: Seq<int>) -> int {
    lsb_value(|k: int| s[k], s.len())
}

/// Adding digit sequences position by position with carries: when each
/// position gives its digit and an outgoing carry from the two digits and the
/// incoming carry, the digits are worth the sum less the last carry.
pub(crate) proof fn lemma_ripple(
    a: spec_fn(int) -> int,
    b: spec_fn(int) -> int,
    carry: spec_fn(int) -> int,
    r: spec_fn(int) -> int,
    n: nat,
)
    requires
        carry(0) == 0,
        forall|k: int| 0 <= k < n ==> a(k) + b(k) + carry(k) == #[trigger] r(k) + 3 * carry(k + 1),
    ensures
        lsb_value(r, n) + pow3(n) * carry(n as int) == lsb_value(a, n) + lsb_value(b, n),
    decreases n,
{
    if n > 0 {
        let m = (n - 1) as nat;
        lemma_ripple(a, b, carry, r, m);
        let p = pow3(m);
        assert(pow3(n) == 3 * p);
        assert(r(m as int) + 3 * carry(n as int) == a(m as int) + b(m as int) + carry(m as int));
        assert(r(m as int) * p + 3 * p * carry(n as int) == a(m as int) * p + b(m as int) * p + carry(
            m as int,
        ) * p) by (nonlinear_arith)
            requires
                r(m as int) + 3 * carry(n as int) == a(m as int) + b(m as int) + carry(m as int),
        ;
    } else {
        assert(pow3(0) == 1);
    }
}

/// The Jones addition of two 9-trit words: one is added to every digit of
/// `a`, the words are added in binary so that a digit sum of three or more
/// carries into the next pair, and one is taken back from every pair that did
/// not carry.
pub open spec fn jones_c9(a: u32) -> u32 {
    (a + 0x0001_5555u32) as u32
}

pub open spec fn jones_d9(a: u32, b: u32) -> u32 {
    (b + jones_c9(a)) as u32
}

/// The carries into each bit of the binary sum.
pub open spec fn jones_e9(a: u32, b: u32) -> u32 {
    b ^ jones_c9(a) ^ jones_d9(a, b)
}

/// One in the low bit of every pair that did not carry out.
pub open spec fn jones_f9(a: u32, b: u32) -> u32 {
    (!jones_e9(a, b) & 0x0005_5554u32) >> 2u32
}

pub open spec fn jones_r9(a: u32, b: u32) -> u32 {
    ((jones_d9(a, b) - jones_f9(a, b)) as u32) & 0x0003_FFFFu32
}

/// Each pair of the Jones sum is the sum of the pairs and the incoming carry,
/// less three times the outgoing carry.
proof fn lemma_jones9(a: u32, b: u32, s: u32)
    by (bit_vector)
    requires
        valid9(a),
        valid9(b),
        s % 2 == 0,
        s <= 16,
    ensures
        a < 0x0004_0000u32,
        b < 0x0004_0000u32,
        jones_f9(a, b) <= jones_d9(a, b),
        valid9(jones_r9(a, b)),
        (jones_e9(a, b) >> 0u32) & 1u32 == 0,
        (jones_e9(a, b) >> ((s + 2) as u32)) & 1u32 <= 1,
        ((a >> s) & 3u32) + ((b >> s) & 3u32) + ((jones_e9(a, b) >> s) & 1u32) == ((jones_r9(a, b)
            >> s) & 3u32) + 3 * ((jones_e9(a, b) >> ((s + 2) as u32)) & 1u32),
{
}

/// The sum of two 9-digit words modulo `3^9`, by the Jones carry trick.
fn uter_add9(a: u32, b: u32) -> (r: u32)
    requires
        valid9(a),
        valid9(b),
    ensures
        valid9(r),
        lsb_value(ucodes32(r), 9) == (lsb_value(ucodes32(a), 9) + lsb_value(ucodes32(b), 9)) % 19683,
{
    proof {
        lemma_jones9(a, b, 0);
    }
    let c = a + MASK9_L;
    let d = b + c;
    let e = b ^ c ^ d;
    let f = (!e & 0x0005_5554u32) >> 2;
    let r = (d - f) & MASK9;
    proof {
        assert(c == jones_c9(a));
        assert(d == jones_d9(a, b));
        assert(r == jones_r9(a, b));
        let carry = |k: int| ((e >> (2 * k) as u32) & 1u32) as int;
        assert forall|k: int| 0 <= k < 9 implies ucodes32(a)(k) + ucodes32(b)(k) + carry(k)
            == #[trigger] ucodes32(r)(k) + 3 * carry(k + 1) by {
            lemma_jones9(a, b, (2 * k) as u32);
            assert((2 * k + 2) as u32 == (2 * (k + 1)) as u32);
        }
        lemma_ripple(ucodes32(a), ucodes32(b), carry, ucodes32(r), 9);
        lemma_jones9(a, b, 16);
        assert(carry(9) <= 1);
        assert forall|k: int| 0 <= k < 9 implies 0 <= #[trigger] ucodes32(r)(k) <= 2 by {
            lemma_word9(r, r, (2 * k) as u32, 0);
        }
        lemma_ucodes_bound(ucodes32(r), 9);
        assert(pow3(9) == 19683) by {
            reveal_with_fuel(pow3, 10);
        }
        assert(lsb_value(ucodes32(a), 9) + lsb_value(ucodes32(b), 9) == carry(9) * 19683
            + lsb_value(ucodes32(r), 9));
        vstd::arithmetic::div_mod::lemma_fundamental_div_mod_converse(
            lsb_value(ucodes32(a), 9) + lsb_value(ucodes32(b), 9),
            19683,
            carry(9),
            lsb_value(ucodes32(r), 9),
        );
    }
    r
}

/// The Jones addition of two 27-trit words, as for 9-trit words.
pub open spec fn jones_c27(a: u64) -> u64 {
    (a + 0x0015_5555_5555_5555u64) as u64
}

pub open spec fn jones_d27(a: u64, b: u64) -> u64 {
    (b + jones_c27(a)) as u64
}

pub open spec fn jones_e27(a: u64, b: u64) -> u64 {
    b ^ jones_c27(a) ^ jones_d27(a, b)
}

pub open spec fn jones_f27(a: u64, b: u64) -> u64 {
    (!jones_e27(a, b) & 0x0055_5555_5555_5554u64) >> 2u64
}

pub open spec fn jones_r27(a: u64, b: u64) -> u64 {
    ((jones_d27(a, b) - jones_f27(a, b)) as u64) & 0x003F_FFFF_FFFF_FFFFu64
}

/// Each pair of the 27-trit Jones sum is the sum of the pairs and the
/// incoming carry, less three times the outgoing carry.
proof fn lemma_jones27(a: u64, b: u64, s: u64)
    by (bit_vector)
    requires
        valid27(a),
        valid27(b),
        s % 2 == 0,
        s <= 52,
    ensures
        a < 0x0040_0000_0000_0000u64,
        b < 0x0040_0000_0000_0000u64,
        jones_f27(a, b) <= jones_d27(a, b),
        valid27(jones_r27(a, b)),
        (jones_e27(a, b) >> 0u64) & 1u64 == 0,
        (jones_e27(a, b) >> ((s + 2) as u64)) & 1u64 <= 1,
        ((a >> s) & 3u64) + ((b >> s) & 3u64) + ((jones_e27(a, b) >> s) & 1u64) == ((jones_r27(
            a,
            b,
        ) >> s) & 3u64) + 3 * ((jones_e27(a, b) >> ((s + 2) as u64)) & 1u64),
{
}

/// The sum of two 27-digit words modulo `3^27`, by the Jones carry trick.
fn uter_add27(a: u64, b: u64) -> (r: u64)
    requires
        valid27(a),
        valid27(b),
    ensures
        valid27(r),
        lsb_value(ucodes64(r), 27) == (lsb_value(ucodes64(a), 27) + lsb_value(ucodes64(b), 27))
            % 7625597484987,
{
    proof {
        lemma_jones27(a, b, 0);
    }
    let c = a + MASK27_L;
    let d = b + c;
    let e = b ^ c ^ d;
    let f = (!e & 0x0055_5555_5555_5554u64) >> 2;
    let r = (d - f) & MASK27;
    proof {
        assert(c == jones_c27(a));
        assert(d == jones_d27(a, b));
        assert(r == jones_r27(a, b));
        let carry = |k: int| ((e >> (2 * k) as u64) & 1u64) as int;
        assert forall|k: int| 0 <= k < 27 implies ucodes64(a)(k) + ucodes64(b)(k) + carry(k)
            == #[trigger] ucodes64(r)(k) + 3 * carry(k + 1) by {
            lemma_jones27(a, b, (2 * k) as u64);
            assert((2 * k + 2) as u64 == (2 * (k + 1)) as u64);
        }
        lemma_ripple(ucodes64(a), ucodes64(b), carry, ucodes64(r), 27);
        lemma_jones27(a, b, 52);
        assert(carry(27) <= 1);
        assert forall|k: int| 0 <= k < 27 implies 0 <= #[trigger] ucodes64(r)(k) <= 2 by {
            lemma_word27(r, r, (2 * k) as u64, 0);
        }
        lemma_ucodes_bound(ucodes64(r), 27);
        assert(pow3(27) == 7625597484987) by {
            reveal_with_fuel(pow3, 28);
        }
        assert(lsb_value(ucodes64(a), 27) + lsb_value(ucodes64(b), 27) == carry(27) * 7625597484987
            + lsb_value(ucodes64(r), 27));
        vstd::arithmetic::div_mod::lemma_fundamental_div_mod_converse(
            lsb_value(ucodes64(a), 27) + lsb_value(ucodes64(b), 27),
            7625597484987,
            carry(27),
            lsb_value(ucodes64(r), 27),
        );
    }
    r
}

/// Pairs of a valid 9-trit word, and the words the operations build from valid
/// words: valid again, with the pairs they are meant to have.
proof fn lemma_word9(a: u32, b: u32, s: u32, n2: u32)
    by (bit_vector)
    requires
        valid9(a),
        valid9(b),
        s < 32,
        s % 2 == 0,
        n2 <= 16,
        n2 % 2 == 0,
    ensures
        s < 18 ==> (a >> s) & 3 < 3,
        s >= 18 ==> (a >> s) & 3 == 0,
        valid9(il_neg32(a, 0x0001_5555u32)),
        valid9(il_and32(a, b, 0x0001_5555u32)),
        valid9(il_or32(a, b, 0x0001_5555u32)),
        valid9(il_xor32(a, b, 0x0001_5555u32)),
        b <= 0x0002_AAAAu32,
        valid9((0x0002_AAAAu32 - b) as u32 & 0x0003_FFFFu32),
        s < 18 ==> (((0x0002_AAAAu32 - b) as u32 & 0x0003_FFFFu32) >> s) & 3 == 2 - ((b >> s) & 3),
        valid9((a << n2) & 0x0003_FFFFu32),
        (((a << n2) & 0x0003_FFFFu32) >> s) & 3 == (if s < 18 && s >= n2 {
            (a >> ((s - n2) as u32)) & 3
        } else {
            0u32
        }),
        valid9((a >> n2) & 0x0003_FFFFu32),
        (((a >> n2) & 0x0003_FFFFu32) >> s) & 3 == (if s + n2 < 18 {
            (a >> ((s + n2) as u32)) & 3
        } else {
            0u32
        }),
{
}

/// The constant 9-trit words.
proof fn lemma_consts9(s: u32)
    by (bit_vector)
    requires
        s < 32,
        s % 2 == 0,
    ensures
        (0x0001_5555u32 >> s) & 1 == (if s < 18 { 1u32 } else { 0u32 }),
        0x0001_5555u32 & 0xAAAA_AAAAu32 == 0,
        valid9(0),
        valid9(0x0001_5555u32),
        valid9(0x0002_AAAAu32),
        valid9(1),
        (1u32 >> s) & 3 == (if s == 0 { 1u32 } else { 0u32 }),
        (0x0002_AAAAu32 >> s) & 3 == (if s < 18 { 2u32 } else { 0u32 }),
        (0x0001_5555u32 >> s) & 3 == (if s < 18 { 1u32 } else { 0u32 }),
        (0u32 >> s) & 3 == 0,
        valid9(0x0001_5556u32),
        (0x0001_5556u32 >> s) & 3 == (if s == 0 { 2u32 } else if s < 18 { 1u32 } else { 0u32 }),
{
}

/// The interleaved fills of the balanced 9-trit shifts keep a valid word valid
/// and put `01` in the vacated pairs.
proof fn lemma_fill9(a: u32, s: u32, n2: u32)
    by (bit_vector)
    requires
        valid9(a),
        s < 18,
        s % 2 == 0,
        n2 < 18,
        n2 % 2 == 0,
    ensures
        valid9(((a << n2) | (0x0001_5555u32 & ((1u32 << n2) - 1u32) as u32)) & 0x0003_FFFFu32),
        ((((a << n2) | (0x0001_5555u32 & ((1u32 << n2) - 1u32) as u32)) & 0x0003_FFFFu32) >> s)
            & 3 == (if s >= n2 {
            (a >> ((s - n2) as u32)) & 3
        } else {
            1u32
        }),
        valid9(((a >> n2) | (0x0001_5555u32 & (0xFFFF_FFFFu32 << ((18 - n2) as u32))))
            & 0x0003_FFFFu32),
        ((((a >> n2) | (0x0001_5555u32 & (0xFFFF_FFFFu32 << ((18 - n2) as u32))))
            & 0x0003_FFFFu32) >> s) & 3 == (if s + n2 < 18 {
            (a >> ((s + n2) as u32)) & 3
        } else {
            1u32
        }),
        1u32 << n2 >= 1u32,
{
}

/// Writing a digit below 3 into the lowest empty pair of a growing 9-trit word.
proof fn lemma_grow9(w: u32, c: u32, s: u32)
    by (bit_vector)
    requires
        w & (w >> 1u32) & 0x0001_5555u32 == 0,
        w >> s == 0,
        s < 18,
        s % 2 == 0,
        c < 3,
    ensures
        (w | (c << s)) & ((w | (c << s)) >> 1u32) & 0x0001_5555u32 == 0,
        (w | (c << s)) >> ((s + 2) as u32) == 0,
        (w >> s) & 3 == 0,
        0u32 >> s == 0,
        s == 16 ==> ((w | (c << s)) >> 18u32 == 0 ==> (w | (c << s)) & 0xFFFC_0000u32 == 0),
{
}

/// The balanced trits of a word are its unsigned digits less one, so its
/// balanced value is its unsigned value less the bias.
proof fn lemma_bias32(w: u32, n: nat)
    requires
        n <= 16,
    ensures
        lsb_value(il_trits32(w), n) == lsb_value(ucodes32(w), n) - max_value(n),
    decreases n,
{
    crate::model::lemma_pow3_odd(n);
    if n > 0 {
        lemma_bias32(w, (n - 1) as nat);
        crate::model::lemma_pow3_odd((n - 1) as nat);
        assert(pow3(n) == 3 * pow3((n - 1) as nat));
        let c = ucodes32(w)(n - 1);
        let p = pow3((n - 1) as nat);
        assert(il_trits32(w)(n - 1) == c - 1);
        assert((c - 1) * p == c * p - p) by (nonlinear_arith);
    }
}

/// The balanced trits of a 64-bit word are its unsigned digits less one.
pub(crate) proof fn lemma_bias64(w: u64, n: nat)
    requires
        n <= 32,
    ensures
        lsb_value(il_trits64(w), n) == lsb_value(ucodes64(w), n) - max_value(n),
    decreases n,
{
    crate::model::lemma_pow3_odd(n);
    if n > 0 {
        lemma_bias64(w, (n - 1) as nat);
        crate::model::lemma_pow3_odd((n - 1) as nat);
        assert(pow3(n) == 3 * pow3((n - 1) as nat));
        let c = ucodes64(w)(n - 1);
        let p = pow3((n - 1) as nat);
        assert(il_trits64(w)(n - 1) == c - 1);
        assert((c - 1) * p == c * p - p) by (nonlinear_arith);
    }
}

/// The unsigned value of the digits of a word is the weighted sum of its codes.
proof fn lemma_uvalue32(w: u32, n: nat)
    ensures
        udigits32(w, n).len() == n,
        uvalue(udigits32(w, n)) == lsb_value(ucodes32(w), n),
{
    lemma_lsb_value_ext(|k: int| udigits32(w, n)[k], ucodes32(w), n);
}

/// The unsigned value of the digits of a 64-bit word.
proof fn lemma_uvalue64(w: u64, n: nat)
    ensures
        udigits64(w, n).len() == n,
        uvalue(udigits64(w, n)) == lsb_value(ucodes64(w), n),
{
    lemma_lsb_value_ext(|k: int| udigits64(w, n)[k], ucodes64(w), n);
}

/// `n` digits of at most 2 are worth less than `3^n`.
pub(crate) proof fn lemma_ucodes_bound(c: spec_fn(int) -> int, n: nat)
    requires
        forall|k: int| 0 <= k < n ==> 0 <= #[trigger] c(k) <= 2,
    ensures
        0 <= lsb_value(c, n) < pow3(n),
    decreases n,
{
    lemma_pow3_pos(n);
    if n > 0 {
        lemma_ucodes_bound(c, (n - 1) as nat);
        let p = pow3((n - 1) as nat);
        assert(0 <= c(n - 1) * p <= 2 * p) by (nonlinear_arith)
            requires
                0 <= c(n - 1) <= 2,
                p >= 1,
        ;
    }
}

/// The word of the unsigned digits of `v < 3^9`.
fn encode9(v: u32) -> (w: u32)
    requires
        v < 19683,
    ensures
        valid9(w),
        lsb_value(ucodes32(w), 9) == v,
{
    let mut n = v;
    let mut word: u32 = 0;
    let mut k: u32 = 0;
    proof {
        lemma_empty_words();
        reveal_with_fuel(pow3, 10);
    }
    while k < 9
        invariant
            k <= 9,
            word & (word >> 1u32) & 0x0001_5555u32 == 0,
            word >> (2 * k) as u32 == 0,
            n * pow3(k as nat) + lsb_value(ucodes32(word), k as nat) == v,
            v < 19683,
            pow3(9) == 19683,
        decreases 9 - k,
    {
        let c = n % 3;
        let s = 2 * k;
        let nw = word | (c << s);
        proof {
            lemma_grow9(word, c, s);
            assert forall|j: int| 0 <= j < k implies #[trigger] ucodes32(nw)(j) == ucodes32(word)(j) by {
                lemma_set_pair32(word, c, s, (2 * j) as u32);
            }
            lemma_set_pair32(word, c, s, s);
            lemma_lsb_value_ext(ucodes32(nw), ucodes32(word), k as nat);
            assert(ucodes32(nw)(k as int) == c);
            let p = pow3(k as nat);
            assert(pow3((k + 1) as nat) == 3 * p);
            assert(n * p == (n / 3) * (3 * p) + c * p) by (nonlinear_arith)
                requires
                    n == 3 * (n / 3) + c,
            ;
        }
        word = nw;
        n = n / 3;
        k += 1;
    }
    proof {
        lemma_pow3_pos(9);
        assert(word >> 18u32 == 0);
        lemma_valid9_from(word, 0);
        assert forall|j: int| 0 <= j < 9 implies 0 <= #[trigger] ucodes32(word)(j) <= 2 by {
            lemma_word9_pair(word, j);
        }
        lemma_ucodes_bound(ucodes32(word), 9);
        assert(n == 0) by (nonlinear_arith)
            requires
                n * 19683 + lsb_value(ucodes32(word), 9) == v,
                v < 19683,
                lsb_value(ucodes32(word), 9) >= 0,
        ;
    }
    word
}

/// The empty words.
proof fn lemma_empty_words()
    by (bit_vector)
    ensures
        0u32 & (0u32 >> 1u32) & 0x0001_5555u32 == 0,
        0u32 >> 0u32 == 0,
        0u64 & (0u64 >> 1u64) & 0x0015_5555_5555_5555u64 == 0,
        0u64 >> 0u64 == 0,
{
}

/// The pairs of a word whose upper part is empty and whose pairs are not `11`.
proof fn lemma_word9_pair(w: u32, j: int)
    requires
        w & (w >> 1u32) & 0x0001_5555u32 == 0,
        w >> 18u32 == 0,
        0 <= j < 9,
    ensures
        pair32(w, (2 * j) as u32) < 3,
        valid9(w),
{
    lemma_valid9_from(w, (2 * j) as u32);
}

/// A word with empty upper part and no `11` pair in the low nine is valid.
proof fn lemma_valid9_from(w: u32, s: u32)
    by (bit_vector)
    requires
        w & (w >> 1u32) & 0x0001_5555u32 == 0,
        w >> 18u32 == 0,
        s < 18,
        s % 2 == 0,
    ensures
        valid9(w),
        (w >> s) & 3 < 3,
{
}

/// The unsigned value of the nine digits of a valid word.
fn decode9(w: u32) -> (v: u32)
    requires
        valid9(w),
    ensures
        v == lsb_value(ucodes32(w), 9),
        v < 19683,
{
    let mut val: u32 = 0;
    let mut p: u32 = 1;
    let mut k: u32 = 0;
    proof {
        assert forall|j: int| 0 <= j < 9 implies 0 <= #[trigger] ucodes32(w)(j) <= 2 by {
            lemma_word9(w, w, (2 * j) as u32, 0);
        }
    }
    while k < 9
        invariant
            k <= 9,
            valid9(w),
            p == pow3(k as nat),
            val == lsb_value(ucodes32(w), k as nat),
            forall|j: int| 0 <= j < 9 ==> 0 <= #[trigger] ucodes32(w)(j) <= 2,
        decreases 9 - k,
    {
        proof {
            lemma_ucodes_bound(ucodes32(w), (k + 1) as nat);
            crate::model::lemma_pow3_monotone((k + 1) as nat, 9);
            reveal_with_fuel(pow3, 10);
        }
        let c = (w >> (2 * k)) & 3;
        assert(c == ucodes32(w)(k as int));
        proof {
            assert(c * p <= 2 * p) by (nonlinear_arith)
                requires
                    c <= 2,
            ;
        }
        val = val + c * p;
        p = p * 3;
        k += 1;
    }
    proof {
        lemma_ucodes_bound(ucodes32(w), 9);
        reveal_with_fuel(pow3, 10);
    }
    val
}

/// Digits `2 - c(k)` are worth `3^n - 1` less the digits `c(k)`.
proof fn lemma_complement(c: spec_fn(int) -> int, d: spec_fn(int) -> int, n: nat)
    requires
        forall|k: int| 0 <= k < n ==> #[trigger] d(k) == 2 - c(k),
    ensures
        lsb_value(d, n) == pow3(n) - 1 - lsb_value(c, n),
    decreases n,
{
    if n > 0 {
        lemma_complement(c, d, (n - 1) as nat);
        let p = pow3((n - 1) as nat);
        assert((2 - c(n - 1)) * p == 2 * p - c(n - 1) * p) by (nonlinear_arith);
    }
}

/// Digits that are zero above position 0 are worth their lowest digit.
proof fn lemma_lsb_single(c: spec_fn(int) -> int, n: nat)
    requires
        n >= 1,
        forall|k: int| 1 <= k < n ==> #[trigger] c(k) == 0,
    ensures
        lsb_value(c, n) == c(0),
    decreases n,
{
    if n > 1 {
        lemma_lsb_single(c, (n - 1) as nat);
        assert(c(n - 1) == 0);
        assert(c(n - 1) * pow3((n - 1) as nat) == 0);
        assert(lsb_value(c, n) == lsb_value(c, (n - 1) as nat) + c(n - 1) * pow3((n - 1) as nat));
    } else {
        assert(pow3(0) == 1);
        assert(lsb_value(c, 1) == lsb_value(c, 0) + c(0) * pow3(0));
    }
}

/// Digits that are all one but the lowest, which is two, are worth the bias
/// plus one.
pub(crate) proof fn lemma_lsb_remap(c: spec_fn(int) -> int, n: nat)
    requires
        n >= 1,
        forall|k: int| 0 <= k < n ==> #[trigger] c(k) == (if k == 0 { 2int } else { 1int }),
    ensures
        lsb_value(c, n) == max_value(n) + 1,
    decreases n,
{
    crate::model::lemma_pow3_odd(n);
    if n > 1 {
        let m = (n - 1) as nat;
        lemma_lsb_remap(c, m);
        crate::model::lemma_pow3_odd(m);
        assert(pow3(n) == 3 * pow3(m));
        assert(c(m as int) == 1);
        assert(lsb_value(c, n) == lsb_value(c, m) + c(m as int) * pow3(m));
    } else {
        assert(pow3(0) == 1);
        assert(pow3(1) == 3) by {
            reveal_with_fuel(pow3, 2);
        }
        assert(lsb_value(c, 1) == lsb_value(c, 0) + c(0) * pow3(0));
    }
}

/// Adding biased words: with `a + m` and `b + m` added modulo `N = 2m + 1`,
/// and `m + 1` added again, the result less `m` is `a + b` wrapped.
pub(crate) proof fn lemma_bias_add(va: int, vb: int, m: int, s: int, t: int)
    requires
        m >= 1,
        s == (va + m + vb + m) % (2 * m + 1),
        t == (s + m + 1) % (2 * m + 1),
    ensures
        t - m == (va + vb + m) % (2 * m + 1) - m,
{
    let n = 2 * m + 1;
    vstd::arithmetic::div_mod::lemma_add_mod_noop(va + m + vb + m, m + 1, n);
    vstd::arithmetic::div_mod::lemma_small_mod((m + 1) as nat, n as nat);
    vstd::arithmetic::div_mod::lemma_mod_add_multiples_vanish(va + vb + m, n);
    assert((va + m + vb + m) + (m + 1) == (va + vb + m) + n);
}

/// Nine unsigned ternary digits interleaved in a `u32`: digit `k` in the bit
/// pair `(2k+1, 2k)`; the value is below `3^9`.
#[derive(Copy, Clone, Debug, PartialEq, Eq, Hash, Default)]
pub struct UTer9(u32);

impl View for UTer9 {
    type V = Seq<int>;

    /// The nine digits, least significant first.
    closed spec fn view(&self) -> Seq<int> {
        udigits32(self.0, 9)
    }
}

impl UTer9 {
    #[verifier::type_invariant]
    spec fn well_formed(self) -> bool {
        valid9(self.0)
    }

    /// The raw word, in specifications.
    pub closed spec fn word(self) -> u32 {
        self.0
    }

    /// Facts about the digits of a valid word.
    proof fn lemma_digits(w: u32)
        requires
            valid9(w),
        ensures
            udigits32(w, 9).len() == 9,
            uvalue(udigits32(w, 9)) == lsb_value(ucodes32(w), 9),
            0 <= uvalue(udigits32(w, 9)) < 19683,
            forall|k: int| 0 <= k < 9 ==> 0 <= #[trigger] udigits32(w, 9)[k] <= 2,
    {
        lemma_uvalue32(w, 9);
        assert forall|k: int| 0 <= k < 9 implies 0 <= #[trigger] ucodes32(w)(k) <= 2 by {
            lemma_word9(w, w, (2 * k) as u32, 0);
        }
        lemma_ucodes_bound(ucodes32(w), 9);
        reveal_with_fuel(pow3, 10);
    }

    /// Zero: all digits `0`.
    pub fn zero() -> (t: UTer9)
        ensures
            t.word() == 0,
            t@ == Seq::new(9, |k: int| 0int),
    {
        proof {
            lemma_consts9(0);
            assert forall|k: int| 0 <= k < 9 implies #[trigger] udigits32(0, 9)[k] == 0 by {
                lemma_consts9((2 * k) as u32);
            }
        }
        let t = UTer9(0);
        assert(t@ =~= Seq::new(9, |k: int| 0int));
        t
    }

    /// The largest value `3^9 - 1`: all digits `2`.
    pub fn maximum() -> (t: UTer9)
        ensures
            t.word() == 0x0002_AAAA,
            t@ == Seq::new(9, |k: int| 2int),
    {
        proof {
            lemma_consts9(0);
            assert forall|k: int| 0 <= k < 9 implies #[trigger] udigits32(MASK9_H, 9)[k] == 2 by {
                lemma_consts9((2 * k) as u32);
            }
        }
        let t = UTer9(MASK9_H);
        assert(t@ =~= Seq::new(9, |k: int| 2int));
        t
    }

    /// The digits of `v` modulo `3^9`.
    pub fn from_dec(v: u32) -> (t: UTer9)
        ensures
            uvalue(t@) == v % 19683,
    {
        let w = encode9(v % 19683);
        proof {
            lemma_uvalue32(w, 9);
        }
        UTer9(w)
    }

    /// The value.
    pub fn to_dec(&self) -> (r: u32)
        ensures
            r == uvalue(self@),
            r < 19683,
    {
        proof {
            use_type_invariant(self);
            lemma_uvalue32(self.0, 9);
        }
        decode9(self.0)
    }

    /// The raw word.
    pub fn raw(self) -> (w: u32)
        ensures
            w == self.word(),
            self@ == udigits32(w, 9),
    {
        self.0
    }

    /// The sum modulo `3^9`.
    pub fn uter_add(self, other: UTer9) -> (t: UTer9)
        ensures
            uvalue(t@) == (uvalue(self@) + uvalue(other@)) % 19683,
    {
        proof {
            use_type_invariant(self);
            use_type_invariant(other);
            lemma_uvalue32(self.0, 9);
            lemma_uvalue32(other.0, 9);
        }
        let w = uter_add9(self.0, other.0);
        proof {
            lemma_uvalue32(w, 9);
        }
        UTer9(w)
    }

    /// The difference modulo `3^9`: the sum with the complement of `other`.
    pub fn uter_sub(self, other: UTer9) -> (t: UTer9)
        ensures
            uvalue(t@) == (uvalue(self@) - uvalue(other@)) % 19683,
    {
        proof {
            use_type_invariant(self);
            use_type_invariant(other);
            lemma_word9(other.0, other.0, 0, 0);
        }
        let comp2 = (MASK9_H - other.0) & MASK9;
        proof {
            lemma_consts9(0);
            assert forall|k: int| 0 <= k < 9 implies #[trigger] ucodes32(comp2)(k) == 2 - ucodes32(
                other.0,
            )(k) by {
                lemma_word9(other.0, other.0, (2 * k) as u32, 0);
            }
            lemma_complement(ucodes32(other.0), ucodes32(comp2), 9);
            lemma_uvalue32(comp2, 9);
            lemma_uvalue32(other.0, 9);
            lemma_uvalue32(1, 9);
            assert forall|k: int| 0 <= k < 9 implies #[trigger] ucodes32(1)(k) == (if k == 0 {
                1int
            } else {
                0int
            }) by {
                lemma_consts9((2 * k) as u32);
            }
            lemma_lsb_single(ucodes32(1), 9);
            reveal_with_fuel(pow3, 10);
        }
        let one = UTer9(1);
        let c2 = UTer9(comp2);
        let comp3 = c2.uter_add(one);
        let t = self.uter_add(comp3);
        proof {
            let a = uvalue(self@);
            let b = uvalue(other@);
            assert(uvalue(one@) == 1);
            assert(uvalue(c2@) == 19682 - b);
            Self::lemma_digits(self.0);
            Self::lemma_digits(other.0);
            assert(uvalue(comp3@) == (19683 - b) % 19683);
            if b == 0 {
                assert(uvalue(comp3@) == 0);
            } else {
                assert(uvalue(comp3@) == 19683 - b);
            }
        }
        t
    }
}

impl UTer9 {
    /// Digit-wise minimum.
    pub fn trit_and(self, o: UTer9) -> (t: UTer9)
        ensures
            t@.len() == 9,
            forall|k: int| 0 <= k < 9 ==> t@[k] == code_and(self@[k], o@[k]),
    {
        proof {
            use_type_invariant(self);
            use_type_invariant(o);
            lemma_word9(self.0, o.0, 0, 0);
        }
        let w = il_and_u32(self.0, o.0, MASK9_L);
        proof {
            assert forall|k: int| 0 <= k < 9 implies #[trigger] udigits32(w, 9)[k] == code_and(
                udigits32(self.0, 9)[k],
                udigits32(o.0, 9)[k],
            ) by {
                let s = (2 * k) as u32;
                lemma_word9(self.0, o.0, s, 0);
                lemma_word9(o.0, self.0, s, 0);
                lemma_consts9(s);
                lemma_il32(self.0, o.0, MASK9_L, s);
            }
        }
        UTer9(w)
    }

    /// Digit-wise maximum.
    pub fn trit_or(self, o: UTer9) -> (t: UTer9)
        ensures
            t@.len() == 9,
            forall|k: int| 0 <= k < 9 ==> t@[k] == code_or(self@[k], o@[k]),
    {
        proof {
            use_type_invariant(self);
            use_type_invariant(o);
            lemma_word9(self.0, o.0, 0, 0);
        }
        let w = il_or_u32(self.0, o.0, MASK9_L);
        proof {
            assert forall|k: int| 0 <= k < 9 implies #[trigger] udigits32(w, 9)[k] == code_or(
                udigits32(self.0, 9)[k],
                udigits32(o.0, 9)[k],
            ) by {
                let s = (2 * k) as u32;
                lemma_word9(self.0, o.0, s, 0);
                lemma_word9(o.0, self.0, s, 0);
                lemma_consts9(s);
                lemma_il32(self.0, o.0, MASK9_L, s);
            }
        }
        UTer9(w)
    }

    /// Digit-wise exclusive or of the codes, read as balanced trits: `-(x * y)`.
    pub fn trit_xor(self, o: UTer9) -> (t: UTer9)
        ensures
            t@.len() == 9,
            forall|k: int| 0 <= k < 9 ==> t@[k] == code_xor(self@[k], o@[k]),
    {
        proof {
            use_type_invariant(self);
            use_type_invariant(o);
            lemma_word9(self.0, o.0, 0, 0);
        }
        let w = il_xor_u32(self.0, o.0, MASK9_L);
        proof {
            assert forall|k: int| 0 <= k < 9 implies #[trigger] udigits32(w, 9)[k] == code_xor(
                udigits32(self.0, 9)[k],
                udigits32(o.0, 9)[k],
            ) by {
                let s = (2 * k) as u32;
                lemma_word9(self.0, o.0, s, 0);
                lemma_word9(o.0, self.0, s, 0);
                lemma_consts9(s);
                lemma_il32(self.0, o.0, MASK9_L, s);
            }
        }
        UTer9(w)
    }
}

impl Add for UTer9 {
    type Output = UTer9;

    /// The sum modulo `3^9`.
    fn add(self, rhs: UTer9) -> (t: UTer9)
        ensures
            uvalue(t@) == (uvalue(self@) + uvalue(rhs@)) % 19683,
    {
        self.uter_add(rhs)
    }
}

impl vstd::std_specs::ops::AddSpecImpl for UTer9 {
    open spec fn obeys_add_spec() -> bool {
        false
    }

    open spec fn add_req(self, rhs: UTer9) -> bool {
        true
    }

    open spec fn add_spec(self, rhs: UTer9) -> UTer9 {
        arbitrary()
    }
}

impl Sub for UTer9 {
    type Output = UTer9;

    /// The difference modulo `3^9`.
    fn sub(self, rhs: UTer9) -> (t: UTer9)
        ensures
            uvalue(t@) == (uvalue(self@) - uvalue(rhs@)) % 19683,
    {
        self.uter_sub(rhs)
    }
}

impl vstd::std_specs::ops::SubSpecImpl for UTer9 {
    open spec fn obeys_sub_spec() -> bool {
        false
    }

    open spec fn sub_req(self, rhs: UTer9) -> bool {
        true
    }

    open spec fn sub_spec(self, rhs: UTer9) -> UTer9 {
        arbitrary()
    }
}

impl Mul for UTer9 {
    type Output = UTer9;

    /// The product modulo `3^9`.
    fn mul(self, rhs: UTer9) -> (t: UTer9)
        ensures
            uvalue(t@) == (uvalue(self@) * uvalue(rhs@)) % 19683,
    {
        let a = self.to_dec();
        let b = rhs.to_dec();
        proof {
            assert(a * b <= 19682 * 19682) by (nonlinear_arith)
                requires
                    a < 19683,
                    b < 19683,
            ;
        }
        UTer9::from_dec(a * b)
    }
}

impl vstd::std_specs::ops::MulSpecImpl for UTer9 {
    open spec fn obeys_mul_spec() -> bool {
        false
    }

    open spec fn mul_req(self, rhs: UTer9) -> bool {
        true
    }

    open spec fn mul_spec(self, rhs: UTer9) -> UTer9 {
        arbitrary()
    }
}

impl Div for UTer9 {
    type Output = UTer9;

    /// The quotient; the divisor must not be zero.
    fn div(self, rhs: UTer9) -> (t: UTer9)
        ensures
            uvalue(t@) == uvalue(self@) / uvalue(rhs@),
    {
        let a = self.to_dec();
        let b = rhs.to_dec();
        proof {
            vstd::arithmetic::div_mod::lemma_div_is_ordered_by_denominator(a as int, 1, b as int);
        }
        UTer9::from_dec(a / b)
    }
}

impl vstd::std_specs::ops::DivSpecImpl for UTer9 {
    open spec fn obeys_div_spec() -> bool {
        false
    }

    open spec fn div_req(self, rhs: UTer9) -> bool {
        uvalue(rhs@) != 0
    }

    open spec fn div_spec(self, rhs: UTer9) -> UTer9 {
        arbitrary()
    }
}

impl BitAnd for UTer9 {
    type Output = UTer9;

    /// Digit-wise logic.
    fn bitand(self, rhs: UTer9) -> (t: UTer9)
        ensures
            t@.len() == 9,
            forall|k: int| 0 <= k < 9 ==> t@[k] == code_and(self@[k], rhs@[k]),
    {
        self.trit_and(rhs)
    }
}

impl vstd::std_specs::ops::BitAndSpecImpl for UTer9 {
    open spec fn obeys_bitand_spec() -> bool {
        false
    }

    open spec fn bitand_req(self, rhs: UTer9) -> bool {
        true
    }

    open spec fn bitand_spec(self, rhs: UTer9) -> UTer9 {
        arbitrary()
    }
}

impl BitOr for UTer9 {
    type Output = UTer9;

    /// Digit-wise logic.
    fn bitor(self, rhs: UTer9) -> (t: UTer9)
        ensures
            t@.len() == 9,
            forall|k: int| 0 <= k < 9 ==> t@[k] == code_or(self@[k], rhs@[k]),
    {
        self.trit_or(rhs)
    }
}

impl vstd::std_specs::ops::BitOrSpecImpl for UTer9 {
    open spec fn obeys_bitor_spec() -> bool {
        false
    }

    open spec fn bitor_req(self, rhs: UTer9) -> bool {
        true
    }

    open spec fn bitor_spec(self, rhs: UTer9) -> UTer9 {
        arbitrary()
    }
}

impl BitXor for UTer9 {
    type Output = UTer9;

    /// Digit-wise logic.
    fn bitxor(self, rhs: UTer9) -> (t: UTer9)
        ensures
            t@.len() == 9,
            forall|k: int| 0 <= k < 9 ==> t@[k] == code_xor(self@[k], rhs@[k]),
    {
        self.trit_xor(rhs)
    }
}

impl vstd::std_specs::ops::BitXorSpecImpl for UTer9 {
    open spec fn obeys_bitxor_spec() -> bool {
        false
    }

    open spec fn bitxor_req(self, rhs: UTer9) -> bool {
        true
    }

    open spec fn bitxor_spec(self, rhs: UTer9) -> UTer9 {
        arbitrary()
    }
}

impl Shl<usize> for UTer9 {
    type Output = UTer9;

    /// Digits moved `rhs` places toward the most significant end, `0` filling the low places.
    fn shl(self, rhs: usize) -> (t: UTer9)
        ensures
            t@.len() == 9,
            forall|k: int| 0 <= k < 9 ==> t@[k] == if k >= rhs { self@[k - rhs] } else { 0 },
    {
        proof {
            use_type_invariant(self);
        }
        if rhs >= 9 {
            let t = UTer9::zero();
            return t;
        }
        let n2 = (2 * rhs) as u32;
        proof {
            lemma_word9(self.0, self.0, 0, n2);
        }
        let w = (self.0 << n2) & MASK9;
        proof {
            assert forall|k: int| 0 <= k < 9 implies #[trigger] udigits32(w, 9)[k] == if k >= rhs {
                udigits32(self.0, 9)[k - rhs]
            } else {
                0
            } by {
                lemma_word9(self.0, self.0, (2 * k) as u32, n2);
            }
        }
        UTer9(w)
    }
}

impl vstd::std_specs::ops::ShlSpecImpl<usize> for UTer9 {
    open spec fn obeys_shl_spec() -> bool {
        false
    }

    open spec fn shl_req(self, rhs: usize) -> bool {
        true
    }

    open spec fn shl_spec(self, rhs: usize) -> UTer9 {
        arbitrary()
    }
}

impl Shr<usize> for UTer9 {
    type Output = UTer9;

    /// Digits moved `rhs` places toward the least significant end, `0` filling the high places.
    fn shr(self, rhs: usize) -> (t: UTer9)
        ensures
            t@.len() == 9,
            forall|k: int| 0 <= k < 9 ==> t@[k] == if k + rhs < 9 { self@[k + rhs] } else { 0 },
    {
        proof {
            use_type_invariant(self);
        }
        if rhs >= 9 {
            let t = UTer9::zero();
            return t;
        }
        let n2 = (2 * rhs) as u32;
        proof {
            lemma_word9(self.0, self.0, 0, n2);
        }
        let w = (self.0 >> n2) & MASK9;
        proof {
            assert forall|k: int| 0 <= k < 9 implies #[trigger] udigits32(w, 9)[k] == if k + rhs < 9 {
                udigits32(self.0, 9)[k + rhs]
            } else {
                0
            } by {
                lemma_word9(self.0, self.0, (2 * k) as u32, n2);
            }
        }
        UTer9(w)
    }
}

impl vstd::std_specs::ops::ShrSpecImpl<usize> for UTer9 {
    open spec fn obeys_shr_spec() -> bool {
        false
    }

    open spec fn shr_req(self, rhs: usize) -> bool {
        true
    }

    open spec fn shr_spec(self, rhs: usize) -> UTer9 {
        arbitrary()
    }
}

/// Nine balanced trits interleaved in a `u32`: trit `k` in the bit pair
/// `(2k+1, 2k)`, coded `00` (`Neg`), `01` (`Zero`), `10` (`Pos`).
#[derive(Copy, Clone, Debug, PartialEq, Eq, Hash, Default)]
pub struct BTer9(u32);

impl View for BTer9 {
    type V = Seq<Digit>;

    closed spec fn view(&self) -> Seq<Digit> {
        il_digits32(self.0, 9)
    }
}

impl BTer9 {
    #[verifier::type_invariant]
    spec fn well_formed(self) -> bool {
        valid9(self.0)
    }

    /// The raw word, in specifications.
    pub closed spec fn word(self) -> u32 {
        self.0
    }

    /// The digits of a valid word, and their value: the unsigned value less the bias.
    proof fn lemma_digits(w: u32)
        requires
            valid9(w),
        ensures
            il_valid32(w, 9),
            il_digits32(w, 9).len() == 9,
            value(il_digits32(w, 9)) == lsb_value(ucodes32(w), 9) - 9841,
            -9841 <= value(il_digits32(w, 9)) <= 9841,
    {
        assert forall|k: int| 0 <= k < 9 implies #[trigger] pair32(w, (2 * k) as u32) < 3 by {
            lemma_word9(w, w, (2 * k) as u32, 0);
        }
        lemma_il_value32(w, 9);
        lemma_bias32(w, 9);
        reveal_with_fuel(pow3, 10);
    }

    /// A valid word with its digits.
    fn from_valid(w: u32) -> (t: BTer9)
        requires
            valid9(w),
        ensures
            t.word() == w,
            t@ == il_digits32(w, 9),
            t@.len() == 9,
            value(t@) == lsb_value(ucodes32(w), 9) - 9841,
    {
        proof {
            Self::lemma_digits(w);
        }
        BTer9(w)
    }

    /// All trits `Zero`.
    pub fn zero() -> (t: BTer9)
        ensures
            t.word() == 0x0001_5555,
            t@ == zeros(9),
    {
        proof {
            lemma_consts9(0);
        }
        let t = Self::from_valid(MASK9_L);
        proof {
            assert forall|i: int| 0 <= i < 9 implies t@[i] == Digit::Zero by {
                lemma_consts9((2 * (8 - i)) as u32);
            }
            assert(t@ =~= zeros(9));
        }
        t
    }

    /// All trits `Pos`: the largest value, 9841.
    pub fn maximum() -> (t: BTer9)
        ensures
            t.word() == 0x0002_AAAA,
            t@ == Seq::new(9, |i: int| Digit::Pos),
    {
        proof {
            lemma_consts9(0);
        }
        let t = Self::from_valid(MASK9_H);
        proof {
            assert forall|i: int| 0 <= i < 9 implies t@[i] == Digit::Pos by {
                lemma_consts9((2 * (8 - i)) as u32);
            }
            assert(t@ =~= Seq::new(9, |i: int| Digit::Pos));
        }
        t
    }

    /// All trits `Neg`: the smallest value, -9841.
    pub fn minimum() -> (t: BTer9)
        ensures
            t.word() == 0,
            t@ == Seq::new(9, |i: int| Digit::Neg),
    {
        proof {
            lemma_consts9(0);
        }
        let t = Self::from_valid(0);
        proof {
            assert forall|i: int| 0 <= i < 9 implies t@[i] == Digit::Neg by {
                lemma_consts9((2 * (8 - i)) as u32);
            }
            assert(t@ =~= Seq::new(9, |i: int| Digit::Neg));
        }
        t
    }

    /// The nine trits of the unsigned digits of `v + 9841` read as a `u32`,
    /// modulo `3^9`: `v` itself when it fits nine trits.
    pub fn from_dec(v: i32) -> (t: BTer9)
        requires
            v <= i32::MAX - 9841,
        ensures
            t@.len() == 9,
            value(t@) == ((v + 9841) as u32) % 19683 - 9841,
            -9841 <= v <= 9841 ==> value(t@) == v,
    {
        let w = encode9(((v + 9841) as u32) % 19683);
        Self::from_valid(w)
    }

    /// The value.
    pub fn to_dec(&self) -> (r: i32)
        ensures
            r == value(self@),
            -9841 <= r <= 9841,
    {
        proof {
            use_type_invariant(self);
            Self::lemma_digits(self.0);
        }
        decode9(self.0) as i32 - 9841
    }

    /// The raw word.
    pub fn raw(self) -> (w: u32)
        ensures
            w == self.word(),
            self@ == il_digits32(w, 9),
    {
        self.0
    }

    /// The same word read as unsigned digits: the value plus 9841.
    pub fn to_uter9(self) -> (t: UTer9)
        ensures
            t.word() == self.word(),
            uvalue(t@) == value(self@) + 9841,
    {
        proof {
            use_type_invariant(self);
            Self::lemma_digits(self.0);
            lemma_uvalue32(self.0, 9);
        }
        UTer9(self.0)
    }
}

impl BTer9 {
    /// Trit-wise negation.
    pub fn il_neg(self) -> (t: BTer9)
        ensures
            t@.len() == 9,
            forall|i: int| 0 <= i < 9 ==> t@[i] == self@[i].negated(),
    {
        proof {
            use_type_invariant(self);
            use_type_invariant(self);
            lemma_word9(self.0, self.0, 0, 0);
            Self::lemma_digits(self.0);
            Self::lemma_digits(self.0);
        }
        let w = il_neg_u32(self.0, MASK9_L);
        let t = Self::from_valid(w);
        proof {
            assert forall|i: int| 0 <= i < 9 implies t@[i] == self@[i].negated() by {
                let s = (2 * (8 - i)) as u32;
                lemma_word9(self.0, self.0, s, 0);
                lemma_word9(self.0, self.0, s, 0);
                lemma_consts9(s);
                lemma_il32(self.0, self.0, MASK9_L, s);
                lemma_code_digits(pair32(self.0, s) as int, pair32(self.0, s) as int);
            }
        }
        t
    }

    /// Trit-wise minimum (Kleene AND).
    pub fn il_and(self, o: BTer9) -> (t: BTer9)
        ensures
            t@.len() == 9,
            forall|i: int| 0 <= i < 9 ==> t@[i] == self@[i].min_digit(o@[i]),
    {
        proof {
            use_type_invariant(self);
            use_type_invariant(o);
            lemma_word9(self.0, o.0, 0, 0);
            Self::lemma_digits(self.0);
            Self::lemma_digits(o.0);
        }
        let w = il_and_u32(self.0, o.0, MASK9_L);
        let t = Self::from_valid(w);
        proof {
            assert forall|i: int| 0 <= i < 9 implies t@[i] == self@[i].min_digit(o@[i]) by {
                let s = (2 * (8 - i)) as u32;
                lemma_word9(self.0, o.0, s, 0);
                lemma_word9(o.0, self.0, s, 0);
                lemma_consts9(s);
                lemma_il32(self.0, o.0, MASK9_L, s);
                lemma_code_digits(pair32(self.0, s) as int, pair32(o.0, s) as int);
            }
        }
        t
    }

    /// Trit-wise maximum (Kleene OR).
    pub fn il_or(self, o: BTer9) -> (t: BTer9)
        ensures
            t@.len() == 9,
            forall|i: int| 0 <= i < 9 ==> t@[i] == self@[i].max_digit(o@[i]),
    {
        proof {
            use_type_invariant(self);
            use_type_invariant(o);
            lemma_word9(self.0, o.0, 0, 0);
            Self::lemma_digits(self.0);
            Self::lemma_digits(o.0);
        }
        let w = il_or_u32(self.0, o.0, MASK9_L);
        let t = Self::from_valid(w);
        proof {
            assert forall|i: int| 0 <= i < 9 implies t@[i] == self@[i].max_digit(o@[i]) by {
                let s = (2 * (8 - i)) as u32;
                lemma_word9(self.0, o.0, s, 0);
                lemma_word9(o.0, self.0, s, 0);
                lemma_consts9(s);
                lemma_il32(self.0, o.0, MASK9_L, s);
                lemma_code_digits(pair32(self.0, s) as int, pair32(o.0, s) as int);
            }
        }
        t
    }

    /// Trit-wise `-(a * b)` (Kleene XOR).
    pub fn il_xor(self, o: BTer9) -> (t: BTer9)
        ensures
            t@.len() == 9,
            forall|i: int| 0 <= i < 9 ==> t@[i] == digit_of(-(self@[i].val() * o@[i].val())),
    {
        proof {
            use_type_invariant(self);
            use_type_invariant(o);
            lemma_word9(self.0, o.0, 0, 0);
            Self::lemma_digits(self.0);
            Self::lemma_digits(o.0);
        }
        let w = il_xor_u32(self.0, o.0, MASK9_L);
        let t = Self::from_valid(w);
        proof {
            assert forall|i: int| 0 <= i < 9 implies t@[i] == digit_of(-(self@[i].val() * o@[i].val())) by {
                let s = (2 * (8 - i)) as u32;
                lemma_word9(self.0, o.0, s, 0);
                lemma_word9(o.0, self.0, s, 0);
                lemma_consts9(s);
                lemma_il32(self.0, o.0, MASK9_L, s);
                lemma_code_digits(pair32(self.0, s) as int, pair32(o.0, s) as int);
            }
        }
        t
    }

    /// Trits moved `n` places toward the most significant end, `Zero` filling
    /// the low places; the result keeps nine trits.
    pub fn il_shl(self, n: usize) -> (t: BTer9)
        ensures
            n < 9 ==> t@ == self@.skip(n as int) + zeros(n as nat),
            n >= 9 ==> t@ == zeros(9),
    {
        if n >= 9 {
            return Self::zero();
        }
        proof {
            use_type_invariant(self);
            Self::lemma_digits(self.0);
        }
        let n2 = (2 * n) as u32;
        proof {
            lemma_fill9(self.0, 0, n2);
        }
        let fill = MASK9_L & ((1u32 << n2) - 1);
        let w = ((self.0 << n2) | fill) & MASK9;
        let t = Self::from_valid(w);
        proof {
            assert forall|i: int| 0 <= i < 9 implies t@[i] == (self@.skip(n as int) + zeros(
                n as nat,
            ))[i] by {
                let k = 8 - i;
                lemma_fill9(self.0, (2 * k) as u32, n2);
                if k >= n {
                    assert(pair32(self.0, (2 * (k - n)) as u32) == pair32(self.0, ((2 * k) as u32 - n2) as u32));
                }
            }
            assert(t@ =~= self@.skip(n as int) + zeros(n as nat));
        }
        t
    }

    /// Trits moved `n` places toward the least significant end, `Zero` filling
    /// the high places.
    pub fn il_shr(self, n: usize) -> (t: BTer9)
        ensures
            n < 9 ==> t@ == zeros(n as nat) + self@.take(9 - n),
            n >= 9 ==> t@ == zeros(9),
    {
        if n >= 9 {
            return Self::zero();
        }
        proof {
            use_type_invariant(self);
            Self::lemma_digits(self.0);
        }
        let n2 = (2 * n) as u32;
        proof {
            lemma_fill9(self.0, 0, n2);
        }
        let fill = MASK9_L & (0xFFFF_FFFFu32 << (18 - n2));
        let w = ((self.0 >> n2) | fill) & MASK9;
        let t = Self::from_valid(w);
        proof {
            assert forall|i: int| 0 <= i < 9 implies t@[i] == (zeros(n as nat) + self@.take(
                9 - n,
            ))[i] by {
                let k = 8 - i;
                lemma_fill9(self.0, (2 * k) as u32, n2);
                if k + n < 9 {
                    assert(pair32(self.0, (2 * (k + n)) as u32) == pair32(self.0, ((2 * k) as u32 + n2) as u32));
                }
            }
            assert(t@ =~= zeros(n as nat) + self@.take(9 - n));
        }
        t
    }
}

impl Add for BTer9 {
    type Output = BTer9;

    /// The sum, wrapped into nine trits.
    fn add(self, rhs: BTer9) -> (t: BTer9)
        ensures
            value(t@) == crate::tryte::wrap(value(self@) + value(rhs@), 9),
    {
        proof {
            use_type_invariant(self);
            use_type_invariant(rhs);
            BTer9::lemma_digits(self.0);
            BTer9::lemma_digits(rhs.0);
            lemma_consts9(0);
            assert forall|k: int| 0 <= k < 9 implies #[trigger] ucodes32(0x0001_5556u32)(k) == (if k
                == 0 {
                2int
            } else {
                1int
            }) by {
                lemma_consts9((2 * k) as u32);
            }
            lemma_lsb_remap(ucodes32(0x0001_5556u32), 9);
            reveal_with_fuel(pow3, 10);
        }
        let s = uter_add9(self.0, rhs.0);
        let w = uter_add9(s, 0x0001_5556u32);
        proof {
            lemma_bias_add(
                value(self@),
                value(rhs@),
                9841,
                lsb_value(ucodes32(s), 9),
                lsb_value(ucodes32(w), 9),
            );
        }
        BTer9::from_valid(w)
    }
}

impl vstd::std_specs::ops::AddSpecImpl for BTer9 {
    open spec fn obeys_add_spec() -> bool {
        false
    }

    open spec fn add_req(self, rhs: BTer9) -> bool {
        true
    }

    open spec fn add_spec(self, rhs: BTer9) -> BTer9 {
        arbitrary()
    }
}

impl Sub for BTer9 {
    type Output = BTer9;

    /// The difference, wrapped into nine trits.
    fn sub(self, rhs: BTer9) -> (t: BTer9)
        ensures
            value(t@) == crate::tryte::wrap(value(self@) - value(rhs@), 9),
    {
        let neg = rhs.il_neg();
        proof {
            use_type_invariant(rhs);
            BTer9::lemma_digits(rhs.0);
            assert(neg@ =~= crate::model::negate_seq(rhs@));
            crate::model::lemma_value_negate(rhs@);
        }
        Add::add(self, neg)
    }
}

impl vstd::std_specs::ops::SubSpecImpl for BTer9 {
    open spec fn obeys_sub_spec() -> bool {
        false
    }

    open spec fn sub_req(self, rhs: BTer9) -> bool {
        true
    }

    open spec fn sub_spec(self, rhs: BTer9) -> BTer9 {
        arbitrary()
    }
}

impl Mul for BTer9 {
    type Output = BTer9;

    /// The product, exact when it fits nine trits; otherwise the nine trits
    /// that `from_dec` gives it.
    fn mul(self, rhs: BTer9) -> (t: BTer9)
        ensures
            value(t@) == ((value(self@) * value(rhs@) + 9841) as u32) % 19683 - 9841,
            -9841 <= value(self@) * value(rhs@) <= 9841 ==> value(t@) == value(self@) * value(rhs@),
    {
        let a = self.to_dec();
        let b = rhs.to_dec();
        proof {
            assert(-9841 * 9841 <= a * b <= 9841 * 9841) by (nonlinear_arith)
                requires
                    -9841 <= a <= 9841,
                    -9841 <= b <= 9841,
            ;
        }
        BTer9::from_dec(a * b)
    }
}

impl vstd::std_specs::ops::MulSpecImpl for BTer9 {
    open spec fn obeys_mul_spec() -> bool {
        false
    }

    open spec fn mul_req(self, rhs: BTer9) -> bool {
        true
    }

    open spec fn mul_spec(self, rhs: BTer9) -> BTer9 {
        arbitrary()
    }
}

impl Div for BTer9 {
    type Output = BTer9;

    /// The quotient rounded toward zero; the divisor must not be zero.
    fn div(self, rhs: BTer9) -> (t: BTer9)
        ensures
            value(t@) == trunc_div(value(self@), value(rhs@)),
    {
        proof {
            use_type_invariant(self);
            use_type_invariant(rhs);
            Self::lemma_digits(self.0);
            Self::lemma_digits(rhs.0);
        }
        let a = self.to_dec();
        let b = rhs.to_dec();
        let ma: u32 = if a < 0 { (0 - a) as u32 } else { a as u32 };
        let mb: u32 = if b < 0 { (0 - b) as u32 } else { b as u32 };
        let q = ma / mb;
        proof {
            vstd::arithmetic::div_mod::lemma_div_is_ordered_by_denominator(ma as int, 1, mb as int);
        }
        let qi = q as i32;
        let r = if (a < 0) == (b < 0) {
            qi
        } else {
            -qi
        };
        BTer9::from_dec(r)
    }
}

impl vstd::std_specs::ops::DivSpecImpl for BTer9 {
    open spec fn obeys_div_spec() -> bool {
        false
    }

    open spec fn div_req(self, rhs: BTer9) -> bool {
        value(rhs@) != 0
    }

    open spec fn div_spec(self, rhs: BTer9) -> BTer9 {
        arbitrary()
    }
}

impl Neg for BTer9 {
    type Output = BTer9;

    /// Every trit negated.
    fn neg(self) -> (t: BTer9)
        ensures
            t@.len() == 9,
            forall|i: int| 0 <= i < 9 ==> t@[i] == self@[i].negated(),
    {
        self.il_neg()
    }
}

impl vstd::std_specs::ops::NegSpecImpl for BTer9 {
    open spec fn obeys_neg_spec() -> bool {
        false
    }

    open spec fn neg_req(self) -> bool {
        true
    }

    open spec fn neg_spec(self) -> BTer9 {
        arbitrary()
    }
}

impl Not for BTer9 {
    type Output = BTer9;

    /// Kleene negation: every trit negated.
    fn not(self) -> (t: BTer9)
        ensures
            t@.len() == 9,
            forall|i: int| 0 <= i < 9 ==> t@[i] == self@[i].negated(),
    {
        self.il_neg()
    }
}

impl vstd::std_specs::ops::NotSpecImpl for BTer9 {
    open spec fn obeys_not_spec() -> bool {
        false
    }

    open spec fn not_req(self) -> bool {
        true
    }

    open spec fn not_spec(self) -> BTer9 {
        arbitrary()
    }
}

impl BitAnd for BTer9 {
    type Output = BTer9;

    /// Trit-wise minimum.
    fn bitand(self, rhs: BTer9) -> (t: BTer9)
        ensures
            t@.len() == 9,
            forall|i: int| 0 <= i < 9 ==> t@[i] == self@[i].min_digit(rhs@[i]),
    {
        self.il_and(rhs)
    }
}

impl vstd::std_specs::ops::BitAndSpecImpl for BTer9 {
    open spec fn obeys_bitand_spec() -> bool {
        false
    }

    open spec fn bitand_req(self, rhs: BTer9) -> bool {
        true
    }

    open spec fn bitand_spec(self, rhs: BTer9) -> BTer9 {
        arbitrary()
    }
}

impl BitOr for BTer9 {
    type Output = BTer9;

    /// Trit-wise maximum.
    fn bitor(self, rhs: BTer9) -> (t: BTer9)
        ensures
            t@.len() == 9,
            forall|i: int| 0 <= i < 9 ==> t@[i] == self@[i].max_digit(rhs@[i]),
    {
        self.il_or(rhs)
    }
}

impl vstd::std_specs::ops::BitOrSpecImpl for BTer9 {
    open spec fn obeys_bitor_spec() -> bool {
        false
    }

    open spec fn bitor_req(self, rhs: BTer9) -> bool {
        true
    }

    open spec fn bitor_spec(self, rhs: BTer9) -> BTer9 {
        arbitrary()
    }
}

impl BitXor for BTer9 {
    type Output = BTer9;

    /// Trit-wise `-(a * b)`.
    fn bitxor(self, rhs: BTer9) -> (t: BTer9)
        ensures
            t@.len() == 9,
            forall|i: int| 0 <= i < 9 ==> t@[i] == digit_of(-(self@[i].val() * rhs@[i].val())),
    {
        self.il_xor(rhs)
    }
}

impl vstd::std_specs::ops::BitXorSpecImpl for BTer9 {
    open spec fn obeys_bitxor_spec() -> bool {
        false
    }

    open spec fn bitxor_req(self, rhs: BTer9) -> bool {
        true
    }

    open spec fn bitxor_spec(self, rhs: BTer9) -> BTer9 {
        arbitrary()
    }
}

impl Shl<usize> for BTer9 {
    type Output = BTer9;

    /// Trits moved toward the most significant end.
    fn shl(self, rhs: usize) -> (t: BTer9)
        ensures
            rhs < 9 ==> t@ == self@.skip(rhs as int) + zeros(rhs as nat),
            rhs >= 9 ==> t@ == zeros(9),
    {
        self.il_shl(rhs)
    }
}

impl vstd::std_specs::ops::ShlSpecImpl<usize> for BTer9 {
    open spec fn obeys_shl_spec() -> bool {
        false
    }

    open spec fn shl_req(self, rhs: usize) -> bool {
        true
    }

    open spec fn shl_spec(self, rhs: usize) -> BTer9 {
        arbitrary()
    }
}

impl Shr<usize> for BTer9 {
    type Output = BTer9;

    /// Trits moved toward the least significant end.
    fn shr(self, rhs: usize) -> (t: BTer9)
        ensures
            rhs < 9 ==> t@ == zeros(rhs as nat) + self@.take(9 - rhs),
            rhs >= 9 ==> t@ == zeros(9),
    {
        self.il_shr(rhs)
    }
}

impl vstd::std_specs::ops::ShrSpecImpl<usize> for BTer9 {
    open spec fn obeys_shr_spec() -> bool {
        false
    }

    open spec fn shr_req(self, rhs: usize) -> bool {
        true
    }

    open spec fn shr_spec(self, rhs: usize) -> BTer9 {
        arbitrary()
    }
}


/// Pairs of a valid 27-trit word, and the words the operations build from valid
/// words: valid again, with the pairs they are meant to have.
proof fn lemma_word27(a: u64, b: u64, s: u64, n2: u64)
    by (bit_vector)
    requires
        valid27(a),
        valid27(b),
        s < 64,
        s % 2 == 0,
        n2 <= 52,
        n2 % 2 == 0,
    ensures
        s < 54 ==> (a >> s) & 3 < 3,
        s >= 54 ==> (a >> s) & 3 == 0,
        valid27(il_neg64(a, 0x0015_5555_5555_5555u64)),
        valid27(il_and64(a, b, 0x0015_5555_5555_5555u64)),
        valid27(il_or64(a, b, 0x0015_5555_5555_5555u64)),
        valid27(il_xor64(a, b, 0x0015_5555_5555_5555u64)),
        b <= 0x002A_AAAA_AAAA_AAAAu64,
        valid27((0x002A_AAAA_AAAA_AAAAu64 - b) as u64 & 0x003F_FFFF_FFFF_FFFFu64),
        s < 54 ==> (((0x002A_AAAA_AAAA_AAAAu64 - b) as u64 & 0x003F_FFFF_FFFF_FFFFu64) >> s) & 3 == 2 - ((b >> s) & 3),
        valid27((a << n2) & 0x003F_FFFF_FFFF_FFFFu64),
        (((a << n2) & 0x003F_FFFF_FFFF_FFFFu64) >> s) & 3 == (if s < 54 && s >= n2 {
            (a >> ((s - n2) as u64)) & 3
        } else {
            0u64
        }),
        valid27((a >> n2) & 0x003F_FFFF_FFFF_FFFFu64),
        (((a >> n2) & 0x003F_FFFF_FFFF_FFFFu64) >> s) & 3 == (if s + n2 < 54 {
            (a >> ((s + n2) as u64)) & 3
        } else {
            0u64
        }),
{
}

/// The constant 27-trit words.
proof fn lemma_consts27(s: u64)
    by (bit_vector)
    requires
        s < 64,
        s % 2 == 0,
    ensures
        (0x0015_5555_5555_5555u64 >> s) & 1 == (if s < 54 { 1u64 } else { 0u64 }),
        0x0015_5555_5555_5555u64 & 0xAAAA_AAAA_AAAA_AAAAu64 == 0,
        valid27(0),
        valid27(0x0015_5555_5555_5555u64),
        valid27(0x002A_AAAA_AAAA_AAAAu64),
        valid27(1),
        (1u64 >> s) & 3 == (if s == 0 { 1u64 } else { 0u64 }),
        (0x002A_AAAA_AAAA_AAAAu64 >> s) & 3 == (if s < 54 { 2u64 } else { 0u64 }),
        (0x0015_5555_5555_5555u64 >> s) & 3 == (if s < 54 { 1u64 } else { 0u64 }),
        (0u64 >> s) & 3 == 0,
        valid27(0x0015_5555_5555_5556u64),
        (0x0015_5555_5555_5556u64 >> s) & 3 == (if s == 0 {
            2u64
        } else if s < 54 {
            1u64
        } else {
            0u64
        }),
{
}

/// The interleaved fills of the balanced 27-trit shifts keep a valid word valid
/// and put `01` in the vacated pairs.
proof fn lemma_fill27(a: u64, s: u64, n2: u64)
    by (bit_vector)
    requires
        valid27(a),
        s < 54,
        s % 2 == 0,
        n2 < 54,
        n2 % 2 == 0,
    ensures
        valid27(((a << n2) | (0x0015_5555_5555_5555u64 & ((1u64 << n2) - 1u64) as u64)) & 0x003F_FFFF_FFFF_FFFFu64),
        ((((a << n2) | (0x0015_5555_5555_5555u64 & ((1u64 << n2) - 1u64) as u64)) & 0x003F_FFFF_FFFF_FFFFu64) >> s)
            & 3 == (if s >= n2 {
            (a >> ((s - n2) as u64)) & 3
        } else {
            1u64
        }),
        valid27(((a >> n2) | (0x0015_5555_5555_5555u64 & (0xFFFF_FFFF_FFFF_FFFFu64 << ((54 - n2) as u64))))
            & 0x003F_FFFF_FFFF_FFFFu64),
        ((((a >> n2) | (0x0015_5555_5555_5555u64 & (0xFFFF_FFFF_FFFF_FFFFu64 << ((54 - n2) as u64))))
            & 0x003F_FFFF_FFFF_FFFFu64) >> s) & 3 == (if s + n2 < 54 {
            (a >> ((s + n2) as u64)) & 3
        } else {
            1u64
        }),
        1u64 << n2 >= 1u64,
{
}

/// Writing a digit below 3 into the lowest empty pair of a growing 27-trit word.
proof fn lemma_grow27(w: u64, c: u64, s: u64)
    by (bit_vector)
    requires
        w & (w >> 1u64) & 0x0015_5555_5555_5555u64 == 0,
        w >> s == 0,
        s < 54,
        s % 2 == 0,
        c < 3,
    ensures
        (w | (c << s)) & ((w | (c << s)) >> 1u64) & 0x0015_5555_5555_5555u64 == 0,
        (w | (c << s)) >> ((s + 2) as u64) == 0,
        (w >> s) & 3 == 0,
        0u64 >> s == 0,
        s == 52 ==> ((w | (c << s)) >> 54u64 == 0 ==> (w | (c << s)) & 0xFFC0_0000_0000_0000u64 == 0),
{
}

/// The word of the unsigned digits of `v < 3^27`.
fn encode27(v: u64) -> (w: u64)
    requires
        v < 7625597484987,
    ensures
        valid27(w),
        lsb_value(ucodes64(w), 27) == v,
{
    let mut n = v;
    let mut word: u64 = 0;
    let mut k: u64 = 0;
    proof {
        lemma_empty_words();
        reveal_with_fuel(pow3, 28);
    }
    while k < 27
        invariant
            k <= 27,
            word & (word >> 1u64) & 0x0015_5555_5555_5555u64 == 0,
            word >> (2 * k) as u64 == 0,
            n * pow3(k as nat) + lsb_value(ucodes64(word), k as nat) == v,
            v < 7625597484987,
            pow3(27) == 7625597484987,
        decreases 27 - k,
    {
        let c = n % 3;
        let s = 2 * k;
        let nw = word | (c << s);
        proof {
            lemma_grow27(word, c, s);
            assert forall|j: int| 0 <= j < k implies #[trigger] ucodes64(nw)(j) == ucodes64(word)(j) by {
                lemma_set_pair64(word, c, s, (2 * j) as u64);
            }
            lemma_set_pair64(word, c, s, s);
            lemma_lsb_value_ext(ucodes64(nw), ucodes64(word), k as nat);
            assert(ucodes64(nw)(k as int) == c);
            let p = pow3(k as nat);
            assert(pow3((k + 1) as nat) == 3 * p);
            assert(n * p == (n / 3) * (3 * p) + c * p) by (nonlinear_arith)
                requires
                    n == 3 * (n / 3) + c,
            ;
        }
        word = nw;
        n = n / 3;
        k += 1;
    }
    proof {
        lemma_pow3_pos(27);
        assert(word >> 54u64 == 0);
        lemma_valid27_from(word, 0);
        assert forall|j: int| 0 <= j < 27 implies 0 <= #[trigger] ucodes64(word)(j) <= 2 by {
            lemma_word27_pair(word, j);
        }
        lemma_ucodes_bound(ucodes64(word), 27);
        assert(n == 0) by (nonlinear_arith)
            requires
                n * 7625597484987 + lsb_value(ucodes64(word), 27) == v,
                v < 7625597484987,
                lsb_value(ucodes64(word), 27) >= 0,
        ;
    }
    word
}

/// The pairs of a word whose upper part is empty and whose pairs are not `11`.
proof fn lemma_word27_pair(w: u64, j: int)
    requires
        w & (w >> 1u64) & 0x0015_5555_5555_5555u64 == 0,
        w >> 54u64 == 0,
        0 <= j < 27,
    ensures
        pair64(w, (2 * j) as u64) < 3,
        valid27(w),
{
    lemma_valid27_from(w, (2 * j) as u64);
}

/// A word with empty upper part and no `11` pair in the low 27 is valid.
proof fn lemma_valid27_from(w: u64, s: u64)
    by (bit_vector)
    requires
        w & (w >> 1u64) & 0x0015_5555_5555_5555u64 == 0,
        w >> 54u64 == 0,
        s < 54,
        s % 2 == 0,
    ensures
        valid27(w),
        (w >> s) & 3 < 3,
{
}

/// The unsigned value of the 27 digits of a valid word.
fn decode27(w: u64) -> (v: u64)
    requires
        valid27(w),
    ensures
        v == lsb_value(ucodes64(w), 27),
        v < 7625597484987,
{
    let mut val: u64 = 0;
    let mut p: u64 = 1;
    let mut k: u64 = 0;
    proof {
        assert forall|j: int| 0 <= j < 27 implies 0 <= #[trigger] ucodes64(w)(j) <= 2 by {
            lemma_word27(w, w, (2 * j) as u64, 0);
        }
    }
    while k < 27
        invariant
            k <= 27,
            valid27(w),
            p == pow3(k as nat),
            val == lsb_value(ucodes64(w), k as nat),
            forall|j: int| 0 <= j < 27 ==> 0 <= #[trigger] ucodes64(w)(j) <= 2,
        decreases 27 - k,
    {
        proof {
            lemma_ucodes_bound(ucodes64(w), (k + 1) as nat);
            crate::model::lemma_pow3_monotone((k + 1) as nat, 27);
            reveal_with_fuel(pow3, 28);
        }
        let c = (w >> (2 * k)) & 3;
        assert(c == ucodes64(w)(k as int));
        proof {
            assert(c * p <= 2 * p) by (nonlinear_arith)
                requires
                    c <= 2,
            ;
        }
        val = val + c * p;
        p = p * 3;
        k += 1;
    }
    proof {
        lemma_ucodes_bound(ucodes64(w), 27);
        reveal_with_fuel(pow3, 28);
    }
    val
}

/// 27 unsigned ternary digits interleaved in a `u64`: digit `k` in the bit
/// pair `(2k+1, 2k)`; the value is below `3^27`.
#[derive(Copy, Clone, Debug, PartialEq, Eq, Hash, Default)]
pub struct UTer27(u64);

impl View for UTer27 {
    type V = Seq<int>;

    /// The 27 digits, least significant first.
    closed spec fn view(&self) -> Seq<int> {
        udigits64(self.0, 27)
    }
}

impl UTer27 {
    #[verifier::type_invariant]
    spec fn well_formed(self) -> bool {
        valid27(self.0)
    }

    /// The raw word, in specifications.
    pub closed spec fn word(self) -> u64 {
        self.0
    }

    /// Facts about the digits of a valid word.
    proof fn lemma_digits(w: u64)
        requires
            valid27(w),
        ensures
            udigits64(w, 27).len() == 27,
            uvalue(udigits64(w, 27)) == lsb_value(ucodes64(w), 27),
            0 <= uvalue(udigits64(w, 27)) < 7625597484987,
            forall|k: int| 0 <= k < 27 ==> 0 <= #[trigger] udigits64(w, 27)[k] <= 2,
    {
        lemma_uvalue64(w, 27);
        assert forall|k: int| 0 <= k < 27 implies 0 <= #[trigger] ucodes64(w)(k) <= 2 by {
            lemma_word27(w, w, (2 * k) as u64, 0);
        }
        lemma_ucodes_bound(ucodes64(w), 27);
        reveal_with_fuel(pow3, 28);
    }

    /// Zero: all digits `0`.
    pub fn zero() -> (t: UTer27)
        ensures
            t.word() == 0,
            t@ == Seq::new(27, |k: int| 0int),
    {
        proof {
            lemma_consts27(0);
            assert forall|k: int| 0 <= k < 27 implies #[trigger] udigits64(0, 27)[k] == 0 by {
                lemma_consts27((2 * k) as u64);
            }
        }
        let t = UTer27(0);
        assert(t@ =~= Seq::new(27, |k: int| 0int));
        t
    }

    /// The largest value `3^27 - 1`: all digits `2`.
    pub fn maximum() -> (t: UTer27)
        ensures
            t.word() == 0x002A_AAAA_AAAA_AAAA,
            t@ == Seq::new(27, |k: int| 2int),
    {
        proof {
            lemma_consts27(0);
            assert forall|k: int| 0 <= k < 27 implies #[trigger] udigits64(MASK27_H, 27)[k] == 2 by {
                lemma_consts27((2 * k) as u64);
            }
        }
        let t = UTer27(MASK27_H);
        assert(t@ =~= Seq::new(27, |k: int| 2int));
        t
    }

    /// The digits of `v` modulo `3^27`.
    pub fn from_dec(v: u64) -> (t: UTer27)
        ensures
            uvalue(t@) == v % 7625597484987,
    {
        let w = encode27(v % 7625597484987);
        proof {
            lemma_uvalue64(w, 27);
        }
        UTer27(w)
    }

    /// The value.
    pub fn to_dec(&self) -> (r: u64)
        ensures
            r == uvalue(self@),
            r < 7625597484987,
    {
        proof {
            use_type_invariant(self);
            lemma_uvalue64(self.0, 27);
        }
        decode27(self.0)
    }

    /// The raw word.
    pub fn raw(self) -> (w: u64)
        ensures
            w == self.word(),
            self@ == udigits64(w, 27),
    {
        self.0
    }

    /// The sum modulo `3^27`.
    pub fn uter_add(self, other: UTer27) -> (t: UTer27)
        ensures
            uvalue(t@) == (uvalue(self@) + uvalue(other@)) % 7625597484987,
    {
        proof {
            use_type_invariant(self);
            use_type_invariant(other);
            lemma_uvalue64(self.0, 27);
            lemma_uvalue64(other.0, 27);
        }
        let w = uter_add27(self.0, other.0);
        proof {
            lemma_uvalue64(w, 27);
        }
        UTer27(w)
    }

    /// The difference modulo `3^27`: the sum with the complement of `other`.
    pub fn uter_sub(self, other: UTer27) -> (t: UTer27)
        ensures
            uvalue(t@) == (uvalue(self@) - uvalue(other@)) % 7625597484987,
    {
        proof {
            use_type_invariant(self);
            use_type_invariant(other);
            lemma_word27(other.0, other.0, 0, 0);
        }
        let comp2 = (MASK27_H - other.0) & MASK27;
        proof {
            lemma_consts27(0);
            assert forall|k: int| 0 <= k < 27 implies #[trigger] ucodes64(comp2)(k) == 2 - ucodes64(
                other.0,
            )(k) by {
                lemma_word27(other.0, other.0, (2 * k) as u64, 0);
            }
            lemma_complement(ucodes64(other.0), ucodes64(comp2), 27);
            lemma_uvalue64(comp2, 27);
            lemma_uvalue64(other.0, 27);
            lemma_uvalue64(1, 27);
            assert forall|k: int| 0 <= k < 27 implies #[trigger] ucodes64(1)(k) == (if k == 0 {
                1int
            } else {
                0int
            }) by {
                lemma_consts27((2 * k) as u64);
            }
            lemma_lsb_single(ucodes64(1), 27);
            reveal_with_fuel(pow3, 28);
        }
        let one = UTer27(1);
        let c2 = UTer27(comp2);
        let comp3 = c2.uter_add(one);
        let t = self.uter_add(comp3);
        proof {
            let a = uvalue(self@);
            let b = uvalue(other@);
            assert(uvalue(one@) == 1);
            assert(uvalue(c2@) == 7625597484986 - b);
            Self::lemma_digits(self.0);
            Self::lemma_digits(other.0);
            assert(uvalue(comp3@) == (7625597484987 - b) % 7625597484987);
            if b == 0 {
                assert(uvalue(comp3@) == 0);
            } else {
                assert(uvalue(comp3@) == 7625597484987 - b);
            }
        }
        t
    }
}

impl UTer27 {
    /// Digit-wise minimum.
    pub fn trit_and(self, o: UTer27) -> (t: UTer27)
        ensures
            t@.len() == 27,
            forall|k: int| 0 <= k < 27 ==> t@[k] == code_and(self@[k], o@[k]),
    {
        proof {
            use_type_invariant(self);
            use_type_invariant(o);
            lemma_word27(self.0, o.0, 0, 0);
        }
        let w = il_and_u64(self.0, o.0, MASK27_L);
        proof {
            assert forall|k: int| 0 <= k < 27 implies #[trigger] udigits64(w, 27)[k] == code_and(
                udigits64(self.0, 27)[k],
                udigits64(o.0, 27)[k],
            ) by {
                let s = (2 * k) as u64;
                lemma_word27(self.0, o.0, s, 0);
                lemma_word27(o.0, self.0, s, 0);
                lemma_consts27(s);
                lemma_il64(self.0, o.0, MASK27_L, s);
            }
        }
        UTer27(w)
    }

    /// Digit-wise maximum.
    pub fn trit_or(self, o: UTer27) -> (t: UTer27)
        ensures
            t@.len() == 27,
            forall|k: int| 0 <= k < 27 ==> t@[k] == code_or(self@[k], o@[k]),
    {
        proof {
            use_type_invariant(self);
            use_type_invariant(o);
            lemma_word27(self.0, o.0, 0, 0);
        }
        let w = il_or_u64(self.0, o.0, MASK27_L);
        proof {
            assert forall|k: int| 0 <= k < 27 implies #[trigger] udigits64(w, 27)[k] == code_or(
                udigits64(self.0, 27)[k],
                udigits64(o.0, 27)[k],
            ) by {
                let s = (2 * k) as u64;
                lemma_word27(self.0, o.0, s, 0);
                lemma_word27(o.0, self.0, s, 0);
                lemma_consts27(s);
                lemma_il64(self.0, o.0, MASK27_L, s);
            }
        }
        UTer27(w)
    }

    /// Digit-wise exclusive or of the codes, read as balanced trits: `-(x * y)`.
    pub fn trit_xor(self, o: UTer27) -> (t: UTer27)
        ensures
            t@.len() == 27,
            forall|k: int| 0 <= k < 27 ==> t@[k] == code_xor(self@[k], o@[k]),
    {
        proof {
            use_type_invariant(self);
            use_type_invariant(o);
            lemma_word27(self.0, o.0, 0, 0);
        }
        let w = il_xor_u64(self.0, o.0, MASK27_L);
        proof {
            assert forall|k: int| 0 <= k < 27 implies #[trigger] udigits64(w, 27)[k] == code_xor(
                udigits64(self.0, 27)[k],
                udigits64(o.0, 27)[k],
            ) by {
                let s = (2 * k) as u64;
                lemma_word27(self.0, o.0, s, 0);
                lemma_word27(o.0, self.0, s, 0);
                lemma_consts27(s);
                lemma_il64(self.0, o.0, MASK27_L, s);
            }
        }
        UTer27(w)
    }
}

impl Add for UTer27 {
    type Output = UTer27;

    /// The sum modulo `3^27`.
    fn add(self, rhs: UTer27) -> (t: UTer27)
        ensures
            uvalue(t@) == (uvalue(self@) + uvalue(rhs@)) % 7625597484987,
    {
        self.uter_add(rhs)
    }
}

impl vstd::std_specs::ops::AddSpecImpl for UTer27 {
    open spec fn obeys_add_spec() -> bool {
        false
    }

    open spec fn add_req(self, rhs: UTer27) -> bool {
        true
    }

    open spec fn add_spec(self, rhs: UTer27) -> UTer27 {
        arbitrary()
    }
}

impl Sub for UTer27 {
    type Output = UTer27;

    /// The difference modulo `3^27`.
    fn sub(self, rhs: UTer27) -> (t: UTer27)
        ensures
            uvalue(t@) == (uvalue(self@) - uvalue(rhs@)) % 7625597484987,
    {
        self.uter_sub(rhs)
    }
}

impl vstd::std_specs::ops::SubSpecImpl for UTer27 {
    open spec fn obeys_sub_spec() -> bool {
        false
    }

    open spec fn sub_req(self, rhs: UTer27) -> bool {
        true
    }

    open spec fn sub_spec(self, rhs: UTer27) -> UTer27 {
        arbitrary()
    }
}

impl Mul for UTer27 {
    type Output = UTer27;

    /// The product modulo `3^27`; it must fit a `u64`.
    fn mul(self, rhs: UTer27) -> (t: UTer27)
        ensures
            uvalue(t@) == (uvalue(self@) * uvalue(rhs@)) % 7625597484987,
    {
        let a = self.to_dec();
        let b = rhs.to_dec();
        UTer27::from_dec(a * b)
    }
}

impl vstd::std_specs::ops::MulSpecImpl for UTer27 {
    open spec fn obeys_mul_spec() -> bool {
        false
    }

    open spec fn mul_req(self, rhs: UTer27) -> bool {
        uvalue(self@) * uvalue(rhs@) <= u64::MAX
    }

    open spec fn mul_spec(self, rhs: UTer27) -> UTer27 {
        arbitrary()
    }
}

impl Div for UTer27 {
    type Output = UTer27;

    /// The quotient; the divisor must not be zero.
    fn div(self, rhs: UTer27) -> (t: UTer27)
        ensures
            uvalue(t@) == uvalue(self@) / uvalue(rhs@),
    {
        let a = self.to_dec();
        let b = rhs.to_dec();
        proof {
            vstd::arithmetic::div_mod::lemma_div_is_ordered_by_denominator(a as int, 1, b as int);
        }
        UTer27::from_dec(a / b)
    }
}

impl vstd::std_specs::ops::DivSpecImpl for UTer27 {
    open spec fn obeys_div_spec() -> bool {
        false
    }

    open spec fn div_req(self, rhs: UTer27) -> bool {
        uvalue(rhs@) != 0
    }

    open spec fn div_spec(self, rhs: UTer27) -> UTer27 {
        arbitrary()
    }
}

impl BitAnd for UTer27 {
    type Output = UTer27;

    /// Digit-wise logic.
    fn bitand(self, rhs: UTer27) -> (t: UTer27)
        ensures
            t@.len() == 27,
            forall|k: int| 0 <= k < 27 ==> t@[k] == code_and(self@[k], rhs@[k]),
    {
        self.trit_and(rhs)
    }
}

impl vstd::std_specs::ops::BitAndSpecImpl for UTer27 {
    open spec fn obeys_bitand_spec() -> bool {
        false
    }

    open spec fn bitand_req(self, rhs: UTer27) -> bool {
        true
    }

    open spec fn bitand_spec(self, rhs: UTer27) -> UTer27 {
        arbitrary()
    }
}

impl BitOr for UTer27 {
    type Output = UTer27;

    /// Digit-wise logic.
    fn bitor(self, rhs: UTer27) -> (t: UTer27)
        ensures
            t@.len() == 27,
            forall|k: int| 0 <= k < 27 ==> t@[k] == code_or(self@[k], rhs@[k]),
    {
        self.trit_or(rhs)
    }
}

impl vstd::std_specs::ops::BitOrSpecImpl for UTer27 {
    open spec fn obeys_bitor_spec() -> bool {
        false
    }

    open spec fn bitor_req(self, rhs: UTer27) -> bool {
        true
    }

    open spec fn bitor_spec(self, rhs: UTer27) -> UTer27 {
        arbitrary()
    }
}

impl BitXor for UTer27 {
    type Output = UTer27;

    /// Digit-wise logic.
    fn bitxor(self, rhs: UTer27) -> (t: UTer27)
        ensures
            t@.len() == 27,
            forall|k: int| 0 <= k < 27 ==> t@[k] == code_xor(self@[k], rhs@[k]),
    {
        self.trit_xor(rhs)
    }
}

impl vstd::std_specs::ops::BitXorSpecImpl for UTer27 {
    open spec fn obeys_bitxor_spec() -> bool {
        false
    }

    open spec fn bitxor_req(self, rhs: UTer27) -> bool {
        true
    }

    open spec fn bitxor_spec(self, rhs: UTer27) -> UTer27 {
        arbitrary()
    }
}

impl Shl<usize> for UTer27 {
    type Output = UTer27;

    /// Digits moved `rhs` places toward the most significant end, `0` filling the low places.
    fn shl(self, rhs: usize) -> (t: UTer27)
        ensures
            t@.len() == 27,
            forall|k: int| 0 <= k < 27 ==> t@[k] == if k >= rhs { self@[k - rhs] } else { 0 },
    {
        proof {
            use_type_invariant(self);
        }
        if rhs >= 27 {
            let t = UTer27::zero();
            return t;
        }
        let n2 = (2 * rhs) as u64;
        proof {
            lemma_word27(self.0, self.0, 0, n2);
        }
        let w = (self.0 << n2) & MASK27;
        proof {
            assert forall|k: int| 0 <= k < 27 implies #[trigger] udigits64(w, 27)[k] == if k >= rhs {
                udigits64(self.0, 27)[k - rhs]
            } else {
                0
            } by {
                lemma_word27(self.0, self.0, (2 * k) as u64, n2);
            }
        }
        UTer27(w)
    }
}

impl vstd::std_specs::ops::ShlSpecImpl<usize> for UTer27 {
    open spec fn obeys_shl_spec() -> bool {
        false
    }

    open spec fn shl_req(self, rhs: usize) -> bool {
        true
    }

    open spec fn shl_spec(self, rhs: usize) -> UTer27 {
        arbitrary()
    }
}

impl Shr<usize> for UTer27 {
    type Output = UTer27;

    /// Digits moved `rhs` places toward the least significant end, `0` filling the high places.
    fn shr(self, rhs: usize) -> (t: UTer27)
        ensures
            t@.len() == 27,
            forall|k: int| 0 <= k < 27 ==> t@[k] == if k + rhs < 27 { self@[k + rhs] } else { 0 },
    {
        proof {
            use_type_invariant(self);
        }
        if rhs >= 27 {
            let t = UTer27::zero();
            return t;
        }
        let n2 = (2 * rhs) as u64;
        proof {
            lemma_word27(self.0, self.0, 0, n2);
        }
        let w = (self.0 >> n2) & MASK27;
        proof {
            assert forall|k: int| 0 <= k < 27 implies #[trigger] udigits64(w, 27)[k] == if k + rhs < 27 {
                udigits64(self.0, 27)[k + rhs]
            } else {
                0
            } by {
                lemma_word27(self.0, self.0, (2 * k) as u64, n2);
            }
        }
        UTer27(w)
    }
}

impl vstd::std_specs::ops::ShrSpecImpl<usize> for UTer27 {
    open spec fn obeys_shr_spec() -> bool {
        false
    }

    open spec fn shr_req(self, rhs: usize) -> bool {
        true
    }

    open spec fn shr_spec(self, rhs: usize) -> UTer27 {
        arbitrary()
    }
}

/// 27 balanced trits interleaved in a `u64`: trit `k` in the bit pair
/// `(2k+1, 2k)`, coded `00` (`Neg`), `01` (`Zero`), `28` (`Pos`).
#[derive(Copy, Clone, Debug, PartialEq, Eq, Hash, Default)]
pub struct BTer27(u64);

impl View for BTer27 {
    type V = Seq<Digit>;

    closed spec fn view(&self) -> Seq<Digit> {
        il_digits64(self.0, 27)
    }
}

impl BTer27 {
    #[verifier::type_invariant]
    spec fn well_formed(self) -> bool {
        valid27(self.0)
    }

    /// The raw word, in specifications.
    pub closed spec fn word(self) -> u64 {
        self.0
    }

    /// The digits of a valid word, and their value: the unsigned value less the bias.
    proof fn lemma_digits(w: u64)
        requires
            valid27(w),
        ensures
            il_valid64(w, 27),
            il_digits64(w, 27).len() == 27,
            value(il_digits64(w, 27)) == lsb_value(ucodes64(w), 27) - 3812798742493,
            -3812798742493 <= value(il_digits64(w, 27)) <= 3812798742493,
    {
        assert forall|k: int| 0 <= k < 27 implies #[trigger] pair64(w, (2 * k) as u64) < 3 by {
            lemma_word27(w, w, (2 * k) as u64, 0);
        }
        lemma_il_value64(w, 27);
        lemma_bias64(w, 27);
        reveal_with_fuel(pow3, 28);
    }

    /// A valid word with its digits.
    fn from_valid(w: u64) -> (t: BTer27)
        requires
            valid27(w),
        ensures
            t.word() == w,
            t@ == il_digits64(w, 27),
            t@.len() == 27,
            value(t@) == lsb_value(ucodes64(w), 27) - 3812798742493,
    {
        proof {
            Self::lemma_digits(w);
        }
        BTer27(w)
    }

    /// All trits `Zero`.
    pub fn zero() -> (t: BTer27)
        ensures
            t.word() == 0x0015_5555_5555_5555,
            t@ == zeros(27),
    {
        proof {
            lemma_consts27(0);
        }
        let t = Self::from_valid(MASK27_L);
        proof {
            assert forall|i: int| 0 <= i < 27 implies t@[i] == Digit::Zero by {
                lemma_consts27((2 * (26 - i)) as u64);
            }
            assert(t@ =~= zeros(27));
        }
        t
    }

    /// All trits `Pos`: the largest value, 3812798742493.
    pub fn maximum() -> (t: BTer27)
        ensures
            t.word() == 0x002A_AAAA_AAAA_AAAA,
            t@ == Seq::new(27, |i: int| Digit::Pos),
    {
        proof {
            lemma_consts27(0);
        }
        let t = Self::from_valid(MASK27_H);
        proof {
            assert forall|i: int| 0 <= i < 27 implies t@[i] == Digit::Pos by {
                lemma_consts27((2 * (26 - i)) as u64);
            }
            assert(t@ =~= Seq::new(27, |i: int| Digit::Pos));
        }
        t
    }

    /// All trits `Neg`: the smallest value, -3812798742493.
    pub fn minimum() -> (t: BTer27)
        ensures
            t.word() == 0,
            t@ == Seq::new(27, |i: int| Digit::Neg),
    {
        proof {
            lemma_consts27(0);
        }
        let t = Self::from_valid(0);
        proof {
            assert forall|i: int| 0 <= i < 27 implies t@[i] == Digit::Neg by {
                lemma_consts27((2 * (26 - i)) as u64);
            }
            assert(t@ =~= Seq::new(27, |i: int| Digit::Neg));
        }
        t
    }

    /// The 27 trits of `v`, which must fit them: the unsigned digits of `v + 3812798742493`.
    pub fn from_dec(v: i64) -> (t: BTer27)
        requires
            v <= i64::MAX - 3812798742493,
        ensures
            t@.len() == 27,
            value(t@) == ((v + 3812798742493) as u64) % 7625597484987 - 3812798742493,
            -3812798742493 <= v <= 3812798742493 ==> value(t@) == v,
    {
        let w = encode27(((v + 3812798742493) as u64) % 7625597484987);
        Self::from_valid(w)
    }

    /// The value.
    pub fn to_dec(&self) -> (r: i64)
        ensures
            r == value(self@),
            -3812798742493 <= r <= 3812798742493,
    {
        proof {
            use_type_invariant(self);
            Self::lemma_digits(self.0);
        }
        decode27(self.0) as i64 - 3812798742493
    }

    /// The raw word.
    pub fn raw(self) -> (w: u64)
        ensures
            w == self.word(),
            self@ == il_digits64(w, 27),
    {
        self.0
    }
}

impl BTer27 {
    /// Trit-wise negation.
    pub fn il_neg(self) -> (t: BTer27)
        ensures
            t@.len() == 27,
            forall|i: int| 0 <= i < 27 ==> t@[i] == self@[i].negated(),
    {
        proof {
            use_type_invariant(self);
            use_type_invariant(self);
            lemma_word27(self.0, self.0, 0, 0);
            Self::lemma_digits(self.0);
            Self::lemma_digits(self.0);
        }
        let w = il_neg_u64(self.0, MASK27_L);
        let t = Self::from_valid(w);
        proof {
            assert forall|i: int| 0 <= i < 27 implies t@[i] == self@[i].negated() by {
                let s = (2 * (26 - i)) as u64;
                lemma_word27(self.0, self.0, s, 0);
                lemma_word27(self.0, self.0, s, 0);
                lemma_consts27(s);
                lemma_il64(self.0, self.0, MASK27_L, s);
                lemma_code_digits(pair64(self.0, s) as int, pair64(self.0, s) as int);
            }
        }
        t
    }

    /// Trit-wise minimum (Kleene AND).
    pub fn il_and(self, o: BTer27) -> (t: BTer27)
        ensures
            t@.len() == 27,
            forall|i: int| 0 <= i < 27 ==> t@[i] == self@[i].min_digit(o@[i]),
    {
        proof {
            use_type_invariant(self);
            use_type_invariant(o);
            lemma_word27(self.0, o.0, 0, 0);
            Self::lemma_digits(self.0);
            Self::lemma_digits(o.0);
        }
        let w = il_and_u64(self.0, o.0, MASK27_L);
        let t = Self::from_valid(w);
        proof {
            assert forall|i: int| 0 <= i < 27 implies t@[i] == self@[i].min_digit(o@[i]) by {
                let s = (2 * (26 - i)) as u64;
                lemma_word27(self.0, o.0, s, 0);
                lemma_word27(o.0, self.0, s, 0);
                lemma_consts27(s);
                lemma_il64(self.0, o.0, MASK27_L, s);
                lemma_code_digits(pair64(self.0, s) as int, pair64(o.0, s) as int);
            }
        }
        t
    }

    /// Trit-wise maximum (Kleene OR).
    pub fn il_or(self, o: BTer27) -> (t: BTer27)
        ensures
            t@.len() == 27,
            forall|i: int| 0 <= i < 27 ==> t@[i] == self@[i].max_digit(o@[i]),
    {
        proof {
            use_type_invariant(self);
            use_type_invariant(o);
            lemma_word27(self.0, o.0, 0, 0);
            Self::lemma_digits(self.0);
            Self::lemma_digits(o.0);
        }
        let w = il_or_u64(self.0, o.0, MASK27_L);
        let t = Self::from_valid(w);
        proof {
            assert forall|i: int| 0 <= i < 27 implies t@[i] == self@[i].max_digit(o@[i]) by {
                let s = (2 * (26 - i)) as u64;
                lemma_word27(self.0, o.0, s, 0);
                lemma_word27(o.0, self.0, s, 0);
                lemma_consts27(s);
                lemma_il64(self.0, o.0, MASK27_L, s);
                lemma_code_digits(pair64(self.0, s) as int, pair64(o.0, s) as int);
            }
        }
        t
    }

    /// Trit-wise `-(a * b)` (Kleene XOR).
    pub fn il_xor(self, o: BTer27) -> (t: BTer27)
        ensures
            t@.len() == 27,
            forall|i: int| 0 <= i < 27 ==> t@[i] == digit_of(-(self@[i].val() * o@[i].val())),
    {
        proof {
            use_type_invariant(self);
            use_type_invariant(o);
            lemma_word27(self.0, o.0, 0, 0);
            Self::lemma_digits(self.0);
            Self::lemma_digits(o.0);
        }
        let w = il_xor_u64(self.0, o.0, MASK27_L);
        let t = Self::from_valid(w);
        proof {
            assert forall|i: int| 0 <= i < 27 implies t@[i] == digit_of(-(self@[i].val() * o@[i].val())) by {
                let s = (2 * (26 - i)) as u64;
                lemma_word27(self.0, o.0, s, 0);
                lemma_word27(o.0, self.0, s, 0);
                lemma_consts27(s);
                lemma_il64(self.0, o.0, MASK27_L, s);
                lemma_code_digits(pair64(self.0, s) as int, pair64(o.0, s) as int);
            }
        }
        t
    }

    /// Trits moved `n` places toward the most significant end, `Zero` filling
    /// the low places; the result keeps 27 trits.
    pub fn il_shl(self, n: usize) -> (t: BTer27)
        ensures
            n < 27 ==> t@ == self@.skip(n as int) + zeros(n as nat),
            n >= 27 ==> t@ == zeros(27),
    {
        if n >= 27 {
            return Self::zero();
        }
        proof {
            use_type_invariant(self);
            Self::lemma_digits(self.0);
        }
        let n2 = (2 * n) as u64;
        proof {
            lemma_fill27(self.0, 0, n2);
        }
        let fill = MASK27_L & ((1u64 << n2) - 1);
        let w = ((self.0 << n2) | fill) & MASK27;
        let t = Self::from_valid(w);
        proof {
            assert forall|i: int| 0 <= i < 27 implies t@[i] == (self@.skip(n as int) + zeros(
                n as nat,
            ))[i] by {
                let k = 26 - i;
                lemma_fill27(self.0, (2 * k) as u64, n2);
                if k >= n {
                    assert(pair64(self.0, (2 * (k - n)) as u64) == pair64(self.0, ((2 * k) as u64 - n2) as u64));
                }
            }
            assert(t@ =~= self@.skip(n as int) + zeros(n as nat));
        }
        t
    }

    /// Trits moved `n` places toward the least significant end, `Zero` filling
    /// the high places.
    pub fn il_shr(self, n: usize) -> (t: BTer27)
        ensures
            n < 27 ==> t@ == zeros(n as nat) + self@.take(27 - n),
            n >= 27 ==> t@ == zeros(27),
    {
        if n >= 27 {
            return Self::zero();
        }
        proof {
            use_type_invariant(self);
            Self::lemma_digits(self.0);
        }
        let n2 = (2 * n) as u64;
        proof {
            lemma_fill27(self.0, 0, n2);
        }
        let fill = MASK27_L & (0xFFFF_FFFF_FFFF_FFFFu64 << (54 - n2));
        let w = ((self.0 >> n2) | fill) & MASK27;
        let t = Self::from_valid(w);
        proof {
            assert forall|i: int| 0 <= i < 27 implies t@[i] == (zeros(n as nat) + self@.take(
                27 - n,
            ))[i] by {
                let k = 26 - i;
                lemma_fill27(self.0, (2 * k) as u64, n2);
                if k + n < 27 {
                    assert(pair64(self.0, (2 * (k + n)) as u64) == pair64(self.0, ((2 * k) as u64 + n2) as u64));
                }
            }
            assert(t@ =~= zeros(n as nat) + self@.take(27 - n));
        }
        t
    }
}

impl Add for BTer27 {
    type Output = BTer27;

    /// The sum, wrapped into 27 trits.
    fn add(self, rhs: BTer27) -> (t: BTer27)
        ensures
            value(t@) == crate::tryte::wrap(value(self@) + value(rhs@), 27),
    {
        proof {
            use_type_invariant(self);
            use_type_invariant(rhs);
            BTer27::lemma_digits(self.0);
            BTer27::lemma_digits(rhs.0);
            lemma_consts27(0);
            assert forall|k: int| 0 <= k < 27 implies #[trigger] ucodes64(0x0015_5555_5555_5556u64)(
                k,
            ) == (if k == 0 {
                2int
            } else {
                1int
            }) by {
                lemma_consts27((2 * k) as u64);
            }
            lemma_lsb_remap(ucodes64(0x0015_5555_5555_5556u64), 27);
            reveal_with_fuel(pow3, 28);
        }
        let s = uter_add27(self.0, rhs.0);
        let w = uter_add27(s, 0x0015_5555_5555_5556u64);
        proof {
            lemma_bias_add(
                value(self@),
                value(rhs@),
                3812798742493,
                lsb_value(ucodes64(s), 27),
                lsb_value(ucodes64(w), 27),
            );
        }
        BTer27::from_valid(w)
    }
}

impl vstd::std_specs::ops::AddSpecImpl for BTer27 {
    open spec fn obeys_add_spec() -> bool {
        false
    }

    open spec fn add_req(self, rhs: BTer27) -> bool {
        true
    }

    open spec fn add_spec(self, rhs: BTer27) -> BTer27 {
        arbitrary()
    }
}

impl Sub for BTer27 {
    type Output = BTer27;

    /// The difference, wrapped into 27 trits.
    fn sub(self, rhs: BTer27) -> (t: BTer27)
        ensures
            value(t@) == crate::tryte::wrap(value(self@) - value(rhs@), 27),
    {
        let neg = rhs.il_neg();
        proof {
            use_type_invariant(rhs);
            BTer27::lemma_digits(rhs.0);
            assert(neg@ =~= crate::model::negate_seq(rhs@));
            crate::model::lemma_value_negate(rhs@);
        }
        Add::add(self, neg)
    }
}

impl vstd::std_specs::ops::SubSpecImpl for BTer27 {
    open spec fn obeys_sub_spec() -> bool {
        false
    }

    open spec fn sub_req(self, rhs: BTer27) -> bool {
        true
    }

    open spec fn sub_spec(self, rhs: BTer27) -> BTer27 {
        arbitrary()
    }
}

impl Mul for BTer27 {
    type Output = BTer27;

    /// The product, which must fit an `i64` with the bias added; exact when it
    /// fits 27 trits, otherwise the 27 trits that `from_dec` gives it.
    fn mul(self, rhs: BTer27) -> (t: BTer27)
        ensures
            value(t@) == ((value(self@) * value(rhs@) + 3812798742493) as u64) % 7625597484987
                - 3812798742493,
            -3812798742493 <= value(self@) * value(rhs@) <= 3812798742493 ==> value(t@) == value(
                self@,
            ) * value(rhs@),
    {
        let a = self.to_dec();
        let b = rhs.to_dec();
        BTer27::from_dec(a * b)
    }
}

impl vstd::std_specs::ops::MulSpecImpl for BTer27 {
    open spec fn obeys_mul_spec() -> bool {
        false
    }

    open spec fn mul_req(self, rhs: BTer27) -> bool {
        i64::MIN <= value(self@) * value(rhs@) <= i64::MAX - 3812798742493
    }

    open spec fn mul_spec(self, rhs: BTer27) -> BTer27 {
        arbitrary()
    }
}

impl Div for BTer27 {
    type Output = BTer27;

    /// The quotient rounded toward zero; the divisor must not be zero.
    fn div(self, rhs: BTer27) -> (t: BTer27)
        ensures
            value(t@) == trunc_div(value(self@), value(rhs@)),
    {
        proof {
            use_type_invariant(self);
            use_type_invariant(rhs);
            Self::lemma_digits(self.0);
            Self::lemma_digits(rhs.0);
        }
        let a = self.to_dec();
        let b = rhs.to_dec();
        let ma: u64 = if a < 0 { (0 - a) as u64 } else { a as u64 };
        let mb: u64 = if b < 0 { (0 - b) as u64 } else { b as u64 };
        let q = ma / mb;
        proof {
            vstd::arithmetic::div_mod::lemma_div_is_ordered_by_denominator(ma as int, 1, mb as int);
        }
        let qi = q as i64;
        let r = if (a < 0) == (b < 0) {
            qi
        } else {
            -qi
        };
        BTer27::from_dec(r)
    }
}

impl vstd::std_specs::ops::DivSpecImpl for BTer27 {
    open spec fn obeys_div_spec() -> bool {
        false
    }

    open spec fn div_req(self, rhs: BTer27) -> bool {
        value(rhs@) != 0
    }

    open spec fn div_spec(self, rhs: BTer27) -> BTer27 {
        arbitrary()
    }
}

impl Neg for BTer27 {
    type Output = BTer27;

    /// Every trit negated.
    fn neg(self) -> (t: BTer27)
        ensures
            t@.len() == 27,
            forall|i: int| 0 <= i < 27 ==> t@[i] == self@[i].negated(),
    {
        self.il_neg()
    }
}

impl vstd::std_specs::ops::NegSpecImpl for BTer27 {
    open spec fn obeys_neg_spec() -> bool {
        false
    }

    open spec fn neg_req(self) -> bool {
        true
    }

    open spec fn neg_spec(self) -> BTer27 {
        arbitrary()
    }
}

impl Not for BTer27 {
    type Output = BTer27;

    /// Kleene negation: every trit negated.
    fn not(self) -> (t: BTer27)
        ensures
            t@.len() == 27,
            forall|i: int| 0 <= i < 27 ==> t@[i] == self@[i].negated(),
    {
        self.il_neg()
    }
}

impl vstd::std_specs::ops::NotSpecImpl for BTer27 {
    open spec fn obeys_not_spec() -> bool {
        false
    }

    open spec fn not_req(self) -> bool {
        true
    }

    open spec fn not_spec(self) -> BTer27 {
        arbitrary()
    }
}

impl BitAnd for BTer27 {
    type Output = BTer27;

    /// Trit-wise minimum.
    fn bitand(self, rhs: BTer27) -> (t: BTer27)
        ensures
            t@.len() == 27,
            forall|i: int| 0 <= i < 27 ==> t@[i] == self@[i].min_digit(rhs@[i]),
    {
        self.il_and(rhs)
    }
}

impl vstd::std_specs::ops::BitAndSpecImpl for BTer27 {
    open spec fn obeys_bitand_spec() -> bool {
        false
    }

    open spec fn bitand_req(self, rhs: BTer27) -> bool {
        true
    }

    open spec fn bitand_spec(self, rhs: BTer27) -> BTer27 {
        arbitrary()
    }
}

impl BitOr for BTer27 {
    type Output = BTer27;

    /// Trit-wise maximum.
    fn bitor(self, rhs: BTer27) -> (t: BTer27)
        ensures
            t@.len() == 27,
            forall|i: int| 0 <= i < 27 ==> t@[i] == self@[i].max_digit(rhs@[i]),
    {
        self.il_or(rhs)
    }
}

impl vstd::std_specs::ops::BitOrSpecImpl for BTer27 {
    open spec fn obeys_bitor_spec() -> bool {
        false
    }

    open spec fn bitor_req(self, rhs: BTer27) -> bool {
        true
    }

    open spec fn bitor_spec(self, rhs: BTer27) -> BTer27 {
        arbitrary()
    }
}

impl BitXor for BTer27 {
    type Output = BTer27;

    /// Trit-wise `-(a * b)`.
    fn bitxor(self, rhs: BTer27) -> (t: BTer27)
        ensures
            t@.len() == 27,
            forall|i: int| 0 <= i < 27 ==> t@[i] == digit_of(-(self@[i].val() * rhs@[i].val())),
    {
        self.il_xor(rhs)
    }
}

impl vstd::std_specs::ops::BitXorSpecImpl for BTer27 {
    open spec fn obeys_bitxor_spec() -> bool {
        false
    }

    open spec fn bitxor_req(self, rhs: BTer27) -> bool {
        true
    }

    open spec fn bitxor_spec(self, rhs: BTer27) -> BTer27 {
        arbitrary()
    }
}

impl Shl<usize> for BTer27 {
    type Output = BTer27;

    /// Trits moved toward the most significant end.
    fn shl(self, rhs: usize) -> (t: BTer27)
        ensures
            rhs < 27 ==> t@ == self@.skip(rhs as int) + zeros(rhs as nat),
            rhs >= 27 ==> t@ == zeros(27),
    {
        self.il_shl(rhs)
    }
}

impl vstd::std_specs::ops::ShlSpecImpl<usize> for BTer27 {
    open spec fn obeys_shl_spec() -> bool {
        false
    }

    open spec fn shl_req(self, rhs: usize) -> bool {
        true
    }

    open spec fn shl_spec(self, rhs: usize) -> BTer27 {
        arbitrary()
    }
}

impl Shr<usize> for BTer27 {
    type Output = BTer27;

    /// Trits moved toward the least significant end.
    fn shr(self, rhs: usize) -> (t: BTer27)
        ensures
            rhs < 27 ==> t@ == zeros(rhs as nat) + self@.take(27 - rhs),
            rhs >= 27 ==> t@ == zeros(27),
    {
        self.il_shr(rhs)
    }
}

impl vstd::std_specs::ops::ShrSpecImpl<usize> for BTer27 {
    open spec fn obeys_shr_spec() -> bool {
        false
    }

    open spec fn shr_req(self, rhs: usize) -> bool {
        true
    }

    open spec fn shr_spec(self, rhs: usize) -> BTer27 {
        arbitrary()
    }
}



/// Subtraction undoes addition on unsigned words: for digits worth `a` and
/// `b` below `3^n`, `uter_sub(uter_add(a, b), b)` is worth `a` again.
pub proof fn lemma_uter_sub_undoes_add(a: int, b: int, n: nat, s: int, d: int)
    requires
        0 <= a < pow3(n),
        0 <= b < pow3(n),
        s == (a + b) % pow3(n),
        d == (s - b) % pow3(n),
    ensures
        d == a,
{
    crate::model::lemma_pow3_pos(n);
    let m = pow3(n);
    vstd::arithmetic::div_mod::lemma_sub_mod_noop(a + b, b, m);
    vstd::arithmetic::div_mod::lemma_small_mod(a as nat, m as nat);
    vstd::arithmetic::div_mod::lemma_small_mod(b as nat, m as nat);
    assert(a + b - b == a);
}

} // verus!
