//! `Ter40`: 40 balanced trits stored as their value in an `i64`, and
//! `IlTer40`: the same 40 trits interleaved in a `u128`, two bits per trit.
//!
//! `Ter40` does arithmetic directly on the `i64`; its trit-wise logic goes
//! through the interleaved form, where it is plain bit logic.
use vstd::prelude::*;
use std::ops::{Add, BitAnd, BitOr, BitXor, Div, Mul, Neg, Not, Sub};
use crate::digit::{Digit, digit_of};
use crate::model::{
    abs_int, is_trimmed, lemma_fixed_unique, lemma_pow3_pos, lemma_trimmed_len, lemma_value_bound,
    lemma_value_take_abs, max_value, pow3, value, zeros,
};
use crate::operations::trunc_div;
use crate::packed::{
    code_accept, code_and, code_consensus, code_or, code_xor, il_accept128, il_and128,
    il_and_u128, il_consensus128, il_digits128, il_holds128, il_neg128, il_neg_u128, il_or128,
    il_or_u128, il_trit128, il_valid128, il_xor128, il_xor_u128, is_trits, lemma_code_digits,
    lemma_il128, lemma_il_done128, lemma_il_start128, lemma_il_step128, lemma_il_value128,
    lemma_lsb_value_ext, lsb_value, pair128, read_il128, write_il128,
};
use crate::ternary::{Ternary, fits_i64};
use crate::tryte::{
    Tryte, fixed_digits, lemma_bound_fits, lemma_fixed_digits, lemma_pow3_40, lemma_wrap_in_range,
    lemma_wrap_unique, wrap,
};

verus! {

/// The low bit of each of the 40 pairs of an interleaved `u128`.
const MASK_L40: u128 = 0x0000_0000_0000_5555_5555_5555_5555_5555;

/// The pairs of the 40-trit mask: `01` below pair 40, `00` above, no odd bit.
proof fn lemma_mask40(s: u128)
    by (bit_vector)
    requires
        s < 80,
        s % 2 == 0,
    ensures
        (0x0000_0000_0000_5555_5555_5555_5555_5555u128 >> s) & 1 == 1,
        (0x0000_0000_0000_5555_5555_5555_5555_5555u128 >> s) & 3 == 1,
        ((0x0000_0000_0000_5555_5555_5555_5555_5555u128 << 1u128) >> s) & 3 == 2,
        0x0000_0000_0000_5555_5555_5555_5555_5555u128 & 0xAAAA_AAAA_AAAA_AAAA_AAAA_AAAA_AAAA_AAAAu128
            == 0,
{
}

/// The word operations on 40 interleaved trits leave the bits from 80 up
/// empty, and clearing those bits keeps the 40 pairs.
proof fn lemma_il40_top(a: u128, b: u128, w: u128, s: u128)
    by (bit_vector)
    requires
        s < 80,
        s % 2 == 0,
    ensures
        il_neg128(a, 0x0000_0000_0000_5555_5555_5555_5555_5555u128) >> 80u128 == 0,
        il_and128(a, b, 0x0000_0000_0000_5555_5555_5555_5555_5555u128) >> 80u128 == 0,
        il_or128(a, b, 0x0000_0000_0000_5555_5555_5555_5555_5555u128) >> 80u128 == 0,
        il_xor128(a, b, 0x0000_0000_0000_5555_5555_5555_5555_5555u128) >> 80u128 == 0,
        il_consensus128(a, b, 0x0000_0000_0000_5555_5555_5555_5555_5555u128) >> 80u128 == 0,
        il_accept128(a, b, 0x0000_0000_0000_5555_5555_5555_5555_5555u128) >> 80u128 == 0,
        0x0000_0000_0000_5555_5555_5555_5555_5555u128 >> 80u128 == 0,
        (0x0000_0000_0000_5555_5555_5555_5555_5555u128 << 1u128) >> 80u128 == 0,
        0u128 >> 80u128 == 0,
        (w & 0xFFFF_FFFF_FFFF_FFFF_FFFFu128) >> 80u128 == 0,
        ((w & 0xFFFF_FFFF_FFFF_FFFF_FFFFu128) >> s) & 3 == (w >> s) & 3,
{
}

/// The value `v` of at most 40 trits fits: it is its own wrap, and it is an `i64`.
proof fn lemma_fits40(v: int)
    requires
        2 * abs_int(v) <= pow3(40) - 1,
    ensures
        wrap(v, 40) == v,
        fits_i64(v),
{
    lemma_pow3_40();
    lemma_wrap_in_range(v, 40);
}

/// 40 digits are the low 40 digits of their own value.
proof fn lemma_digits40(s: Seq<Digit>)
    requires
        s.len() == 40,
    ensures
        fixed_digits(value(s), 40) == s,
        2 * abs_int(value(s)) <= pow3(40) - 1,
{
    lemma_value_bound(s);
    lemma_fits40(value(s));
    lemma_fixed_digits(value(s), 40);
    lemma_fixed_unique(fixed_digits(value(s), 40), s);
}

/// The interleaved 40 trits of `v`.
fn i64_to_il40(v: i64) -> (w: u128)
    requires
        2 * abs_int(v as int) <= pow3(40) - 1,
    ensures
        il_valid128(w, 40),
        il_digits128(w, 40) == fixed_digits(v as int, 40),
{
    let negative = v < 0;
    let mut x: u64 = if negative {
        (0i128 - v as i128) as u64
    } else {
        v as u64
    };
    let mut word: u128 = 0;
    let ghost mut g: spec_fn(int) -> int = |k: int| 0int;
    proof {
        lemma_il_start128(g);
    }
    let mut k: u128 = 0;
    while k < 40
        invariant
            k <= 40,
            x <= 0x8000_0000_0000_0000,
            il_holds128(word, g, k as int),
            is_trits(g, k as nat),
            !negative ==> v == x * pow3(k as nat) + lsb_value(g, k as nat),
            negative ==> v == -(x * pow3(k as nat)) + lsb_value(g, k as nat),
        decreases 40 - k,
    {
        let rem = x % 3;
        let t: i8 = if rem == 2 {
            -1
        } else {
            rem as i8
        };
        let next: u64 = if rem == 2 {
            (x - rem) / 3 + 1
        } else {
            (x - rem) / 3
        };
        let dv: i8 = if negative {
            -t
        } else {
            t
        };
        let d = Digit::from_i8(dv);
        let ghost old_g = g;
        proof {
            g = |j: int| if j == k { dv as int } else { old_g(j) };
            lemma_lsb_value_ext(old_g, g, k as nat);
            assert forall|j: int| 0 <= j < k implies #[trigger] pair128(word, (2 * j) as u128) == g(j)
                + 1 by {
                assert(pair128(word, (2 * j) as u128) == old_g(j) + 1);
            }
        }
        let r = write_il128(word, k, d);
        proof {
            lemma_il_step128(word, r, g, k as int);
            let n = k as nat;
            assert(pow3(n + 1) == 3 * pow3(n));
            assert(x * pow3(n) == next * pow3(n + 1) + t * pow3(n)) by (nonlinear_arith)
                requires
                    x == 3 * next + t,
                    pow3(n + 1) == 3 * pow3(n),
            ;
            if negative {
                assert(dv * pow3(n) == -(t * pow3(n))) by (nonlinear_arith)
                    requires
                        dv == -t,
                ;
            }
        }
        word = r;
        x = next;
        k += 1;
    }
    proof {
        lemma_il_done128(word, g, 40);
        lemma_il_value128(word, 40);
        let s = il_digits128(word, 40);
        if negative {
            assert(-(x * pow3(40)) == (-(x as int)) * pow3(40)) by (nonlinear_arith);
            lemma_wrap_unique(v as int, -(x as int), value(s), 40);
        } else {
            lemma_wrap_unique(v as int, x as int, value(s), 40);
        }
        lemma_fits40(v as int);
        lemma_digits40(s);
    }
    word
}

/// The interleaved 40 trits of two values.
fn i64_pair_to_il40(va: i64, vb: i64) -> (r: (u128, u128))
    requires
        2 * abs_int(va as int) <= pow3(40) - 1,
        2 * abs_int(vb as int) <= pow3(40) - 1,
    ensures
        il_valid128(r.0, 40),
        il_valid128(r.1, 40),
        il_digits128(r.0, 40) == fixed_digits(va as int, 40),
        il_digits128(r.1, 40) == fixed_digits(vb as int, 40),
{
    (i64_to_il40(va), i64_to_il40(vb))
}

/// The value of 40 interleaved trits.
fn il40_to_i64(w: u128) -> (v: i64)
    requires
        il_valid128(w, 40),
    ensures
        v == value(il_digits128(w, 40)),
        fixed_digits(v as int, 40) == il_digits128(w, 40),
{
    proof {
        lemma_il_value128(w, 40);
        lemma_bound_fits(40);
    }
    let ghost s = il_digits128(w, 40);
    let mut val: i64 = 0;
    let mut i: u128 = 0;
    while i < 40
        invariant
            i <= 40,
            il_valid128(w, 40),
            s.len() == 40,
            s == il_digits128(w, 40),
            val == value(s.take(i as int)),
            2 * abs_int(value(s)) <= pow3(40) - 1,
            pow3(40) <= 12157665459056928801,
        decreases 40 - i,
    {
        proof {
            assert(pair128(w, (2 * (39 - i)) as u128) < 3);
        }
        let d = read_il128(w, 39 - i);
        proof {
            lemma_value_take_abs(s, i + 1);
            assert(s.take(i + 1).drop_last() =~= s.take(i as int));
            assert(s[i as int] == d);
        }
        val = val * 3 + d.to_i8() as i64;
        i += 1;
    }
    assert(s.take(40) =~= s);
    proof {
        lemma_digits40(s);
    }
    val
}

/// The trit-wise consensus of two interleaved words.
fn il40_consensus(a: u128, b: u128) -> (r: u128)
    ensures
        r == il_consensus128(a, b, MASK_L40),
{
    let ha = (a >> 1) & MASK_L40;
    let la = a & MASK_L40;
    let hb = (b >> 1) & MASK_L40;
    let lb = b & MASK_L40;
    let neg_a = MASK_L40 & !ha & !la;
    let neg_b = MASK_L40 & !hb & !lb;
    let new_h = ha & hb;
    let is_neg = neg_a & neg_b;
    let new_l = MASK_L40 & !new_h & !is_neg;
    (new_h << 1) | new_l
}

/// The trit-wise accept-anything of two interleaved words.
fn il40_accept_anything(a: u128, b: u128) -> (r: u128)
    ensures
        r == il_accept128(a, b, MASK_L40),
{
    let ha = (a >> 1) & MASK_L40;
    let la = a & MASK_L40;
    let hb = (b >> 1) & MASK_L40;
    let lb = b & MASK_L40;
    let neg_a = MASK_L40 & !ha & !la;
    let neg_b = MASK_L40 & !hb & !lb;
    let not_neg_a = ha | la;
    let not_neg_b = hb | lb;
    let not_pos_a = (MASK_L40 & !ha) | la;
    let not_pos_b = (MASK_L40 & !hb) | lb;
    let new_h = (ha & not_neg_b) | (hb & not_neg_a);
    let is_neg = (neg_a & not_pos_b) | (neg_b & not_pos_a);
    let new_l = MASK_L40 & !new_h & !is_neg;
    (new_h << 1) | new_l
}

/// Pair by pair, the trit-wise logic on valid 40-trit words computes the code
/// tables, and the results are valid.
proof fn lemma_il40_logic(a: u128, b: u128, k: int)
    requires
        0 <= k < 40,
        pair128(a, (2 * k) as u128) < 3,
        pair128(b, (2 * k) as u128) < 3,
    ensures
        ({
            let s = (2 * k) as u128;
            let ca = pair128(a, s) as int;
            let cb = pair128(b, s) as int;
            &&& pair128(il_neg128(a, MASK_L40), s) == 2 - ca
            &&& pair128(il_and128(a, b, MASK_L40), s) == code_and(ca, cb)
            &&& pair128(il_or128(a, b, MASK_L40), s) == code_or(ca, cb)
            &&& pair128(il_xor128(a, b, MASK_L40), s) == code_xor(ca, cb)
            &&& pair128(il_consensus128(a, b, MASK_L40), s) == code_consensus(ca, cb)
            &&& pair128(il_accept128(a, b, MASK_L40), s) == code_accept(ca, cb)
        }),
{
    let s = (2 * k) as u128;
    lemma_mask40(s);
    lemma_il128(a, b, MASK_L40, s);
}

/// `v` fits 40 balanced trits.
pub open spec fn fits40(v: int) -> bool {
    2 * abs_int(v) <= pow3(40) - 1
}

/// The 40 balanced digits of a value, most significant first: its low 40
/// digits when it does not fit.
pub open spec fn ter40_digits(v: int) -> Seq<Digit> {
    fixed_digits(v, 40)
}

/// The magnitude of any `i64`, as a `u64`.
fn magnitude_any(v: i64) -> (m: u64)
    ensures
        m == abs_int(v as int),
{
    if v < 0 {
        (0i128 - v as i128) as u64
    } else {
        v as u64
    }
}

/// A 40-trit balanced ternary number stored as its value in an `i64`.
#[derive(Copy, Clone, Debug, PartialEq, Eq, PartialOrd, Ord, Hash, Default)]
pub struct Ter40(i64);

impl View for Ter40 {
    type V = int;

    closed spec fn view(&self) -> int {
        self.0 as int
    }
}

impl Ter40 {
    /// The number holding `from`.
    pub fn from_dec(from: i64) -> (t: Ter40)
        ensures
            t@ == from,
    {
        Ter40(from)
    }

    /// The stored value.
    pub fn to_dec(&self) -> (r: i64)
        ensures
            r == self@,
    {
        self.0
    }

    /// The number holding the value of `ternary`, which must fit an `i64`.
    pub fn from_ternary(ternary: Ternary) -> (t: Ter40)
        requires
            fits_i64(value(ternary@)),
        ensures
            t@ == value(ternary@),
    {
        Ter40(ternary.to_dec())
    }

    /// The value as a `Ternary` of at least 40 digits: zero-padded to 40 digits,
    /// or its shortest form when that is longer.
    pub fn to_ternary(&self) -> (t: Ternary)
        ensures
            value(t@) == self@,
            t@.len() >= 40,
            t@.len() > 40 ==> is_trimmed(t@),
    {
        let t = Ternary::from_dec(self.0);
        t.with_length(40)
    }

    /// The 40 digits, as a tryte.
    fn to_raw(self) -> (t: Tryte<40>)
        ensures
            t@ == ter40_digits(self@),
    {
        let t = Tryte::<40>::from_i64(self.0);
        proof {
            t.lemma_len();
            lemma_fixed_digits(self@, 40);
            lemma_fixed_unique(t@, ter40_digits(self@));
        }
        t
    }

    /// The number with the given 40 digits.
    fn from_raw(raw: Tryte<40>) -> (t: Ter40)
        ensures
            t@ == value(raw@),
            fits40(t@),
            ter40_digits(t@) == raw@,
    {
        proof {
            raw.lemma_len();
            lemma_digits40(raw@);
        }
        Ter40(raw.to_i64())
    }

    /// Trit-wise consensus: a trit survives where both agree, else `Zero`.
    pub fn consensus(self, other: Ter40) -> (t: Ter40)
        requires
            fits40(self@),
            fits40(other@),
        ensures
            fits40(t@),
            forall|i: int|
                0 <= i < 40 ==> ter40_digits(t@)[i] == ter40_digits(self@)[i].consensus(
                    ter40_digits(other@)[i],
                ),
    {
        let (ia, ib) = i64_pair_to_il40(self.0, other.0);
        let w = il40_consensus(ia, ib);
        proof {
            lemma_il40_results(ia, ib);
        }
        let v = il40_to_i64(w);
        proof {
            lemma_il_value128(w, 40);
        }
        Ter40(v)
    }

    /// Trit-wise accept-anything: the sign of the sum of the two trits.
    pub fn accept_anything(self, other: Ter40) -> (t: Ter40)
        requires
            fits40(self@),
            fits40(other@),
        ensures
            fits40(t@),
            forall|i: int|
                0 <= i < 40 ==> ter40_digits(t@)[i] == ter40_digits(self@)[i].accept_anything(
                    ter40_digits(other@)[i],
                ),
    {
        let (ia, ib) = i64_pair_to_il40(self.0, other.0);
        let w = il40_accept_anything(ia, ib);
        proof {
            lemma_il40_results(ia, ib);
        }
        let v = il40_to_i64(w);
        proof {
            lemma_il_value128(w, 40);
        }
        Ter40(v)
    }

    /// The 40 digits, most significant first.
    pub fn to_digits(&self) -> (v: Vec<Digit>)
        ensures
            v@ == ter40_digits(self@),
    {
        self.to_raw().to_digits()
    }

    /// The digit at `index` counted from the right; `None` past the 40th.
    pub fn digit(&self, index: usize) -> (d: Option<Digit>)
        ensures
            index < 40 ==> d == Some(ter40_digits(self@)[39 - index]),
            index >= 40 ==> d.is_none(),
    {
        if index < 40 {
            let raw = self.to_raw();
            proof {
                raw.lemma_len();
            }
            raw.digit(index)
        } else {
            None
        }
    }

    /// Applies `f` to every digit.
    pub fn each<F: Fn(Digit) -> Digit>(&self, f: F) -> (t: Ter40)
        requires
            forall|i: int| 0 <= i < 40 ==> f.requires((ter40_digits(self@)[i],)),
        ensures
            fits40(t@),
            forall|i: int|
                0 <= i < 40 ==> f.ensures((ter40_digits(self@)[i],), ter40_digits(t@)[i]),
    {
        let raw = self.to_raw();
        proof {
            raw.lemma_len();
        }
        Ter40::from_raw(raw.each(f))
    }

    /// Applies `f` to every digit together with the fixed digit `other`.
    pub fn each_with<F: Fn(Digit, Digit) -> Digit>(&self, f: F, other: Digit) -> (t: Ter40)
        requires
            forall|i: int| 0 <= i < 40 ==> f.requires((ter40_digits(self@)[i], other)),
        ensures
            fits40(t@),
            forall|i: int|
                0 <= i < 40 ==> f.ensures((ter40_digits(self@)[i], other), ter40_digits(t@)[i]),
    {
        let raw = self.to_raw();
        proof {
            raw.lemma_len();
        }
        Ter40::from_raw(raw.each_with(f, other))
    }

    /// Applies `f` to the digits of the two numbers position by position.
    pub fn each_zip<F: Fn(Digit, Digit) -> Digit>(&self, f: F, other: Ter40) -> (t: Ter40)
        requires
            forall|i: int|
                0 <= i < 40 ==> f.requires((ter40_digits(self@)[i], ter40_digits(other@)[i])),
        ensures
            fits40(t@),
            forall|i: int|
                0 <= i < 40 ==> f.ensures(
                    (ter40_digits(self@)[i], ter40_digits(other@)[i]),
                    ter40_digits(t@)[i],
                ),
    {
        let raw = self.to_raw();
        let oraw = other.to_raw();
        proof {
            raw.lemma_len();
            oraw.lemma_len();
        }
        Ter40::from_raw(raw.each_zip(f, oraw))
    }

    /// Applies `f` to the digit pairs from the least significant up, threading a
    /// carry that starts at `Zero`; `f` returns the next carry and the digit.
    pub fn each_zip_carry<F: Fn(Digit, Digit, Digit) -> (Digit, Digit)>(
        &self,
        f: F,
        other: Ter40,
    ) -> (t: Ter40)
        requires
            forall|i: int, c: Digit|
                0 <= i < 40 ==> f.requires((ter40_digits(self@)[i], ter40_digits(other@)[i], c)),
        ensures
            fits40(t@),
            exists|carries: Seq<Digit>|
                {
                    &&& carries.len() == 41
                    &&& carries[40] == Digit::Zero
                    &&& forall|i: int|
                        0 <= i < 40 ==> f.ensures(
                            (
                                ter40_digits(self@)[i],
                                ter40_digits(other@)[i],
                                #[trigger] carries[i + 1],
                            ),
                            (carries[i], ter40_digits(t@)[i]),
                        )
                },
    {
        let raw = self.to_raw();
        let oraw = other.to_raw();
        proof {
            raw.lemma_len();
            oraw.lemma_len();
        }
        Ter40::from_raw(raw.each_zip_carry(f, oraw))
    }
}

/// The code tables hold for every pair of two valid words, and the results
/// of the trit-wise logic are valid.
proof fn lemma_il40_results(a: u128, b: u128)
    requires
        il_valid128(a, 40),
        il_valid128(b, 40),
    ensures
        il_valid128(il_neg128(a, MASK_L40), 40),
        il_valid128(il_and128(a, b, MASK_L40), 40),
        il_valid128(il_or128(a, b, MASK_L40), 40),
        il_valid128(il_xor128(a, b, MASK_L40), 40),
        il_valid128(il_consensus128(a, b, MASK_L40), 40),
        il_valid128(il_accept128(a, b, MASK_L40), 40),
        forall|i: int| 0 <= i < 40 ==> #[trigger] il_digits128(il_neg128(a, MASK_L40), 40)[i] == il_digits128(a, 40)[i].negated(),
        forall|i: int| 0 <= i < 40 ==> #[trigger] il_digits128(il_and128(a, b, MASK_L40), 40)[i] == il_digits128(a, 40)[i].min_digit(il_digits128(b, 40)[i]),
        forall|i: int| 0 <= i < 40 ==> #[trigger] il_digits128(il_or128(a, b, MASK_L40), 40)[i] == il_digits128(a, 40)[i].max_digit(il_digits128(b, 40)[i]),
        forall|i: int| 0 <= i < 40 ==> #[trigger] il_digits128(il_xor128(a, b, MASK_L40), 40)[i] == digit_of(-(il_digits128(a, 40)[i].val() * il_digits128(b, 40)[i].val())),
        forall|i: int| 0 <= i < 40 ==> #[trigger] il_digits128(il_consensus128(a, b, MASK_L40), 40)[i] == il_digits128(a, 40)[i].consensus(il_digits128(b, 40)[i]),
        forall|i: int| 0 <= i < 40 ==> #[trigger] il_digits128(il_accept128(a, b, MASK_L40), 40)[i] == il_digits128(a, 40)[i].accept_anything(il_digits128(b, 40)[i]),
{
    assert forall|k: int| 0 <= k < 40 implies #[trigger] pair128(il_neg128(a, MASK_L40), (2 * k) as u128) < 3 by {
        assert(pair128(a, (2 * k) as u128) < 3);
        assert(pair128(b, (2 * k) as u128) < 3);
        lemma_il40_logic(a, b, k);
    }
    assert forall|k: int| 0 <= k < 40 implies #[trigger] pair128(il_and128(a, b, MASK_L40), (2 * k) as u128) < 3 by {
        assert(pair128(a, (2 * k) as u128) < 3);
        assert(pair128(b, (2 * k) as u128) < 3);
        lemma_il40_logic(a, b, k);
    }
    assert forall|k: int| 0 <= k < 40 implies #[trigger] pair128(il_or128(a, b, MASK_L40), (2 * k) as u128) < 3 by {
        assert(pair128(a, (2 * k) as u128) < 3);
        assert(pair128(b, (2 * k) as u128) < 3);
        lemma_il40_logic(a, b, k);
    }
    assert forall|k: int| 0 <= k < 40 implies #[trigger] pair128(il_xor128(a, b, MASK_L40), (2 * k) as u128) < 3 by {
        assert(pair128(a, (2 * k) as u128) < 3);
        assert(pair128(b, (2 * k) as u128) < 3);
        lemma_il40_logic(a, b, k);
    }
    assert forall|k: int| 0 <= k < 40 implies #[trigger] pair128(il_consensus128(a, b, MASK_L40), (2 * k) as u128) < 3 by {
        assert(pair128(a, (2 * k) as u128) < 3);
        assert(pair128(b, (2 * k) as u128) < 3);
        lemma_il40_logic(a, b, k);
    }
    assert forall|k: int| 0 <= k < 40 implies #[trigger] pair128(il_accept128(a, b, MASK_L40), (2 * k) as u128) < 3 by {
        assert(pair128(a, (2 * k) as u128) < 3);
        assert(pair128(b, (2 * k) as u128) < 3);
        lemma_il40_logic(a, b, k);
    }
    assert forall|i: int| 0 <= i < 40 implies #[trigger] il_digits128(il_neg128(a, MASK_L40), 40)[i] == il_digits128(a, 40)[i].negated() by {
        let k = 39 - i;
        assert(pair128(a, (2 * k) as u128) < 3);
        assert(pair128(b, (2 * k) as u128) < 3);
        lemma_il40_logic(a, b, k);
        lemma_code_digits(pair128(a, (2 * k) as u128) as int, pair128(b, (2 * k) as u128) as int);
    }
    assert forall|i: int| 0 <= i < 40 implies #[trigger] il_digits128(il_and128(a, b, MASK_L40), 40)[i] == il_digits128(a, 40)[i].min_digit(il_digits128(b, 40)[i]) by {
        let k = 39 - i;
        assert(pair128(a, (2 * k) as u128) < 3);
        assert(pair128(b, (2 * k) as u128) < 3);
        lemma_il40_logic(a, b, k);
        lemma_code_digits(pair128(a, (2 * k) as u128) as int, pair128(b, (2 * k) as u128) as int);
    }
    assert forall|i: int| 0 <= i < 40 implies #[trigger] il_digits128(il_or128(a, b, MASK_L40), 40)[i] == il_digits128(a, 40)[i].max_digit(il_digits128(b, 40)[i]) by {
        let k = 39 - i;
        assert(pair128(a, (2 * k) as u128) < 3);
        assert(pair128(b, (2 * k) as u128) < 3);
        lemma_il40_logic(a, b, k);
        lemma_code_digits(pair128(a, (2 * k) as u128) as int, pair128(b, (2 * k) as u128) as int);
    }
    assert forall|i: int| 0 <= i < 40 implies #[trigger] il_digits128(il_xor128(a, b, MASK_L40), 40)[i] == digit_of(-(il_digits128(a, 40)[i].val() * il_digits128(b, 40)[i].val())) by {
        let k = 39 - i;
        assert(pair128(a, (2 * k) as u128) < 3);
        assert(pair128(b, (2 * k) as u128) < 3);
        lemma_il40_logic(a, b, k);
        lemma_code_digits(pair128(a, (2 * k) as u128) as int, pair128(b, (2 * k) as u128) as int);
    }
    assert forall|i: int| 0 <= i < 40 implies #[trigger] il_digits128(il_consensus128(a, b, MASK_L40), 40)[i] == il_digits128(a, 40)[i].consensus(il_digits128(b, 40)[i]) by {
        let k = 39 - i;
        assert(pair128(a, (2 * k) as u128) < 3);
        assert(pair128(b, (2 * k) as u128) < 3);
        lemma_il40_logic(a, b, k);
        lemma_code_digits(pair128(a, (2 * k) as u128) as int, pair128(b, (2 * k) as u128) as int);
    }
    assert forall|i: int| 0 <= i < 40 implies #[trigger] il_digits128(il_accept128(a, b, MASK_L40), 40)[i] == il_digits128(a, 40)[i].accept_anything(il_digits128(b, 40)[i]) by {
        let k = 39 - i;
        assert(pair128(a, (2 * k) as u128) < 3);
        assert(pair128(b, (2 * k) as u128) < 3);
        lemma_il40_logic(a, b, k);
        lemma_code_digits(pair128(a, (2 * k) as u128) as int, pair128(b, (2 * k) as u128) as int);
    }
}

impl Add for Ter40 {
    type Output = Ter40;

    /// The sum; it must fit an `i64`.
    fn add(self, rhs: Ter40) -> (t: Ter40)
        ensures
            t@ == self@ + rhs@,
    {
        Ter40(self.0 + rhs.0)
    }
}

impl vstd::std_specs::ops::AddSpecImpl for Ter40 {
    open spec fn obeys_add_spec() -> bool {
        false
    }

    open spec fn add_req(self, rhs: Ter40) -> bool {
        i64::MIN <= self@ + rhs@ <= i64::MAX
    }

    open spec fn add_spec(self, rhs: Ter40) -> Ter40 {
        arbitrary()
    }
}

impl Sub for Ter40 {
    type Output = Ter40;

    /// The difference; it must fit an `i64`.
    fn sub(self, rhs: Ter40) -> (t: Ter40)
        ensures
            t@ == self@ - rhs@,
    {
        Ter40(self.0 - rhs.0)
    }
}

impl vstd::std_specs::ops::SubSpecImpl for Ter40 {
    open spec fn obeys_sub_spec() -> bool {
        false
    }

    open spec fn sub_req(self, rhs: Ter40) -> bool {
        i64::MIN <= self@ - rhs@ <= i64::MAX
    }

    open spec fn sub_spec(self, rhs: Ter40) -> Ter40 {
        arbitrary()
    }
}

impl Mul for Ter40 {
    type Output = Ter40;

    /// The product; it must fit an `i64`.
    fn mul(self, rhs: Ter40) -> (t: Ter40)
        ensures
            t@ == self@ * rhs@,
    {
        Ter40(self.0 * rhs.0)
    }
}

impl vstd::std_specs::ops::MulSpecImpl for Ter40 {
    open spec fn obeys_mul_spec() -> bool {
        false
    }

    open spec fn mul_req(self, rhs: Ter40) -> bool {
        i64::MIN <= self@ * rhs@ <= i64::MAX
    }

    open spec fn mul_spec(self, rhs: Ter40) -> Ter40 {
        arbitrary()
    }
}

impl Div for Ter40 {
    type Output = Ter40;

    /// The quotient rounded toward zero; the divisor must not be zero and the quotient must fit an `i64`.
    fn div(self, rhs: Ter40) -> (t: Ter40)
        ensures
            t@ == trunc_div(self@, rhs@),
    {
        let mx = magnitude_any(self.0);
        let my = magnitude_any(rhs.0);
        let q = mx / my;
        proof {
            vstd::arithmetic::div_mod::lemma_div_is_ordered_by_denominator(mx as int, 1, my as int);
            if my == 1 {
                assert(q == mx);
            } else {
                vstd::arithmetic::div_mod::lemma_div_is_ordered_by_denominator(mx as int, 2, my as int);
            }
        }
        if (self.0 < 0) == (rhs.0 < 0) {
            Ter40(q as i64)
        } else {
            Ter40((0i128 - q as i128) as i64)
        }
    }
}

impl vstd::std_specs::ops::DivSpecImpl for Ter40 {
    open spec fn obeys_div_spec() -> bool {
        false
    }

    open spec fn div_req(self, rhs: Ter40) -> bool {
        rhs@ != 0 && !(self@ == i64::MIN && rhs@ == -1)
    }

    open spec fn div_spec(self, rhs: Ter40) -> Ter40 {
        arbitrary()
    }
}

impl Neg for Ter40 {
    type Output = Ter40;

    /// The opposite; `i64::MIN` has none.
    fn neg(self) -> (t: Ter40)
        ensures
            t@ == -self@,
    {
        Ter40(-self.0)
    }
}

impl vstd::std_specs::ops::NegSpecImpl for Ter40 {
    open spec fn obeys_neg_spec() -> bool {
        false
    }

    open spec fn neg_req(self) -> bool {
        self@ != i64::MIN
    }

    open spec fn neg_spec(self) -> Ter40 {
        arbitrary()
    }
}

impl BitAnd for Ter40 {
    type Output = Ter40;

    /// Trit-wise minimum of two values of 40 trits.
    fn bitand(self, rhs: Ter40) -> (t: Ter40)
        ensures
            fits40(t@),
            forall|i: int| 0 <= i < 40 ==> ter40_digits(t@)[i] == ter40_digits(self@)[i].min_digit(ter40_digits(rhs@)[i]),
    {
        let (ia, ib) = i64_pair_to_il40(self.0, rhs.0);
        let w = il_and_u128(ia, ib, MASK_L40);
        proof {
            lemma_il40_results(ia, ib);
        }
        let v = il40_to_i64(w);
        proof {
            lemma_il_value128(w, 40);
        }
        Ter40(v)
    }
}

impl vstd::std_specs::ops::BitAndSpecImpl for Ter40 {
    open spec fn obeys_bitand_spec() -> bool {
        false
    }

    open spec fn bitand_req(self, rhs: Ter40) -> bool {
        fits40(self@) && fits40(rhs@)
    }

    open spec fn bitand_spec(self, rhs: Ter40) -> Ter40 {
        arbitrary()
    }
}

impl BitOr for Ter40 {
    type Output = Ter40;

    /// Trit-wise maximum of two values of 40 trits.
    fn bitor(self, rhs: Ter40) -> (t: Ter40)
        ensures
            fits40(t@),
            forall|i: int| 0 <= i < 40 ==> ter40_digits(t@)[i] == ter40_digits(self@)[i].max_digit(ter40_digits(rhs@)[i]),
    {
        let (ia, ib) = i64_pair_to_il40(self.0, rhs.0);
        let w = il_or_u128(ia, ib, MASK_L40);
        proof {
            lemma_il40_results(ia, ib);
        }
        let v = il40_to_i64(w);
        proof {
            lemma_il_value128(w, 40);
        }
        Ter40(v)
    }
}

impl vstd::std_specs::ops::BitOrSpecImpl for Ter40 {
    open spec fn obeys_bitor_spec() -> bool {
        false
    }

    open spec fn bitor_req(self, rhs: Ter40) -> bool {
        fits40(self@) && fits40(rhs@)
    }

    open spec fn bitor_spec(self, rhs: Ter40) -> Ter40 {
        arbitrary()
    }
}

impl BitXor for Ter40 {
    type Output = Ter40;

    /// Trit-wise `-(a * b)` of two values of 40 trits.
    fn bitxor(self, rhs: Ter40) -> (t: Ter40)
        ensures
            fits40(t@),
            forall|i: int| 0 <= i < 40 ==> ter40_digits(t@)[i] == digit_of(-(ter40_digits(self@)[i].val() * ter40_digits(rhs@)[i].val())),
    {
        let (ia, ib) = i64_pair_to_il40(self.0, rhs.0);
        let w = il_xor_u128(ia, ib, MASK_L40);
        proof {
            lemma_il40_results(ia, ib);
        }
        let v = il40_to_i64(w);
        proof {
            lemma_il_value128(w, 40);
        }
        Ter40(v)
    }
}

impl vstd::std_specs::ops::BitXorSpecImpl for Ter40 {
    open spec fn obeys_bitxor_spec() -> bool {
        false
    }

    open spec fn bitxor_req(self, rhs: Ter40) -> bool {
        fits40(self@) && fits40(rhs@)
    }

    open spec fn bitxor_spec(self, rhs: Ter40) -> Ter40 {
        arbitrary()
    }
}

/// 40 balanced trits interleaved in a `u128`: trit `k` lives in the bit pair
/// `(2k+1, 2k)` as `00` (`Neg`), `01` (`Zero`) or `10` (`Pos`); the bits from
/// 80 up are always zero.
#[derive(Copy, Clone, Debug, PartialEq, Eq, Hash, Default)]
pub struct IlTer40(u128);

impl View for IlTer40 {
    type V = Seq<Digit>;

    closed spec fn view(&self) -> Seq<Digit> {
        il_digits128(self.0, 40)
    }
}

impl IlTer40 {
    #[verifier::type_invariant]
    spec fn well_formed(self) -> bool {
        il_valid128(self.0, 40) && self.0 >> 80u128 == 0
    }

    /// The raw word, in specifications.
    pub closed spec fn word(self) -> u128 {
        self.0
    }

    /// All trits `Zero`: every pair `01`.
    pub fn zero() -> (t: IlTer40)
        ensures
            t.word() == 0x5555_5555_5555_5555_5555,
            t@ == zeros(40),
            value(t@) == 0,
    {
        proof {
            assert forall|k: int| 0 <= k < 40 implies #[trigger] pair128(MASK_L40, (2 * k) as u128)
                == 1 by {
                lemma_mask40((2 * k) as u128);
            }
        }
        proof {
            lemma_il40_top(0, 0, 0, 0);
        }
        let t = IlTer40(MASK_L40);
        proof {
            assert(t@ =~= zeros(40));
            crate::model::lemma_value_zeros(40);
        }
        t
    }

    /// All trits `Pos`: every pair `10`.
    pub fn maximum() -> (t: IlTer40)
        ensures
            t.word() == 0xAAAA_AAAA_AAAA_AAAA_AAAA,
            t@ == Seq::new(40, |i: int| Digit::Pos),
            value(t@) == max_value(40),
    {
        let w = MASK_L40 << 1;
        proof {
            assert(w == 0xAAAA_AAAA_AAAA_AAAA_AAAAu128) by (bit_vector)
                requires
                    w == 0x0000_0000_0000_5555_5555_5555_5555_5555u128 << 1u128,
            ;
            assert forall|k: int| 0 <= k < 40 implies #[trigger] pair128(w, (2 * k) as u128) == 2 by {
                lemma_mask40((2 * k) as u128);
            }
        }
        proof {
            lemma_il40_top(0, 0, 0, 0);
        }
        let t = IlTer40(w);
        proof {
            assert(t@ =~= Seq::new(40, |i: int| Digit::Pos));
            crate::tryte::lemma_value_all(Digit::Pos, 40);
        }
        t
    }

    /// All trits `Neg`: every pair `00`.
    pub fn minimum() -> (t: IlTer40)
        ensures
            t.word() == 0,
            t@ == Seq::new(40, |i: int| Digit::Neg),
            value(t@) == -max_value(40),
    {
        proof {
            assert forall|k: int| 0 <= k < 40 implies #[trigger] pair128(0, (2 * k) as u128) == 0 by {
                crate::packed::lemma_zero_pairs128((2 * k) as u128);
            }
        }
        proof {
            lemma_il40_top(0, 0, 0, 0);
        }
        let t = IlTer40(0);
        proof {
            assert(t@ =~= Seq::new(40, |i: int| Digit::Neg));
            crate::tryte::lemma_value_all(Digit::Neg, 40);
        }
        t
    }

    /// The number of a raw word whose 40 pairs hold valid codes.
    pub fn from_raw(word: u128) -> (t: IlTer40)
        requires
            il_valid128(word, 40),
            word >> 80u128 == 0,
        ensures
            t.word() == word,
            t@ == il_digits128(word, 40),
    {
        IlTer40(word)
    }

    /// The raw word.
    pub fn raw(self) -> (w: u128)
        ensures
            w == self.word(),
            self@ == il_digits128(w, 40),
            il_valid128(w, 40),
            w >> 80u128 == 0,
    {
        proof {
            use_type_invariant(self);
        }
        self.0
    }

    /// The 40 trits of a value that fits them.
    pub fn from_dec(v: i64) -> (t: IlTer40)
        requires
            fits40(v as int),
        ensures
            t@ == ter40_digits(v as int),
            value(t@) == v,
    {
        let raw = i64_to_il40(v);
        let w = raw & 0xFFFF_FFFF_FFFF_FFFF_FFFFu128;
        proof {
            lemma_fixed_digits(v as int, 40);
            lemma_fits40(v as int);
            lemma_il40_top(0, 0, raw, 0);
            assert forall|k: int| 0 <= k < 40 implies #[trigger] pair128(w, (2 * k) as u128) == pair128(
                raw,
                (2 * k) as u128,
            ) by {
                lemma_il40_top(0, 0, raw, (2 * k) as u128);
            }
            assert(il_digits128(w, 40) =~= il_digits128(raw, 40));
        }
        IlTer40(w)
    }

    /// The value of the 40 trits.
    pub fn to_dec(self) -> (r: i64)
        ensures
            r == value(self@),
            fits40(r as int),
    {
        proof {
            use_type_invariant(self);
            lemma_il_value128(self.0, 40);
        }
        il40_to_i64(self.0)
    }
}

impl IlTer40 {
    /// Trit-wise negation.
    pub fn il_neg(self) -> (t: IlTer40)
        ensures
            forall|i: int| 0 <= i < 40 ==> t@[i] == self@[i].negated(),
    {
        proof {
            use_type_invariant(self);
            use_type_invariant(self);
            lemma_il40_results(self.0, self.0);
        }
        proof {
            lemma_il40_top(self.0, self.0, 0, 0);
        }
        IlTer40(il_neg_u128(self.0, MASK_L40))
    }

    /// Trit-wise minimum (Kleene AND).
    pub fn il_and(self, o: IlTer40) -> (t: IlTer40)
        ensures
            forall|i: int| 0 <= i < 40 ==> t@[i] == self@[i].min_digit(o@[i]),
    {
        proof {
            use_type_invariant(self);
            use_type_invariant(o);
            lemma_il40_results(self.0, o.0);
        }
        proof {
            lemma_il40_top(self.0, o.0, 0, 0);
        }
        IlTer40(il_and_u128(self.0, o.0, MASK_L40))
    }

    /// Trit-wise maximum (Kleene OR).
    pub fn il_or(self, o: IlTer40) -> (t: IlTer40)
        ensures
            forall|i: int| 0 <= i < 40 ==> t@[i] == self@[i].max_digit(o@[i]),
    {
        proof {
            use_type_invariant(self);
            use_type_invariant(o);
            lemma_il40_results(self.0, o.0);
        }
        proof {
            lemma_il40_top(self.0, o.0, 0, 0);
        }
        IlTer40(il_or_u128(self.0, o.0, MASK_L40))
    }

    /// Trit-wise `-(a * b)` (Kleene XOR).
    pub fn il_xor(self, o: IlTer40) -> (t: IlTer40)
        ensures
            forall|i: int| 0 <= i < 40 ==> t@[i] == digit_of(-(self@[i].val() * o@[i].val())),
    {
        proof {
            use_type_invariant(self);
            use_type_invariant(o);
            lemma_il40_results(self.0, o.0);
        }
        proof {
            lemma_il40_top(self.0, o.0, 0, 0);
        }
        IlTer40(il_xor_u128(self.0, o.0, MASK_L40))
    }

    /// Trit-wise consensus: a trit survives where both agree, else `Zero`.
    pub fn il_consensus(self, o: IlTer40) -> (t: IlTer40)
        ensures
            forall|i: int| 0 <= i < 40 ==> t@[i] == self@[i].consensus(o@[i]),
    {
        proof {
            use_type_invariant(self);
            use_type_invariant(o);
            lemma_il40_results(self.0, o.0);
        }
        proof {
            lemma_il40_top(self.0, o.0, 0, 0);
        }
        IlTer40(il40_consensus(self.0, o.0))
    }

    /// Trit-wise accept-anything: the sign of the sum of the two trits.
    pub fn il_accept_anything(self, o: IlTer40) -> (t: IlTer40)
        ensures
            forall|i: int| 0 <= i < 40 ==> t@[i] == self@[i].accept_anything(o@[i]),
    {
        proof {
            use_type_invariant(self);
            use_type_invariant(o);
            lemma_il40_results(self.0, o.0);
        }
        proof {
            lemma_il40_top(self.0, o.0, 0, 0);
        }
        IlTer40(il40_accept_anything(self.0, o.0))
    }
}

impl Neg for IlTer40 {
    type Output = IlTer40;

    /// Every trit negated.
    fn neg(self) -> (t: IlTer40)
        ensures
            forall|i: int| 0 <= i < 40 ==> t@[i] == self@[i].negated(),
    {
        self.il_neg()
    }
}

impl vstd::std_specs::ops::NegSpecImpl for IlTer40 {
    open spec fn obeys_neg_spec() -> bool {
        false
    }

    open spec fn neg_req(self) -> bool {
        true
    }

    open spec fn neg_spec(self) -> IlTer40 {
        arbitrary()
    }
}

impl Not for IlTer40 {
    type Output = IlTer40;

    /// Kleene negation: every trit negated.
    fn not(self) -> (t: IlTer40)
        ensures
            forall|i: int| 0 <= i < 40 ==> t@[i] == self@[i].negated(),
    {
        self.il_neg()
    }
}

impl vstd::std_specs::ops::NotSpecImpl for IlTer40 {
    open spec fn obeys_not_spec() -> bool {
        false
    }

    open spec fn not_req(self) -> bool {
        true
    }

    open spec fn not_spec(self) -> IlTer40 {
        arbitrary()
    }
}

impl BitAnd for IlTer40 {
    type Output = IlTer40;

    /// Trit-wise minimum.
    fn bitand(self, rhs: IlTer40) -> (t: IlTer40)
        ensures
            forall|i: int| 0 <= i < 40 ==> t@[i] == self@[i].min_digit(rhs@[i]),
    {
        self.il_and(rhs)
    }
}

impl vstd::std_specs::ops::BitAndSpecImpl for IlTer40 {
    open spec fn obeys_bitand_spec() -> bool {
        false
    }

    open spec fn bitand_req(self, rhs: IlTer40) -> bool {
        true
    }

    open spec fn bitand_spec(self, rhs: IlTer40) -> IlTer40 {
        arbitrary()
    }
}

impl BitOr for IlTer40 {
    type Output = IlTer40;

    /// Trit-wise maximum.
    fn bitor(self, rhs: IlTer40) -> (t: IlTer40)
        ensures
            forall|i: int| 0 <= i < 40 ==> t@[i] == self@[i].max_digit(rhs@[i]),
    {
        self.il_or(rhs)
    }
}

impl vstd::std_specs::ops::BitOrSpecImpl for IlTer40 {
    open spec fn obeys_bitor_spec() -> bool {
        false
    }

    open spec fn bitor_req(self, rhs: IlTer40) -> bool {
        true
    }

    open spec fn bitor_spec(self, rhs: IlTer40) -> IlTer40 {
        arbitrary()
    }
}

impl BitXor for IlTer40 {
    type Output = IlTer40;

    /// Trit-wise `-(a * b)`.
    fn bitxor(self, rhs: IlTer40) -> (t: IlTer40)
        ensures
            forall|i: int| 0 <= i < 40 ==> t@[i] == digit_of(-(self@[i].val() * rhs@[i].val())),
    {
        self.il_xor(rhs)
    }
}

impl vstd::std_specs::ops::BitXorSpecImpl for IlTer40 {
    open spec fn obeys_bitxor_spec() -> bool {
        false
    }

    open spec fn bitxor_req(self, rhs: IlTer40) -> bool {
        true
    }

    open spec fn bitxor_spec(self, rhs: IlTer40) -> IlTer40 {
        arbitrary()
    }
}

impl Add for IlTer40 {
    type Output = IlTer40;

    /// The sum, which must fit 40 trits.
    fn add(self, rhs: IlTer40) -> (t: IlTer40)
        ensures
            value(t@) == value(self@) + value(rhs@),
    {
        proof {
            lemma_pow3_40();
        }
        IlTer40::from_dec(self.to_dec() + rhs.to_dec())
    }
}

impl vstd::std_specs::ops::AddSpecImpl for IlTer40 {
    open spec fn obeys_add_spec() -> bool {
        false
    }

    open spec fn add_req(self, rhs: IlTer40) -> bool {
        fits40(value(self@) + value(rhs@))
    }

    open spec fn add_spec(self, rhs: IlTer40) -> IlTer40 {
        arbitrary()
    }
}

impl Sub for IlTer40 {
    type Output = IlTer40;

    /// The difference, which must fit 40 trits.
    fn sub(self, rhs: IlTer40) -> (t: IlTer40)
        ensures
            value(t@) == value(self@) - value(rhs@),
    {
        proof {
            lemma_pow3_40();
        }
        IlTer40::from_dec(self.to_dec() - rhs.to_dec())
    }
}

impl vstd::std_specs::ops::SubSpecImpl for IlTer40 {
    open spec fn obeys_sub_spec() -> bool {
        false
    }

    open spec fn sub_req(self, rhs: IlTer40) -> bool {
        fits40(value(self@) - value(rhs@))
    }

    open spec fn sub_spec(self, rhs: IlTer40) -> IlTer40 {
        arbitrary()
    }
}

impl Mul for IlTer40 {
    type Output = IlTer40;

    /// The product, which must fit 40 trits and an `i64`.
    fn mul(self, rhs: IlTer40) -> (t: IlTer40)
        ensures
            value(t@) == value(self@) * value(rhs@),
    {
        IlTer40::from_dec(self.to_dec() * rhs.to_dec())
    }
}

impl vstd::std_specs::ops::MulSpecImpl for IlTer40 {
    open spec fn obeys_mul_spec() -> bool {
        false
    }

    open spec fn mul_req(self, rhs: IlTer40) -> bool {
        fits40(value(self@) * value(rhs@)) && i64::MIN <= value(self@) * value(rhs@) <= i64::MAX
    }

    open spec fn mul_spec(self, rhs: IlTer40) -> IlTer40 {
        arbitrary()
    }
}

impl Div for IlTer40 {
    type Output = IlTer40;

    /// The quotient rounded toward zero; the divisor must not be zero.
    fn div(self, rhs: IlTer40) -> (t: IlTer40)
        ensures
            value(t@) == trunc_div(value(self@), value(rhs@)),
    {
        let x = self.to_dec();
        let y = rhs.to_dec();
        let q = magnitude_any(x) / magnitude_any(y);
        proof {
            vstd::arithmetic::div_mod::lemma_div_is_ordered_by_denominator(
                abs_int(x as int),
                1,
                abs_int(y as int),
            );
            lemma_pow3_40();
        }
        let qi = q as i64;
        let r = if (x < 0) == (y < 0) {
            qi
        } else {
            -qi
        };
        IlTer40::from_dec(r)
    }
}

impl vstd::std_specs::ops::DivSpecImpl for IlTer40 {
    open spec fn obeys_div_spec() -> bool {
        false
    }

    open spec fn div_req(self, rhs: IlTer40) -> bool {
        value(rhs@) != 0
    }

    open spec fn div_spec(self, rhs: IlTer40) -> IlTer40 {
        arbitrary()
    }
}

} // verus!
