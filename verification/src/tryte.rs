//! `Tryte<SIZE>`: a fixed-width, copyable balanced ternary number of `SIZE` digits.
use vstd::prelude::*;
use std::ops::{Add, BitAnd, BitOr, BitXor, Div, Mul, Neg, Not, Shl, Shr, Sub};
use crate::digit::{Digit, digit_of};
use crate::model::{
    abs_int, lemma_pow3_monotone, lemma_pow3_odd, lemma_pow3_pos, lemma_value_bound,
    lemma_value_prepend, lemma_value_take_abs, lemma_value_update, max_value, negate_seq, pow3,
    value, zeros,
};
use crate::ternary::{Ternary, byte_digit, pad_left};
use crate::operations::{magnitude, trunc_div};
use crate::text::{empty_string, push_char};
use crate::unbalanced::{ParseTernaryError, is_balanced_text};
use vstd::string::StringSliceAdditionalSpecFns;

verus! {

/// `v` wrapped into the range of `n` balanced digits: the integer congruent to
/// `v` modulo `3^n` in `-max_value(n)..=max_value(n)`.
pub open spec fn wrap(v: int, n: nat) -> int {
    (v + max_value(n)) % pow3(n) - max_value(n)
}

/// `v` clamped into `-m..=m`.
pub open spec fn clamp(v: int, m: int) -> int {
    if v > m {
        m
    } else if v < -m {
        -m
    } else {
        v
    }
}

/// `3^40` and the bound `(3^40 - 1) / 2` of 40 balanced digits, which fits an `i64`.
pub proof fn lemma_pow3_40()
    ensures
        pow3(40) == 12157665459056928801,
        max_value(40) == 6078832729528464400,
{
    reveal_with_fuel(pow3, 41);
}

/// A value congruent to `a` modulo `3^n` and in range is the wrapped `a`.
pub proof fn lemma_wrap_unique(a: int, q: int, w: int, n: nat)
    requires
        a == q * pow3(n) + w,
        2 * w <= pow3(n) - 1,
        2 * w >= 1 - pow3(n),
    ensures
        w == wrap(a, n),
{
    lemma_pow3_odd(n);
    lemma_pow3_pos(n);
    let p = pow3(n);
    let m = max_value(n);
    assert(2 * m == p - 1);
    vstd::arithmetic::div_mod::lemma_fundamental_div_mod_converse(a + m, p, q, w + m);
}

/// A value in range wraps to itself, so `Tryte::from_i64(v).to_i64() == v`
/// for every `v` that the trits can hold.
pub proof fn lemma_wrap_in_range(v: int, n: nat)
    requires
        2 * abs_int(v) <= pow3(n) - 1,
    ensures
        wrap(v, n) == v,
{
    lemma_wrap_unique(v, 0, v, n);
}

/// The bound of `n <= 40` balanced digits fits an `i64` with room for the sign.
pub proof fn lemma_bound_fits(n: nat)
    requires
        n <= 40,
    ensures
        max_value(n) <= 6078832729528464400,
        pow3(n) <= 12157665459056928801,
        pow3(n) >= 1,
{
    lemma_pow3_40();
    lemma_pow3_monotone(n, 40);
    lemma_pow3_pos(n);
}

/// A balanced ternary number of exactly `SIZE` digits (at most 40), most
/// significant first.
#[derive(Clone, Copy, Debug, PartialEq, Eq, Hash)]
pub struct Tryte<const SIZE: usize> {
    raw: [Digit; SIZE],
}

impl<const SIZE: usize> View for Tryte<SIZE> {
    type V = Seq<Digit>;

    closed spec fn view(&self) -> Seq<Digit> {
        self.raw@
    }
}

impl<const SIZE: usize> Tryte<SIZE> {
    #[verifier::type_invariant]
    spec fn well_formed(self) -> bool {
        SIZE <= 40
    }

    /// A tryte of the given digits. `SIZE` must be at most 40.
    pub fn new(digits: [Digit; SIZE]) -> (t: Tryte<SIZE>)
        requires
            SIZE <= 40,
        ensures
            t@ == digits@,
    {
        Tryte { raw: digits }
    }

    /// A tryte has `SIZE` digits.
    pub proof fn lemma_len(&self)
        ensures
            self@.len() == SIZE,
    {
    }

    /// All digits zero.
    pub fn zero() -> (t: Tryte<SIZE>)
        requires
            SIZE <= 40,
        ensures
            t@ == zeros(SIZE as nat),
            value(t@) == 0,
    {
        let raw = [Digit::Zero; SIZE];
        assert(raw@ =~= zeros(SIZE as nat));
        proof {
            crate::model::lemma_value_zeros(SIZE as nat);
        }
        Tryte { raw }
    }

    /// All digits `Pos`: the largest tryte.
    pub fn maximum() -> (t: Tryte<SIZE>)
        requires
            SIZE <= 40,
        ensures
            t@ == Seq::new(SIZE as nat, |i: int| Digit::Pos),
            value(t@) == max_value(SIZE as nat),
    {
        let raw = [Digit::Pos; SIZE];
        assert(raw@ =~= Seq::new(SIZE as nat, |i: int| Digit::Pos));
        proof {
            lemma_value_all(Digit::Pos, SIZE as nat);
        }
        Tryte { raw }
    }

    /// All digits `Neg`: the smallest tryte.
    pub fn minimum() -> (t: Tryte<SIZE>)
        requires
            SIZE <= 40,
        ensures
            t@ == Seq::new(SIZE as nat, |i: int| Digit::Neg),
            value(t@) == -max_value(SIZE as nat),
    {
        let raw = [Digit::Neg; SIZE];
        assert(raw@ =~= Seq::new(SIZE as nat, |i: int| Digit::Neg));
        proof {
            lemma_value_all(Digit::Neg, SIZE as nat);
        }
        Tryte { raw }
    }

    /// The digits as an arbitrary-length number.
    pub fn to_ternary(&self) -> (t: Ternary)
        ensures
            t@ == self@,
    {
        Ternary::new(self.to_digits())
    }

    /// The digits, most significant first.
    pub fn to_digit_slice(&self) -> (s: &[Digit])
        ensures
            s@ == self@,
    {
        self.raw.as_slice()
    }

    /// A fresh vector of the digits, most significant first.
    pub fn to_digits(&self) -> (v: Vec<Digit>)
        ensures
            v@ == self@,
    {
        proof {
            use_type_invariant(self);
        }
        let mut v: Vec<Digit> = Vec::new();
        let mut i: usize = 0;
        while i < SIZE
            invariant
                i <= SIZE,
                self.raw@.len() == SIZE,
                v@ == self.raw@.take(i as int),
            decreases SIZE - i,
        {
            v.push(self.raw[i]);
            i += 1;
            assert(v@ =~= self.raw@.take(i as int));
        }
        assert(self.raw@.take(SIZE as int) =~= self.raw@);
        v
    }

    /// The tryte holding the digits of `v` right-aligned, zero-padded on the left;
    /// `v` must have at most `SIZE` digits.
    pub fn from_ternary(v: &Ternary) -> (t: Tryte<SIZE>)
        requires
            SIZE <= 40,
            v@.len() <= SIZE,
        ensures
            t@ == pad_left(v@, SIZE as nat),
            value(t@) == value(v@),
    {
        let src = v.to_digit_slice();
        let n = src.len();
        let off = SIZE - n;
        let mut raw = [Digit::Zero; SIZE];
        let ghost target = pad_left(v@, SIZE as nat);
        let mut i: usize = 0;
        while i < n
            invariant
                i <= n,
                n == src@.len(),
                src@ == v@,
                off == SIZE - n,
                raw@.len() == SIZE,
                target == pad_left(v@, SIZE as nat),
                forall|j: int| 0 <= j < off ==> raw@[j] == Digit::Zero,
                forall|j: int| off <= j < off + i ==> raw@[j] == target[j],
                forall|j: int| off + i <= j < SIZE ==> raw@[j] == Digit::Zero,
            decreases n - i,
        {
            raw[off + i] = src[i];
            i += 1;
        }
        assert(raw@ =~= target);
        proof {
            if n < SIZE {
                crate::model::lemma_value_leading_zeros((SIZE - n) as nat, v@);
            }
        }
        Tryte { raw }
    }

    /// The value as an `i64`.
    pub fn to_i64(&self) -> (r: i64)
        ensures
            r == value(self@),
    {
        proof {
            use_type_invariant(self);
            lemma_bound_fits(SIZE as nat);
            lemma_value_bound(self@);
        }
        let mut dec: i64 = 0;
        let mut i: usize = 0;
        while i < SIZE
            invariant
                i <= SIZE,
                SIZE <= 40,
                self.raw@.len() == SIZE,
                dec == value(self.raw@.take(i as int)),
                2 * abs_int(value(self.raw@)) <= 12157665459056928800,
            decreases SIZE - i,
        {
            proof {
                lemma_value_take_abs(self.raw@, i + 1);
                assert(self.raw@.take(i + 1).drop_last() =~= self.raw@.take(i as int));
            }
            dec = dec * 3 + self.raw[i].to_i8() as i64;
            i += 1;
        }
        assert(self.raw@.take(SIZE as int) =~= self.raw@);
        dec
    }

    /// The tryte congruent to `v` modulo `3^SIZE`: `v` itself when it fits,
    /// otherwise its low `SIZE` balanced digits.
    pub fn from_i64(v: i64) -> (t: Tryte<SIZE>)
        requires
            SIZE <= 40,
        ensures
            value(t@) == wrap(v as int, SIZE as nat),
    {
        let negative = v < 0;
        let mut x: u64 = if negative {
            (0i128 - v as i128) as u64
        } else {
            v as u64
        };
        let mut raw = [Digit::Zero; SIZE];
        let mut i: usize = SIZE;
        proof {
            assert(raw@.skip(SIZE as int) =~= Seq::<Digit>::empty());
        }
        while i > 0
            invariant
                i <= SIZE,
                raw@.len() == SIZE,
                x <= 0x8000_0000_0000_0000,
                !negative ==> v == x * pow3((SIZE - i) as nat) + value(raw@.skip(i as int)),
                negative ==> v == -(x * pow3((SIZE - i) as nat)) + value(raw@.skip(i as int)),
            decreases i,
        {
            i -= 1;
            let rem = x % 3;
            let t: i8 = if rem == 2 {
                -1
            } else {
                rem as i8
            };
            let next: u64 = if rem == 2 {
                (x - rem) / 3 + 1
            } else {
                (x - rem) / 3
            };
            let dv: i8 = if negative {
                -t
            } else {
                t
            };
            let d = Digit::from_i8(dv);
            let ghost old_raw = raw@;
            raw[i] = d;
            proof {
                let k = (SIZE - i - 1) as nat;
                assert(raw@.skip(i as int) =~= seq![d] + old_raw.skip(i + 1));
                lemma_value_prepend(d, old_raw.skip(i + 1));
                assert(pow3(k + 1) == 3 * pow3(k));
                assert(x * pow3(k) == next * pow3(k + 1) + t * pow3(k)) by (nonlinear_arith)
                    requires
                        x == 3 * next + t,
                        pow3(k + 1) == 3 * pow3(k),
                ;
                if negative {
                    assert(d.val() * pow3(k) == -(t * pow3(k))) by (nonlinear_arith)
                        requires
                            d.val() == -t,
                    ;
                }
            }
            x = next;
        }
        assert(raw@.skip(0) =~= raw@);
        proof {
            lemma_value_bound(raw@);
            if negative {
                assert(-(x * pow3(SIZE as nat)) == (-(x as int)) * pow3(SIZE as nat))
                    by (nonlinear_arith);
                lemma_wrap_unique(v as int, -(x as int), value(raw@), SIZE as nat);
            } else {
                lemma_wrap_unique(v as int, x as int, value(raw@), SIZE as nat);
            }
        }
        Tryte { raw }
    }

    /// The digits written with `+`, `0` and `-`.
    pub fn to_string(&self) -> (s: String)
        ensures
            s@ == self@.map_values(|d: Digit| d.to_char()),
    {
        self.to_ternary().to_string()
    }

    /// Reads a balanced ternary text of at most `SIZE` bytes into a right-aligned
    /// tryte; refuses any byte other than `+`, `0`, `-`.
    pub fn try_parse(s: &str) -> (r: Result<Tryte<SIZE>, ParseTernaryError>)
        requires
            SIZE <= 40,
            s.spec_bytes().len() <= SIZE,
        ensures
            is_balanced_text(s.spec_bytes()) <==> r.is_ok(),
            r matches Ok(t) ==> t@ == pad_left(
                s.spec_bytes().map_values(|b: u8| byte_digit(b)),
                SIZE as nat,
            ),
    {
        match Ternary::try_parse(s) {
            Ok(t) => Ok(Tryte::from_ternary(&t)),
            Err(e) => Err(e),
        }
    }

    /// Reads a balanced ternary text of at most `SIZE` bytes into a right-aligned
    /// tryte; bytes other than `+` and `-` read as `Zero`.
    pub fn parse(s: &str) -> (t: Tryte<SIZE>)
        requires
            SIZE <= 40,
            s.spec_bytes().len() <= SIZE,
        ensures
            t@ == pad_left(s.spec_bytes().map_values(|b: u8| byte_digit(b)), SIZE as nat),
    {
        Tryte::from_ternary(&Ternary::parse(s))
    }
}

/// `3^k` as a `u64`, for `k <= 39`.
fn pow3_u64(k: usize) -> (r: u64)
    requires
        k <= 39,
    ensures
        r == pow3(k as nat),
        r <= 0x8000_0000_0000_0000,
{
    proof {
        lemma_pow3_40();
        lemma_pow3_monotone(k as nat, 39);
        assert(pow3(40) == 3 * pow3(39));
    }
    let mut r: u64 = 1;
    let mut i: usize = 0;
    while i < k
        invariant
            i <= k,
            k <= 39,
            r == pow3(i as nat),
            pow3(k as nat) <= 12157665459056928801,
        decreases k - i,
    {
        proof {
            lemma_pow3_monotone((i + 1) as nat, k as nat);
        }
        r = r * 3;
        i += 1;
    }
    r
}

/// `floor(v / p)` for a positive `p`, computed on magnitudes.
fn floor_div(v: i64, p: u64) -> (q: i64)
    requires
        1 <= p <= 0x8000_0000_0000_0000,
        v > i64::MIN,
    ensures
        q == v as int / p as int,
        abs_int(q as int) <= abs_int(v as int),
{
    if v >= 0 {
        let q = (v as u64) / p;
        proof {
            vstd::arithmetic::div_mod::lemma_fundamental_div_mod(v as int, p as int);
            vstd::arithmetic::div_mod::lemma_div_is_ordered_by_denominator(v as int, 1, p as int);
        }
        q as i64
    } else {
        let m = (-v) as u64;
        let q1 = (m + (p - 1)) / p;
        let r1 = (m + (p - 1)) % p;
        proof {
            vstd::arithmetic::div_mod::lemma_fundamental_div_mod((m + (p - 1)) as int, p as int);
            assert(m + p - 1 == p * q1 + r1);
            assert((-(q1 as int)) * p == -(q1 * p)) by (nonlinear_arith);
            assert(q1 * p == p * q1) by (nonlinear_arith);
            vstd::arithmetic::div_mod::lemma_fundamental_div_mod_converse(
                v as int,
                p as int,
                -(q1 as int),
                (p - 1 - r1) as int,
            );
            if q1 > m {
                assert(q1 * p >= (m + 1) * p) by (nonlinear_arith)
                    requires
                        q1 >= m + 1,
                        p >= 1,
                ;
                assert((m + 1) * p >= m + p) by (nonlinear_arith)
                    requires
                        p >= 1,
                ;
            }
        }
        -(q1 as i64)
    }
}

impl<const SIZE: usize> Tryte<SIZE> {
    /// Applies `f` to every digit.
    pub fn each<F: Fn(Digit) -> Digit>(&self, f: F) -> (t: Tryte<SIZE>)
        requires
            forall|i: int| 0 <= i < self@.len() ==> f.requires((self@[i],)),
        ensures
            t@.len() == self@.len(),
            forall|i: int| 0 <= i < self@.len() ==> f.ensures((self@[i],), t@[i]),
    {
        proof {
            use_type_invariant(self);
        }
        let mut raw = self.raw;
        let mut i: usize = 0;
        assert(self@ == self.raw@);
        while i < SIZE
            invariant
                i <= SIZE,
                raw@.len() == SIZE,
                self.raw@.len() == SIZE,
                forall|j: int| 0 <= j < SIZE ==> f.requires((self.raw@[j],)),
                forall|j: int| 0 <= j < i ==> f.ensures((self.raw@[j],), raw@[j]),
            decreases SIZE - i,
        {
            let d = f(self.raw[i]);
            raw[i] = d;
            i += 1;
        }
        Tryte { raw }
    }

    /// Applies `f` to every digit together with the fixed digit `with`.
    pub fn each_with<F: Fn(Digit, Digit) -> Digit>(&self, f: F, with: Digit) -> (t: Tryte<SIZE>)
        requires
            forall|i: int| 0 <= i < self@.len() ==> f.requires((self@[i], with)),
        ensures
            t@.len() == self@.len(),
            forall|i: int| 0 <= i < self@.len() ==> f.ensures((self@[i], with), t@[i]),
    {
        proof {
            use_type_invariant(self);
        }
        let mut raw = self.raw;
        let mut i: usize = 0;
        assert(self@ == self.raw@);
        while i < SIZE
            invariant
                i <= SIZE,
                raw@.len() == SIZE,
                self.raw@.len() == SIZE,
                forall|j: int| 0 <= j < SIZE ==> f.requires((self.raw@[j], with)),
                forall|j: int| 0 <= j < i ==> f.ensures((self.raw@[j], with), raw@[j]),
            decreases SIZE - i,
        {
            let d = f(self.raw[i], with);
            raw[i] = d;
            i += 1;
        }
        Tryte { raw }
    }

    /// Applies `f` to the digits of the two trytes position by position.
    pub fn each_zip<F: Fn(Digit, Digit) -> Digit>(&self, f: F, other: Tryte<SIZE>) -> (t: Tryte<
        SIZE,
    >)
        requires
            forall|i: int| 0 <= i < self@.len() ==> f.requires((self@[i], other@[i])),
        ensures
            t@.len() == self@.len(),
            forall|i: int| 0 <= i < self@.len() ==> f.ensures((self@[i], other@[i]), t@[i]),
    {
        proof {
            use_type_invariant(self);
            use_type_invariant(other);
        }
        let mut raw = self.raw;
        let mut i: usize = 0;
        assert(self@ == self.raw@ && other@ == other.raw@);
        while i < SIZE
            invariant
                i <= SIZE,
                raw@.len() == SIZE,
                self.raw@.len() == SIZE,
                other.raw@.len() == SIZE,
                forall|j: int| 0 <= j < SIZE ==> f.requires((self.raw@[j], other.raw@[j])),
                forall|j: int| 0 <= j < i ==> f.ensures((self.raw@[j], other.raw@[j]), raw@[j]),
            decreases SIZE - i,
        {
            let d = f(self.raw[i], other.raw[i]);
            raw[i] = d;
            i += 1;
        }
        Tryte { raw }
    }

    /// Applies `f` to the digit pairs from the least significant to the most
    /// significant, threading a carry that starts at `Zero`; `f` returns the next
    /// carry and the result digit.
    pub fn each_zip_carry<F: Fn(Digit, Digit, Digit) -> (Digit, Digit)>(
        &self,
        f: F,
        other: Tryte<SIZE>,
    ) -> (t: Tryte<SIZE>)
        requires
            forall|i: int, c: Digit| 0 <= i < self@.len() ==> f.requires((self@[i], other@[i], c)),
        ensures
            t@.len() == self@.len(),
            exists|carries: Seq<Digit>|
                {
                    &&& carries.len() == t@.len() + 1
                    &&& carries[t@.len() as int] == Digit::Zero
                    &&& forall|i: int|
                        0 <= i < t@.len() ==> f.ensures(
                            (self@[i], other@[i], #[trigger] carries[i + 1]),
                            (carries[i], t@[i]),
                        )
                },
    {
        proof {
            use_type_invariant(self);
            use_type_invariant(other);
        }
        let mut raw = self.raw;
        assert(self@ == self.raw@ && other@ == other.raw@);
        let mut carry = Digit::Zero;
        let ghost mut carries: Seq<Digit> = Seq::new((SIZE + 1) as nat, |j: int| Digit::Zero);
        let mut i: usize = SIZE;
        while i > 0
            invariant
                i <= SIZE,
                raw@.len() == SIZE,
                self.raw@.len() == SIZE,
                other.raw@.len() == SIZE,
                carries.len() == SIZE + 1,
                carries[SIZE as int] == Digit::Zero,
                carries[i as int] == carry,
                forall|j: int, c: Digit| 0 <= j < SIZE ==> f.requires((self.raw@[j], other.raw@[j], c)),
                forall|j: int|
                    i <= j < SIZE ==> f.ensures(
                        (self.raw@[j], other.raw@[j], #[trigger] carries[j + 1]),
                        (carries[j], raw@[j]),
                    ),
            decreases i,
        {
            i -= 1;
            let (c, res) = f(self.raw[i], other.raw[i], carry);
            raw[i] = res;
            proof {
                carries = carries.update(i as int, c);
            }
            carry = c;
        }
        let t = Tryte { raw };
        assert(t@ == raw@);
        t
    }

    /// The digit at `index`, counted from the right; `None` past the last digit.
    pub fn digit(&self, index: usize) -> (d: Option<Digit>)
        ensures
            index < self@.len() ==> d == Some(self@[self@.len() - 1 - index]),
            index >= self@.len() ==> d.is_none(),
    {
        proof {
            use_type_invariant(self);
        }
        if index >= SIZE {
            None
        } else {
            Some(self.raw[SIZE - 1 - index])
        }
    }

    /// Every digit one step up the cycle `Neg → Zero → Pos → Neg`.
    pub fn shu_up(self) -> (t: Tryte<SIZE>)
        ensures
            t@ == self@.map_values(|d: Digit| d.post()),
    {
        let t = self.each(Digit::post);
        assert(t@ =~= self@.map_values(|d: Digit| d.post()));
        t
    }

    /// Every digit one step down the cycle: the inverse of `shu_up`.
    pub fn shu_down(self) -> (t: Tryte<SIZE>)
        ensures
            t@ == self@.map_values(|d: Digit| d.pre()),
    {
        let t = self.each(Digit::pre);
        assert(t@ =~= self@.map_values(|d: Digit| d.pre()));
        t
    }

    /// Tritwise consensus.
    pub fn consensus(self, other: Tryte<SIZE>) -> (t: Tryte<SIZE>)
        ensures
            t@.len() == self@.len(),
            forall|i: int| 0 <= i < self@.len() ==> t@[i] == self@[i].consensus(other@[i]),
    {
        self.each_zip(Digit::consensus, other)
    }

    /// Tritwise accept-anything.
    pub fn accept_anything(self, other: Tryte<SIZE>) -> (t: Tryte<SIZE>)
        ensures
            t@.len() == self@.len(),
            forall|i: int| 0 <= i < self@.len() ==> t@[i] == self@[i].accept_anything(other@[i]),
    {
        self.each_zip(Digit::accept_anything, other)
    }

    /// Every digit clamped toward negative.
    pub fn clamp_down(self) -> (t: Tryte<SIZE>)
        ensures
            t@ == self@.map_values(|d: Digit| d.clamp_down()),
    {
        let t = self.each(Digit::clamp_down);
        assert(t@ =~= self@.map_values(|d: Digit| d.clamp_down()));
        t
    }

    /// Every digit clamped toward positive.
    pub fn clamp_up(self) -> (t: Tryte<SIZE>)
        ensures
            t@ == self@.map_values(|d: Digit| d.clamp_up()),
    {
        let t = self.each(Digit::clamp_up);
        assert(t@ =~= self@.map_values(|d: Digit| d.clamp_up()));
        t
    }

    /// The largest value of the type, `(3^SIZE - 1) / 2`.
    fn max_i64() -> (r: i64)
        requires
            SIZE <= 40,
        ensures
            r == max_value(SIZE as nat),
            0 <= r <= 6078832729528464400,
    {
        proof {
            lemma_bound_fits(SIZE as nat);
            lemma_pow3_pos(SIZE as nat);
        }
        let mut v: i64 = 0;
        let mut i: usize = 0;
        while i < SIZE
            invariant
                i <= SIZE,
                SIZE <= 40,
                v == max_value(i as nat),
                max_value(SIZE as nat) <= 6078832729528464400,
            decreases SIZE - i,
        {
            proof {
                lemma_pow3_pos(i as nat);
                lemma_pow3_odd(i as nat);
                lemma_pow3_monotone((i + 1) as nat, SIZE as nat);
                lemma_pow3_odd(SIZE as nat);
                lemma_pow3_odd((i + 1) as nat);
                assert(pow3((i + 1) as nat) == 3 * pow3(i as nat));
                assert(max_value((i + 1) as nat) == 3 * v + 1);
                assert(max_value((i + 1) as nat) <= max_value(SIZE as nat));
            }
            v = v * 3 + 1;
            i += 1;
        }
        v
    }

    /// Arithmetic right shift: `floor(self / 3^rhs)`, rounding toward negative
    /// infinity; unchanged for `rhs == 0`.
    pub fn shr_signed(self, rhs: usize) -> (t: Tryte<SIZE>)
        ensures
            value(t@) == value(self@) / pow3(rhs as nat),
            rhs == 0 ==> t@ == self@,
    {
        proof {
            use_type_invariant(self);
            lemma_pow3_pos(rhs as nat);
            assert(pow3(0) == 1);
        }
        if rhs == 0 {
            return self;
        }
        let v = self.to_i64();
        proof {
            lemma_value_bound(self@);
            lemma_bound_fits(SIZE as nat);
        }
        if rhs >= SIZE {
            proof {
                lemma_pow3_monotone(SIZE as nat, rhs as nat);
            }
            if v < 0 {
                proof {
                    vstd::arithmetic::div_mod::lemma_fundamental_div_mod_converse(
                        v as int,
                        pow3(rhs as nat),
                        -1,
                        v + pow3(rhs as nat),
                    );
                    lemma_pow3_monotone(0, SIZE as nat);
                    lemma_wrap_in_range(-1, SIZE as nat);
                }
                return Self::from_i64(-1);
            } else {
                proof {
                    vstd::arithmetic::div_mod::lemma_fundamental_div_mod_converse(
                        v as int,
                        pow3(rhs as nat),
                        0,
                        v as int,
                    );
                }
                return Self::zero();
            }
        }
        let p = pow3_u64(rhs);
        let q = floor_div(v, p);
        proof {
            lemma_wrap_in_range(q as int, SIZE as nat);
        }
        Self::from_i64(q)
    }

    /// The sum, or `None` when it does not fit `SIZE` digits.
    pub fn checked_add(self, rhs: Tryte<SIZE>) -> (r: Option<Tryte<SIZE>>)
        requires
            i64::MIN <= value(self@) + value(rhs@) <= i64::MAX,
        ensures
            2 * abs_int(value(self@) + value(rhs@)) < pow3(SIZE as nat) <==> r.is_some(),
            r matches Some(t) ==> value(t@) == value(self@) + value(rhs@),
    {
        proof {
            use_type_invariant(self);
            lemma_pow3_odd(SIZE as nat);
        }
        let result = self.to_i64() + rhs.to_i64();
        let max = Self::max_i64();
        if result >= -max && result <= max {
            proof {
                lemma_wrap_in_range(result as int, SIZE as nat);
            }
            Some(Self::from_i64(result))
        } else {
            None
        }
    }

    /// The difference, or `None` when it does not fit `SIZE` digits.
    pub fn checked_sub(self, rhs: Tryte<SIZE>) -> (r: Option<Tryte<SIZE>>)
        requires
            i64::MIN <= value(self@) - value(rhs@) <= i64::MAX,
        ensures
            2 * abs_int(value(self@) - value(rhs@)) < pow3(SIZE as nat) <==> r.is_some(),
            r matches Some(t) ==> value(t@) == value(self@) - value(rhs@),
    {
        proof {
            use_type_invariant(self);
            lemma_pow3_odd(SIZE as nat);
        }
        let result = self.to_i64() - rhs.to_i64();
        let max = Self::max_i64();
        if result >= -max && result <= max {
            proof {
                lemma_wrap_in_range(result as int, SIZE as nat);
            }
            Some(Self::from_i64(result))
        } else {
            None
        }
    }

    /// The product, or `None` when it does not fit `SIZE` digits.
    pub fn checked_mul(self, rhs: Tryte<SIZE>) -> (r: Option<Tryte<SIZE>>)
        requires
            i64::MIN <= value(self@) * value(rhs@) <= i64::MAX,
        ensures
            2 * abs_int(value(self@) * value(rhs@)) < pow3(SIZE as nat) <==> r.is_some(),
            r matches Some(t) ==> value(t@) == value(self@) * value(rhs@),
    {
        proof {
            use_type_invariant(self);
            lemma_pow3_odd(SIZE as nat);
        }
        let result = self.to_i64() * rhs.to_i64();
        let max = Self::max_i64();
        if result >= -max && result <= max {
            proof {
                lemma_wrap_in_range(result as int, SIZE as nat);
            }
            Some(Self::from_i64(result))
        } else {
            None
        }
    }

    /// The sum clamped to the range of the type.
    pub fn saturating_add(self, rhs: Tryte<SIZE>) -> (t: Tryte<SIZE>)
        requires
            i64::MIN <= value(self@) + value(rhs@) <= i64::MAX,
        ensures
            value(t@) == clamp(value(self@) + value(rhs@), max_value(SIZE as nat)),
    {
        proof {
            use_type_invariant(self);
            lemma_pow3_odd(SIZE as nat);
        }
        let result = self.to_i64() + rhs.to_i64();
        let max = Self::max_i64();
        if result > max {
            Self::maximum()
        } else if result < -max {
            Self::minimum()
        } else {
            proof {
                lemma_wrap_in_range(result as int, SIZE as nat);
            }
            Self::from_i64(result)
        }
    }

    /// The difference clamped to the range of the type.
    pub fn saturating_sub(self, rhs: Tryte<SIZE>) -> (t: Tryte<SIZE>)
        requires
            i64::MIN <= value(self@) - value(rhs@) <= i64::MAX,
        ensures
            value(t@) == clamp(value(self@) - value(rhs@), max_value(SIZE as nat)),
    {
        proof {
            use_type_invariant(self);
            lemma_pow3_odd(SIZE as nat);
        }
        let result = self.to_i64() - rhs.to_i64();
        let max = Self::max_i64();
        if result > max {
            Self::maximum()
        } else if result < -max {
            Self::minimum()
        } else {
            proof {
                lemma_wrap_in_range(result as int, SIZE as nat);
            }
            Self::from_i64(result)
        }
    }

    /// The product clamped to the range of the type.
    pub fn saturating_mul(self, rhs: Tryte<SIZE>) -> (t: Tryte<SIZE>)
        requires
            i64::MIN <= value(self@) * value(rhs@) <= i64::MAX,
        ensures
            value(t@) == clamp(value(self@) * value(rhs@), max_value(SIZE as nat)),
    {
        proof {
            use_type_invariant(self);
            lemma_pow3_odd(SIZE as nat);
        }
        let result = self.to_i64() * rhs.to_i64();
        let max = Self::max_i64();
        if result > max {
            Self::maximum()
        } else if result < -max {
            Self::minimum()
        } else {
            proof {
                lemma_wrap_in_range(result as int, SIZE as nat);
            }
            Self::from_i64(result)
        }
    }
}

impl<const SIZE: usize> Neg for Tryte<SIZE> {
    type Output = Tryte<SIZE>;

    /// Every digit negated: the opposite value.
    fn neg(self) -> (t: Tryte<SIZE>)
        ensures
            t@ == negate_seq(self@),
            value(t@) == -value(self@),
    {
        proof {
            use_type_invariant(self);
        }
        let mut raw = self.raw;
        let mut i: usize = 0;
        while i < SIZE
            invariant
                i <= SIZE,
                raw@.len() == SIZE,
                self.raw@.len() == SIZE,
                forall|j: int| 0 <= j < i ==> raw@[j] == self.raw@[j].negated(),
                forall|j: int| i <= j < SIZE ==> raw@[j] == self.raw@[j],
            decreases SIZE - i,
        {
            let d = raw[i].neg();
            raw[i] = d;
            i += 1;
        }
        assert(raw@ =~= negate_seq(self.raw@));
        proof {
            crate::model::lemma_value_negate(self.raw@);
        }
        Tryte { raw }
    }
}

impl<const SIZE: usize> vstd::std_specs::ops::NegSpecImpl for Tryte<SIZE> {
    open spec fn obeys_neg_spec() -> bool {
        false
    }

    open spec fn neg_req(self) -> bool {
        true
    }

    open spec fn neg_spec(self) -> Tryte<SIZE> {
        arbitrary()
    }
}

impl<const SIZE: usize> Not for Tryte<SIZE> {
    type Output = Tryte<SIZE>;

    /// Kleene negation of every digit: the same as `-self`.
    fn not(self) -> (t: Tryte<SIZE>)
        ensures
            t@ == negate_seq(self@),
            value(t@) == -value(self@),
    {
        self.neg()
    }
}

impl<const SIZE: usize> vstd::std_specs::ops::NotSpecImpl for Tryte<SIZE> {
    open spec fn obeys_not_spec() -> bool {
        false
    }

    open spec fn not_req(self) -> bool {
        true
    }

    open spec fn not_spec(self) -> Tryte<SIZE> {
        arbitrary()
    }
}

impl<const SIZE: usize> Add for Tryte<SIZE> {
    type Output = Tryte<SIZE>;

    /// The sum, wrapped into `SIZE` digits.
    fn add(self, rhs: Tryte<SIZE>) -> (t: Tryte<SIZE>)
        ensures
            value(t@) == wrap(value(self@) + value(rhs@), SIZE as nat),
    {
        proof {
            use_type_invariant(self);
        }
        Self::from_i64(self.to_i64() + rhs.to_i64())
    }
}

impl<const SIZE: usize> vstd::std_specs::ops::AddSpecImpl for Tryte<SIZE> {
    open spec fn obeys_add_spec() -> bool {
        false
    }

    open spec fn add_req(self, rhs: Tryte<SIZE>) -> bool {
        i64::MIN <= value(self@) + value(rhs@) <= i64::MAX
    }

    open spec fn add_spec(self, rhs: Tryte<SIZE>) -> Tryte<SIZE> {
        arbitrary()
    }
}

impl<const SIZE: usize> Sub for Tryte<SIZE> {
    type Output = Tryte<SIZE>;

    /// The difference, wrapped into `SIZE` digits.
    fn sub(self, rhs: Tryte<SIZE>) -> (t: Tryte<SIZE>)
        ensures
            value(t@) == wrap(value(self@) - value(rhs@), SIZE as nat),
    {
        proof {
            use_type_invariant(self);
        }
        Self::from_i64(self.to_i64() - rhs.to_i64())
    }
}

impl<const SIZE: usize> vstd::std_specs::ops::SubSpecImpl for Tryte<SIZE> {
    open spec fn obeys_sub_spec() -> bool {
        false
    }

    open spec fn sub_req(self, rhs: Tryte<SIZE>) -> bool {
        i64::MIN <= value(self@) - value(rhs@) <= i64::MAX
    }

    open spec fn sub_spec(self, rhs: Tryte<SIZE>) -> Tryte<SIZE> {
        arbitrary()
    }
}

impl<const SIZE: usize> Mul for Tryte<SIZE> {
    type Output = Tryte<SIZE>;

    /// The product, wrapped into `SIZE` digits.
    fn mul(self, rhs: Tryte<SIZE>) -> (t: Tryte<SIZE>)
        ensures
            value(t@) == wrap(value(self@) * value(rhs@), SIZE as nat),
    {
        proof {
            use_type_invariant(self);
        }
        Self::from_i64(self.to_i64() * rhs.to_i64())
    }
}

impl<const SIZE: usize> vstd::std_specs::ops::MulSpecImpl for Tryte<SIZE> {
    open spec fn obeys_mul_spec() -> bool {
        false
    }

    open spec fn mul_req(self, rhs: Tryte<SIZE>) -> bool {
        i64::MIN <= value(self@) * value(rhs@) <= i64::MAX
    }

    open spec fn mul_spec(self, rhs: Tryte<SIZE>) -> Tryte<SIZE> {
        arbitrary()
    }
}

impl<const SIZE: usize> Div for Tryte<SIZE> {
    type Output = Tryte<SIZE>;

    /// The quotient rounded toward zero; the divisor must not be zero.
    fn div(self, rhs: Tryte<SIZE>) -> (t: Tryte<SIZE>)
        ensures
            value(t@) == trunc_div(value(self@), value(rhs@)),
    {
        proof {
            use_type_invariant(self);
            lemma_bound_fits(SIZE as nat);
            lemma_value_bound(self@);
            lemma_value_bound(rhs@);
        }
        let x = self.to_i64();
        let y = rhs.to_i64();
        let mx = magnitude(x);
        let my = magnitude(y);
        let q = mx / my;
        proof {
            vstd::arithmetic::div_mod::lemma_div_is_ordered_by_denominator(mx as int, 1, my as int);
        }
        let qi = q as i64;
        let r = if (x < 0) == (y < 0) {
            qi
        } else {
            -qi
        };
        proof {
            lemma_wrap_in_range(r as int, SIZE as nat);
        }
        Self::from_i64(r)
    }
}

impl<const SIZE: usize> vstd::std_specs::ops::DivSpecImpl for Tryte<SIZE> {
    open spec fn obeys_div_spec() -> bool {
        false
    }

    open spec fn div_req(self, rhs: Tryte<SIZE>) -> bool {
        value(rhs@) != 0
    }

    open spec fn div_spec(self, rhs: Tryte<SIZE>) -> Tryte<SIZE> {
        arbitrary()
    }
}

impl<const SIZE: usize> BitAnd for Tryte<SIZE> {
    type Output = Tryte<SIZE>;

    /// Digitwise Kleene conjunction (the smaller digit).
    fn bitand(self, rhs: Tryte<SIZE>) -> (t: Tryte<SIZE>)
        ensures
            t@.len() == self@.len(),
            forall|i: int| 0 <= i < self@.len() ==> t@[i] == self@[i].min_digit(rhs@[i]),
    {
        self.each_zip(Digit::bitand, rhs)
    }
}

impl<const SIZE: usize> vstd::std_specs::ops::BitAndSpecImpl for Tryte<SIZE> {
    open spec fn obeys_bitand_spec() -> bool {
        false
    }

    open spec fn bitand_req(self, rhs: Tryte<SIZE>) -> bool {
        true
    }

    open spec fn bitand_spec(self, rhs: Tryte<SIZE>) -> Tryte<SIZE> {
        arbitrary()
    }
}

impl<const SIZE: usize> BitOr for Tryte<SIZE> {
    type Output = Tryte<SIZE>;

    /// Digitwise Kleene disjunction (the larger digit).
    fn bitor(self, rhs: Tryte<SIZE>) -> (t: Tryte<SIZE>)
        ensures
            t@.len() == self@.len(),
            forall|i: int| 0 <= i < self@.len() ==> t@[i] == self@[i].max_digit(rhs@[i]),
    {
        self.each_zip(Digit::bitor, rhs)
    }
}

impl<const SIZE: usize> vstd::std_specs::ops::BitOrSpecImpl for Tryte<SIZE> {
    open spec fn obeys_bitor_spec() -> bool {
        false
    }

    open spec fn bitor_req(self, rhs: Tryte<SIZE>) -> bool {
        true
    }

    open spec fn bitor_spec(self, rhs: Tryte<SIZE>) -> Tryte<SIZE> {
        arbitrary()
    }
}

impl<const SIZE: usize> BitXor for Tryte<SIZE> {
    type Output = Tryte<SIZE>;

    /// Digitwise Kleene exclusive or (the negated product).
    fn bitxor(self, rhs: Tryte<SIZE>) -> (t: Tryte<SIZE>)
        ensures
            t@.len() == self@.len(),
            forall|i: int|
                0 <= i < self@.len() ==> t@[i] == digit_of(-(self@[i].val() * rhs@[i].val())),
    {
        self.each_zip(Digit::bitxor, rhs)
    }
}

impl<const SIZE: usize> vstd::std_specs::ops::BitXorSpecImpl for Tryte<SIZE> {
    open spec fn obeys_bitxor_spec() -> bool {
        false
    }

    open spec fn bitxor_req(self, rhs: Tryte<SIZE>) -> bool {
        true
    }

    open spec fn bitxor_spec(self, rhs: Tryte<SIZE>) -> Tryte<SIZE> {
        arbitrary()
    }
}

impl<const SIZE: usize> Shl<usize> for Tryte<SIZE> {
    type Output = Tryte<SIZE>;

    /// Digits moved `rhs` places toward the most significant end, zeros filling
    /// the vacated low places; all zeros once `rhs >= SIZE`.
    fn shl(self, rhs: usize) -> (t: Tryte<SIZE>)
        ensures
            rhs < self@.len() ==> t@ == self@.skip(rhs as int) + zeros(rhs as nat),
            rhs >= self@.len() ==> t@ == zeros(self@.len()),
    {
        proof {
            use_type_invariant(self);
        }
        let mut raw = [Digit::Zero; SIZE];
        if rhs >= SIZE {
            assert(raw@ =~= zeros(SIZE as nat));
            return Tryte { raw };
        }
        let n = SIZE - rhs;
        let mut i: usize = 0;
        while i < n
            invariant
                i <= n,
                n == SIZE - rhs,
                raw@.len() == SIZE,
                self.raw@.len() == SIZE,
                forall|j: int| 0 <= j < i ==> raw@[j] == self.raw@[j + rhs],
                forall|j: int| i <= j < SIZE ==> raw@[j] == Digit::Zero,
            decreases n - i,
        {
            raw[i] = self.raw[i + rhs];
            i += 1;
        }
        assert(raw@ =~= self.raw@.skip(rhs as int) + zeros(rhs as nat));
        Tryte { raw }
    }
}

impl<const SIZE: usize> vstd::std_specs::ops::ShlSpecImpl<usize> for Tryte<SIZE> {
    open spec fn obeys_shl_spec() -> bool {
        false
    }

    open spec fn shl_req(self, rhs: usize) -> bool {
        true
    }

    open spec fn shl_spec(self, rhs: usize) -> Tryte<SIZE> {
        arbitrary()
    }
}

impl<const SIZE: usize> Shr<usize> for Tryte<SIZE> {
    type Output = Tryte<SIZE>;

    /// Digits moved `rhs` places toward the least significant end, zeros filling
    /// the vacated high places; all zeros once `rhs >= SIZE`.
    fn shr(self, rhs: usize) -> (t: Tryte<SIZE>)
        ensures
            rhs < self@.len() ==> t@ == zeros(rhs as nat) + self@.take(self@.len() - rhs),
            rhs >= self@.len() ==> t@ == zeros(self@.len()),
    {
        proof {
            use_type_invariant(self);
        }
        let mut raw = [Digit::Zero; SIZE];
        if rhs >= SIZE {
            assert(raw@ =~= zeros(SIZE as nat));
            return Tryte { raw };
        }
        let n = SIZE - rhs;
        let mut i: usize = 0;
        while i < n
            invariant
                i <= n,
                n == SIZE - rhs,
                raw@.len() == SIZE,
                self.raw@.len() == SIZE,
                forall|j: int| 0 <= j < rhs ==> raw@[j] == Digit::Zero,
                forall|j: int| rhs <= j < rhs + i ==> raw@[j] == self.raw@[j - rhs],
                forall|j: int| rhs + i <= j < SIZE ==> raw@[j] == Digit::Zero,
            decreases n - i,
        {
            raw[rhs + i] = self.raw[i];
            i += 1;
        }
        assert(raw@ =~= zeros(rhs as nat) + self.raw@.take(SIZE - rhs));
        Tryte { raw }
    }
}

impl<const SIZE: usize> vstd::std_specs::ops::ShrSpecImpl<usize> for Tryte<SIZE> {
    open spec fn obeys_shr_spec() -> bool {
        false
    }

    open spec fn shr_req(self, rhs: usize) -> bool {
        true
    }

    open spec fn shr_spec(self, rhs: usize) -> Tryte<SIZE> {
        arbitrary()
    }
}

/// A six-digit tryte from a text of at most six `+`, `0` and `-`, right-aligned.
pub fn tryte(from: &str) -> (t: Tryte<6>)
    requires
        from.spec_bytes().len() <= 6,
        is_balanced_text(from.spec_bytes()),
    ensures
        t@ == pad_left(
            from.spec_bytes().take(
                if from.spec_bytes().len() < 6 { from.spec_bytes().len() as int } else { 6 },
            ).map_values(|b: u8| byte_digit(b)),
            6,
        ),
{
    let bytes = from.as_bytes();
    let n: usize = if bytes.len() < 6 {
        bytes.len()
    } else {
        6
    };
    let ghost src = bytes@.take(n as int).map_values(|b: u8| byte_digit(b));
    let ghost target = pad_left(src, 6);
    let offset = 6 - n;
    let mut raw = [Digit::Zero; 6];
    let mut j: usize = 0;
    while j < n
        invariant
            j <= n,
            n <= 6,
            n <= bytes@.len(),
            offset == 6 - n,
            bytes@ == from.spec_bytes(),
            src == bytes@.take(n as int).map_values(|b: u8| byte_digit(b)),
            target == pad_left(src, 6),
            raw@.len() == 6,
            forall|k: int| 0 <= k < offset ==> raw@[k] == Digit::Zero,
            forall|k: int| offset <= k < offset + j ==> raw@[k] == target[k],
            forall|k: int| offset + j <= k < 6 ==> raw@[k] == Digit::Zero,
        decreases n - j,
    {
        let b = bytes[j];
        let d = if b == 43u8 {
            Digit::Pos
        } else if b == 45u8 {
            Digit::Neg
        } else {
            Digit::Zero
        };
        raw[offset + j] = d;
        j += 1;
    }
    assert(raw@ =~= target);
    Tryte::new(raw)
}

/// The balanced residue of `v` modulo 3: -1, 0 or 1.
pub open spec fn residue3(v: int) -> int {
    let r = v % 3;
    if r == 2 {
        -1
    } else {
        r
    }
}

/// The low `n` balanced digits of `v`, most significant first.
pub open spec fn fixed_digits(v: int, n: nat) -> Seq<Digit>
    decreases n,
{
    if n == 0 {
        Seq::empty()
    } else {
        fixed_digits((v - residue3(v)) / 3, (n - 1) as nat).push(digit_of(residue3(v)))
    }
}

/// The low `n` balanced digits of `v` are worth `v` wrapped into `n` digits.
pub proof fn lemma_fixed_digits(v: int, n: nat)
    ensures
        fixed_digits(v, n).len() == n,
        value(fixed_digits(v, n)) == wrap(v, n),
    decreases n,
{
    lemma_pow3_pos(n);
    lemma_pow3_odd(n);
    if n == 0 {
        assert(fixed_digits(v, 0) =~= Seq::<Digit>::empty());
        assert(pow3(0) == 1);
    } else {
        let m = (n - 1) as nat;
        let r = residue3(v);
        let q = (v - r) / 3;
        assert(v == 3 * q + r);
        lemma_fixed_digits(q, m);
        lemma_pow3_pos(m);
        lemma_pow3_odd(m);
        let pm = pow3(m);
        let mm = max_value(m);
        assert(2 * mm == pm - 1);
        let w = wrap(q, m);
        let d = (q + mm) / pm;
        vstd::arithmetic::div_mod::lemma_fundamental_div_mod(q + mm, pm);
        assert(q + mm == pm * d + (q + mm) % pm);
        assert(w == q - pm * d);
        let s = fixed_digits(v, n);
        assert(s.drop_last() =~= fixed_digits(q, m));
        assert(value(s) == 3 * w + r);
        assert(pow3(n) == 3 * pm);
        assert(3 * (pm * d) == pow3(n) * d) by (nonlinear_arith)
            requires
                pow3(n) == 3 * pm,
        ;
        let x = pm * d;
        assert(w == q - x);
        assert(3 * x == pow3(n) * d);
        assert(d * pow3(n) == pow3(n) * d) by (nonlinear_arith);
        assert(v == d * pow3(n) + (3 * w + r));
        lemma_wrap_unique(v, d, 3 * w + r, n);
    }
}

/// The value of `n` copies of one digit.
pub proof fn lemma_value_all(d: Digit, n: nat)
    requires
        d != Digit::Zero,
    ensures
        value(Seq::new(n, |i: int| d)) == d.val() * max_value(n),
    decreases n,
{
    lemma_pow3_odd(n);
    if n > 0 {
        assert(Seq::new(n, |i: int| d).drop_last() =~= Seq::new((n - 1) as nat, |i: int| d));
        lemma_value_all(d, (n - 1) as nat);
        lemma_pow3_odd((n - 1) as nat);
        let m1 = max_value((n - 1) as nat);
        assert(2 * m1 == pow3((n - 1) as nat) - 1);
        assert(pow3(n) == 3 * pow3((n - 1) as nat));
        assert(max_value(n) == 3 * m1 + 1);
        assert(d.val() * m1 * 3 + d.val() == d.val() * (3 * m1 + 1)) by (nonlinear_arith);
    } else {
        assert(max_value(0) == 0);
    }
}

impl<const SIZE: usize> std::str::FromStr for Tryte<SIZE> {
    type Err = ParseTernaryError;

    /// Parses `+`, `0` and `-`, right-aligned into the `SIZE` trits; text
    /// longer than `SIZE` is refused like a bad character.
    fn from_str(s: &str) -> (r: Result<Tryte<SIZE>, ParseTernaryError>)
        ensures
            (SIZE <= 40 && s.spec_bytes().len() <= SIZE && is_balanced_text(s.spec_bytes()))
                <==> r.is_ok(),
            r matches Ok(t) ==> t@ == pad_left(
                s.spec_bytes().map_values(|b: u8| byte_digit(b)),
                SIZE as nat,
            ),
    {
        if SIZE > 40 || s.as_bytes().len() > SIZE {
            return Err(ParseTernaryError);
        }
        Tryte::try_parse(s)
    }
}

/// Shifting a tryte left then right by `n` places restores it when its `n`
/// most significant trits are zero.
pub proof fn lemma_tryte_shl_shr_roundtrip(s: Seq<Digit>, n: nat)
    requires
        n < s.len(),
        forall|i: int| 0 <= i < n ==> s[i] == Digit::Zero,
    ensures
        zeros(n) + (s.skip(n as int) + zeros(n)).take(s.len() - n) == s,
{
    assert(zeros(n) + (s.skip(n as int) + zeros(n)).take(s.len() - n) =~= s);
}

} // verus!
