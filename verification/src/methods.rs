//! Sign, rounding shifts and tritwise maps on `Ternary`.
use vstd::prelude::*;
use std::ops::{Neg, Sub};
use crate::digit::Digit;
use crate::model::{
    abs_int, first_nonzero, is_trimmed, lemma_first_nonzero_skip, lemma_pow3_monotone,
    lemma_pow3_pos, lemma_value_bound, lemma_value_concat, lemma_value_negate, lemma_value_sign,
    lemma_value_single, negate_seq, pow3, sign, value,
    lemma_value_leading_zeros,
};
use crate::ternary::{Ternary, max_len, pad_left};

verus! {

/// When two digit sequences of one length agree before index `i` and differ at
/// `i`, the one with the smaller digit there has the smaller value: the
/// lexicographic order of equal-length balanced ternary numbers is their
/// numerical order.
pub proof fn lemma_first_difference(a: Seq<Digit>, b: Seq<Digit>, i: int)
    requires
        a.len() == b.len(),
        0 <= i < a.len(),
        a.take(i) == b.take(i),
        a[i].val() < b[i].val(),
    ensures
        value(a) < value(b),
{
    let n = a.len();
    let ha = a.take(i + 1);
    let hb = b.take(i + 1);
    let ra = a.skip(i + 1);
    let rb = b.skip(i + 1);
    assert(a =~= ha + ra);
    assert(b =~= hb + rb);
    lemma_value_concat(ha, ra);
    lemma_value_concat(hb, rb);
    assert(ha.drop_last() =~= a.take(i));
    assert(hb.drop_last() =~= b.take(i));
    assert(value(hb) - value(ha) >= 1);
    lemma_value_bound(ra);
    lemma_value_bound(rb);
    let p = pow3(ra.len());
    assert(rb.len() == ra.len());
    assert(value(hb) * p - value(ha) * p >= p) by (nonlinear_arith)
        requires
            value(hb) - value(ha) >= 1,
            p >= 1,
    ;
}

/// Padding two numbers to one length keeps their values and their agreement.
proof fn lemma_pad_values(a: Seq<Digit>, b: Seq<Digit>)
    ensures
        value(pad_left(a, max_len(a.len(), b.len()))) == value(a),
        value(pad_left(b, max_len(a.len(), b.len()))) == value(b),
        pad_left(a, max_len(a.len(), b.len())).len() == max_len(a.len(), b.len()),
        pad_left(b, max_len(a.len(), b.len())).len() == max_len(a.len(), b.len()),
{
    let n = max_len(a.len(), b.len());
    if a.len() < n {
        crate::model::lemma_value_leading_zeros((n - a.len()) as nat, a);
    }
    if b.len() < n {
        crate::model::lemma_value_leading_zeros((n - b.len()) as nat, b);
    }
}

/// `floor(v / 3^n)` for the value of the whole and its split into a high part
/// and the `n` low digits.
proof fn lemma_floor_split(v: int, hi: int, lo: int, p: int)
    requires
        p >= 1,
        v == hi * p + lo,
        2 * lo <= p - 1,
        2 * lo >= 1 - p,
    ensures
        lo < 0 ==> v / p == hi - 1,
        lo >= 0 ==> v / p == hi,
{
    if lo < 0 {
        assert((hi - 1) * p == hi * p - p) by (nonlinear_arith);
        vstd::arithmetic::div_mod::lemma_fundamental_div_mod_converse(v, p, hi - 1, lo + p);
    } else {
        vstd::arithmetic::div_mod::lemma_fundamental_div_mod_converse(v, p, hi, lo);
    }
}

impl Ternary {
    /// The absolute value: every digit negated when the number is negative.
    pub fn abs(&self) -> (t: Ternary)
        ensures
            value(t@) == abs_int(value(self@)),
            t@ == if first_nonzero(self@) == Digit::Neg { negate_seq(self@) } else { self@ },
    {
        if self.signum() == Digit::Neg {
            self.neg()
        } else {
            self.duplicate()
        }
    }

    /// Arithmetic right shift by `n` digits: `floor(self / 3^n)`, rounding toward
    /// negative infinity. With `n == 0` the number comes back unchanged; otherwise
    /// the result is canonical.
    pub fn shr_signed(&self, n: usize) -> (t: Ternary)
        ensures
            n == 0 ==> t@ == self@,
            n > 0 ==> value(t@) == value(self@) / pow3(n as nat),
            n > 0 ==> is_trimmed(t@),
    {
        if n == 0 {
            return self.duplicate();
        }
        let digits = self.to_digit_slice();
        let len = digits.len();
        proof {
            lemma_pow3_pos(n as nat);
        }
        if n >= len {
            proof {
                lemma_value_bound(self@);
                lemma_pow3_monotone(len as nat, n as nat);
                lemma_value_sign(self@);
            }
            if self.signum() == Digit::Neg {
                proof {
                    vstd::arithmetic::div_mod::lemma_fundamental_div_mod_converse(
                        value(self@),
                        pow3(n as nat),
                        -1,
                        value(self@) + pow3(n as nat),
                    );
                }
                return Ternary::from_dec(-1);
            } else {
                proof {
                    vstd::arithmetic::div_mod::lemma_fundamental_div_mod_converse(
                        value(self@),
                        pow3(n as nat),
                        0,
                        value(self@),
                    );
                }
                return Ternary::from_dec(0);
            }
        }
        let split = len - n;
        let mut high: Vec<Digit> = Vec::new();
        let mut i: usize = 0;
        while i < split
            invariant
                i <= split,
                split <= digits@.len(),
                digits@ == self@,
                high@ == self@.take(i as int),
            decreases split - i,
        {
            high.push(digits[i]);
            i += 1;
            assert(high@ =~= self@.take(i as int));
        }
        let ghost lo = self@.skip(split as int);
        let mut j: usize = split;
        while j < len && digits[j] == Digit::Zero
            invariant
                split <= j <= len,
                len == digits@.len(),
                digits@ == self@,
                forall|k: int| split <= k < j ==> digits@[k] == Digit::Zero,
            decreases len - j,
        {
            j += 1;
        }
        let dropped = if j < len {
            digits[j]
        } else {
            Digit::Zero
        };
        proof {
            assert(self@ =~= self@.take(split as int) + lo);
            lemma_value_concat(self@.take(split as int), lo);
            assert forall|k: int| 0 <= k < j - split implies lo[k] == Digit::Zero by {
                assert(lo[k] == self@[split + k]);
            }
            lemma_first_nonzero_skip(lo, j - split);
            if j < len {
                assert(lo.skip(j - split)[0] == dropped);
            }
            assert(first_nonzero(lo) == dropped);
            lemma_value_sign(lo);
            lemma_value_bound(lo);
            lemma_floor_split(value(self@), value(self@.take(split as int)), value(lo), pow3(n as nat));
        }
        let result = Ternary::new(high);
        if dropped == Digit::Neg {
            let one = Ternary::from_dec(1);
            let diff = (&result).sub(&one);
            diff.trim()
        } else {
            result.trim()
        }
    }

    /// Every digit clamped toward negative: `Pos` becomes `Zero`.
    pub fn clamp_down(&self) -> (t: Ternary)
        ensures
            t@ == self@.map_values(|d: Digit| d.clamp_down()),
    {
        let t = self.each(Digit::clamp_down);
        assert(t@ =~= self@.map_values(|d: Digit| d.clamp_down()));
        t
    }

    /// Every digit clamped toward positive: `Neg` becomes `Zero`.
    pub fn clamp_up(&self) -> (t: Ternary)
        ensures
            t@ == self@.map_values(|d: Digit| d.clamp_up()),
    {
        let t = self.each(Digit::clamp_up);
        assert(t@ =~= self@.map_values(|d: Digit| d.clamp_up()));
        t
    }

    /// Indicator map: `Pos` where the digit is `Neg`, `Neg` elsewhere.
    pub fn map_neg(&self) -> (t: Ternary)
        ensures
            t@ == self@.map_values(|d: Digit| d.is_neg()),
    {
        let t = self.each(Digit::is_neg);
        assert(t@ =~= self@.map_values(|d: Digit| d.is_neg()));
        t
    }

    /// Indicator map: `Pos` where the digit is `Zero`, `Neg` elsewhere.
    pub fn map_zero(&self) -> (t: Ternary)
        ensures
            t@ == self@.map_values(|d: Digit| d.is_zero()),
    {
        let t = self.each(Digit::is_zero);
        assert(t@ =~= self@.map_values(|d: Digit| d.is_zero()));
        t
    }

    /// Indicator map: `Pos` where the digit is `Pos`, `Neg` elsewhere.
    pub fn map_pos(&self) -> (t: Ternary)
        ensures
            t@ == self@.map_values(|d: Digit| d.is_pos()),
    {
        let t = self.each(Digit::is_pos);
        assert(t@ =~= self@.map_values(|d: Digit| d.is_pos()));
        t
    }

    /// Every digit one step up the cycle `Neg → Zero → Pos → Neg`.
    pub fn shu_up(&self) -> (t: Ternary)
        ensures
            t@ == self@.map_values(|d: Digit| d.post()),
    {
        let t = self.each(Digit::post);
        assert(t@ =~= self@.map_values(|d: Digit| d.post()));
        t
    }

    /// Every digit one step down the cycle: the inverse of `shu_up`.
    pub fn shu_down(&self) -> (t: Ternary)
        ensures
            t@ == self@.map_values(|d: Digit| d.pre()),
    {
        let t = self.each(Digit::pre);
        assert(t@ =~= self@.map_values(|d: Digit| d.pre()));
        t
    }

    /// Tritwise consensus, the shorter number left-padded with zeros.
    pub fn consensus(&self, other: &Ternary) -> (t: Ternary)
        ensures
            t@.len() == max_len(self@.len(), other@.len()),
            forall|i: int|
                0 <= i < t@.len() ==> t@[i] == pad_left(self@, max_len(self@.len(), other@.len()))[i].consensus(
                    pad_left(other@, max_len(self@.len(), other@.len()))[i],
                ),
    {
        self.each_zip(Digit::consensus, other.duplicate())
    }

    /// Tritwise accept-anything, the shorter number left-padded with zeros.
    pub fn accept_anything(&self, other: &Ternary) -> (t: Ternary)
        ensures
            t@.len() == max_len(self@.len(), other@.len()),
            forall|i: int|
                0 <= i < t@.len() ==> t@[i] == pad_left(self@, max_len(self@.len(), other@.len()))[i].accept_anything(
                    pad_left(other@, max_len(self@.len(), other@.len()))[i],
                ),
    {
        self.each_zip(Digit::accept_anything, other.duplicate())
    }

    /// The sign of `self - other`, found: digit by digit from the most significant,
    /// the shorter one left-padded with zeros.
    pub fn compare_sign(&self, other: &Ternary) -> (o: i8)
        ensures
            o == sign(value(self@) - value(other@)),
    {
        let a = self.to_digit_slice();
        let b = other.to_digit_slice();
        let la = a.len();
        let lb = b.len();
        let len = if la >= lb {
            la
        } else {
            lb
        };
        let oa = len - la;
        let ob = len - lb;
        let ghost pa = pad_left(self@, len as nat);
        let ghost pb = pad_left(other@, len as nat);
        proof {
            lemma_pad_values(self@, other@);
            assert(value(pa) == value(self@));
            assert(value(pb) == value(other@));
        }
        let mut i: usize = 0;
        while i < len
            invariant
                i <= len,
                la == a@.len(),
                lb == b@.len(),
                a@ == self@,
                b@ == other@,
                len == max_len(la as nat, lb as nat),
                oa == len - la,
                ob == len - lb,
                pa == pad_left(self@, len as nat),
                pb == pad_left(other@, len as nat),
                pa.len() == len,
                pb.len() == len,
                value(pa) == value(self@),
                value(pb) == value(other@),
                pa.take(i as int) == pb.take(i as int),
            decreases len - i,
        {
            let da: i8 = if i < oa {
                0
            } else {
                a[i - oa].to_i8()
            };
            let db: i8 = if i < ob {
                0
            } else {
                b[i - ob].to_i8()
            };
            assert(da == pa[i as int].val());
            assert(db == pb[i as int].val());
            if da < db {
                proof {
                    lemma_first_difference(pa, pb, i as int);
                }
                return -1;
            }
            if da > db {
                proof {
                    lemma_first_difference(pb, pa, i as int);
                }
                return 1;
            }
            proof {
                assert(pa[i as int] == pb[i as int]);
                assert(pa.take(i + 1) =~= pa.take(i as int).push(pa[i as int]));
                assert(pb.take(i + 1) =~= pb.take(i as int).push(pb[i as int]));
            }
            i += 1;
        }
        assert(pa.take(len as int) =~= pa);
        assert(pb.take(len as int) =~= pb);
        0
    }
}

} // verus!
