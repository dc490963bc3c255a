//! The arbitrary-length balanced ternary number `Ternary`.
use vstd::prelude::*;
use crate::digit::{Digit, sign_digit};
use crate::model::{abs_int, first_nonzero, is_trimmed, lemma_first_nonzero_skip, lemma_trim, lemma_trim_skip_zeros, lemma_value_leading_zeros, lemma_value_prepend, lemma_value_sign, lemma_value_single, lemma_value_take_abs, pow3, sign, trim_spec, value, zeros};
use crate::text::{push_char, empty_string};
use vstd::string::StringSliceAdditionalSpecFns;

verus! {

/// A balanced ternary number: a vector of digits, most significant first.
#[derive(Debug, Clone, PartialEq, Eq, Hash)]
pub struct Ternary {
    digits: Vec<Digit>,
}

impl View for Ternary {
    type V = Seq<Digit>;

    closed spec fn view(&self) -> Seq<Digit> {
        self.digits@
    }
}

/// The digit a byte of a balanced ternary string stands for: `+` and `-` are
/// `Pos` and `Neg`, every other byte reads as `Zero`.
pub open spec fn byte_digit(b: u8) -> Digit {
    if b == 43u8 {
        Digit::Pos
    } else if b == 45u8 {
        Digit::Neg
    } else {
        Digit::Zero
    }
}

/// `s` left-padded with zeros to length `n` (unchanged when already as long).
pub open spec fn pad_left(s: Seq<Digit>, n: nat) -> Seq<Digit> {
    if s.len() >= n {
        s
    } else {
        zeros((n - s.len()) as nat) + s
    }
}

/// The larger of two lengths.
pub open spec fn max_len(a: nat, b: nat) -> nat {
    if a >= b { a } else { b }
}

/// The digit at `index` counted from the right (0 is the least significant).
pub open spec fn digit_from_right(s: Seq<Digit>, index: int) -> Digit {
    s[s.len() - 1 - index]
}

/// `n` fits in an `i64` and so do the intermediate values of its Horner evaluation.
pub open spec fn fits_i64(v: int) -> bool {
    -0x7fff_ffff_ffff_ffff <= v <= 0x7fff_ffff_ffff_ffff
}

impl Ternary {
    /// A number made of the given digits, most significant first.
    pub fn new(digits: Vec<Digit>) -> (t: Ternary)
        ensures
            t@ == digits@,
    {
        Ternary { digits }
    }

    /// The number of digits.
    pub fn log(&self) -> (n: usize)
        ensures
            n == self@.len(),
    {
        self.digits.len()
    }

    /// The digits, most significant first.
    pub fn to_digit_slice(&self) -> (s: &[Digit])
        ensures
            s@ == self@,
    {
        self.digits.as_slice()
    }

    /// An iterator over the digits, most significant first.
    pub fn iter(&self) -> (it: std::slice::Iter<'_, Digit>)
        ensures
            vstd::std_specs::iter::IteratorSpec::remaining(&it).unref() == self@,
    {
        let s = self.digits.as_slice();
        proof {
            broadcast use vstd::std_specs::slice::axiom_spec_slice_iter;
            assert(s@.as_ref().unref() =~= s@);
        }
        s.iter()
    }

    /// A fresh vector of the digits, most significant first.
    pub fn to_digits(&self) -> (v: Vec<Digit>)
        ensures
            v@ == self@,
    {
        let mut v: Vec<Digit> = Vec::new();
        let mut i: usize = 0;
        while i < self.digits.len()
            invariant
                i <= self@.len(),
                v@ == self@.take(i as int),
            decreases self@.len() - i,
        {
            v.push(self.digits[i]);
            i += 1;
            assert(v@ =~= self@.take(i as int));
        }
        assert(self@.take(self@.len() as int) =~= self@);
        v
    }

    /// A copy of the number.
    pub fn duplicate(&self) -> (t: Ternary)
        ensures
            t@ == self@,
    {
        Ternary { digits: self.to_digits() }
    }

    /// The digit at `index`, counted from the right; `None` past the last digit.
    pub fn get_digit(&self, index: usize) -> (d: Option<&Digit>)
        ensures
            index < self@.len() ==> d == Some(&digit_from_right(self@, index as int)),
            index >= self@.len() ==> d.is_none(),
    {
        if index < self.digits.len() {
            Some(&self.digits[self.digits.len() - 1 - index])
        } else {
            None
        }
    }

    /// The digit at `index`, counted from the right; `None` past the last digit.
    pub fn digit(&self, index: usize) -> (d: Option<Digit>)
        ensures
            index < self@.len() ==> d == Some(digit_from_right(self@, index as int)),
            index >= self@.len() ==> d.is_none(),
    {
        if index < self.digits.len() {
            Some(self.digits[self.digits.len() - 1 - index])
        } else {
            None
        }
    }

    /// Reads a balanced ternary string byte by byte: `+` is `Pos`, `-` is `Neg`,
    /// and any other byte reads as `Zero`.
    pub fn parse(s: &str) -> (t: Ternary)
        ensures
            t@ == s.spec_bytes().map_values(|b: u8| byte_digit(b)),
    {
        let bytes = s.as_bytes();
        let mut digits: Vec<Digit> = Vec::new();
        let mut i: usize = 0;
        while i < bytes.len()
            invariant
                i <= bytes@.len(),
                bytes@ == s.spec_bytes(),
                digits@ == bytes@.take(i as int).map_values(|b: u8| byte_digit(b)),
            decreases bytes@.len() - i,
        {
            let b = bytes[i];
            let d = if b == 43u8 {
                Digit::Pos
            } else if b == 45u8 {
                Digit::Neg
            } else {
                Digit::Zero
            };
            digits.push(d);
            i += 1;
            assert(digits@ =~= bytes@.take(i as int).map_values(|b: u8| byte_digit(b)));
        }
        assert(bytes@.take(bytes@.len() as int) =~= bytes@);
        Ternary { digits }
    }

    /// The value as an `i64`; the value must fit.
    pub fn to_dec(&self) -> (r: i64)
        requires
            fits_i64(value(self@)),
        ensures
            r == value(self@),
    {
        let mut dec: i64 = 0;
        let mut i: usize = 0;
        while i < self.digits.len()
            invariant
                i <= self@.len(),
                dec == value(self@.take(i as int)),
                fits_i64(value(self@)),
            decreases self@.len() - i,
        {
            proof {
                lemma_value_take_abs(self@, i + 1);
                assert(self@.take(i + 1).drop_last() =~= self@.take(i as int));
                assert(self@.take(i + 1).last() == self@[i as int]);
            }
            let d = self.digits[i].to_i8() as i64;
            assert(3 * dec != 0x8000_0000_0000_0000);
            dec = dec * 3 + d;
            i += 1;
        }
        assert(self@.take(self@.len() as int) =~= self@);
        dec
    }

    /// The canonical balanced ternary representation of `dec`.
    pub fn from_dec(dec: i64) -> (t: Ternary)
        ensures
            value(t@) == dec,
            is_trimmed(t@),
    {
        if dec == 0 {
            let mut digits: Vec<Digit> = Vec::new();
            digits.push(Digit::Zero);
            proof {
                lemma_value_single(Digit::Zero);
            }
            return Ternary { digits };
        }
        let negative = dec < 0;
        let mut x: u64 = if negative {
            (0i128 - dec as i128) as u64
        } else {
            dec as u64
        };
        let mut digits: Vec<Digit> = Vec::new();
        while x != 0
            invariant
                !negative ==> dec == x * pow3(digits@.len()) + value(digits@),
                negative ==> dec == -(x * pow3(digits@.len())) + value(digits@),
                x == 0 ==> digits@.len() > 0 && digits@[0] != Digit::Zero,
                x <= 0x8000_0000_0000_0000,
            decreases x,
        {
            let rem = x % 3;
            let t: i8 = if rem == 2 {
                -1
            } else {
                rem as i8
            };
            let next: u64 = if rem == 2 {
                (x - rem) / 3 + 1
            } else {
                (x - rem) / 3
            };
            let dv: i8 = if negative {
                -t
            } else {
                t
            };
            let d = Digit::from_i8(dv);
            let ghost old_digits = digits@;
            proof {
                let k = old_digits.len();
                assert(x == 3 * next + t);
                assert(d.val() == if negative { -(t as int) } else { t as int });
                lemma_value_prepend(d, old_digits);
                assert(pow3(k + 1) == 3 * pow3(k));
                assert(x * pow3(k) == next * pow3(k + 1) + t * pow3(k)) by (nonlinear_arith)
                    requires
                        x == 3 * next + t,
                        pow3(k + 1) == 3 * pow3(k),
                ;
            }
            digits.insert(0, d);
            proof {
                assert(digits@ =~= seq![d] + old_digits);
                let k = old_digits.len();
                assert(value(digits@) == d.val() * pow3(k) + value(old_digits));
                if negative {
                    assert(d.val() * pow3(k) == -(t * pow3(k))) by (nonlinear_arith)
                        requires
                            d.val() == -t,
                    ;
                }
            }
            x = next;
        }
        Ternary { digits }
    }

    /// The number without its leading zeros; `0` when nothing else is left.
    pub fn trim(&self) -> (t: Ternary)
        ensures
            t@ == trim_spec(self@),
            value(t@) == value(self@),
            is_trimmed(t@),
    {
        let n = self.digits.len();
        let mut pos: usize = 0;
        while pos < n && self.digits[pos] == Digit::Zero
            invariant
                pos <= n,
                n == self@.len(),
                forall|j: int| 0 <= j < pos ==> self@[j] == Digit::Zero,
            decreases n - pos,
        {
            pos += 1;
        }
        proof {
            lemma_trim_skip_zeros(self@, pos as int);
            lemma_trim(self@);
        }
        let mut digits: Vec<Digit> = Vec::new();
        if pos == n {
            digits.push(Digit::Zero);
            proof {
                assert(self@.skip(pos as int).len() == 0);
                assert(digits@ =~= seq![Digit::Zero]);
            }
        } else {
            let mut i = pos;
            while i < n
                invariant
                    pos <= i <= n,
                    n == self@.len(),
                    digits@ == self@.subrange(pos as int, i as int),
                decreases n - i,
            {
                digits.push(self.digits[i]);
                i += 1;
                assert(digits@ =~= self@.subrange(pos as int, i as int));
            }
            assert(digits@ =~= self@.skip(pos as int));
        }
        Ternary { digits }
    }

    /// The number left-padded with zeros to `length` digits; unchanged when it
    /// already has at least that many.
    pub fn with_length(&self, length: usize) -> (t: Ternary)
        ensures
            t@ == pad_left(self@, length as nat),
            value(t@) == value(self@),
    {
        let n = self.digits.len();
        if length <= n {
            return self.duplicate();
        }
        let pad = length - n;
        let mut digits: Vec<Digit> = Vec::new();
        let mut i: usize = 0;
        while i < pad
            invariant
                i <= pad,
                digits@ == zeros(i as nat),
            decreases pad - i,
        {
            digits.push(Digit::Zero);
            i += 1;
            assert(digits@ =~= zeros(i as nat));
        }
        let mut j: usize = 0;
        while j < n
            invariant
                j <= n,
                n == self@.len(),
                digits@ == zeros(pad as nat) + self@.take(j as int),
            decreases n - j,
        {
            digits.push(self.digits[j]);
            j += 1;
            assert(digits@ =~= zeros(pad as nat) + self@.take(j as int));
        }
        assert(self@.take(n as int) =~= self@);
        proof {
            lemma_value_leading_zeros(pad as nat, self@);
        }
        Ternary { digits }
    }

    /// The digits written with `+`, `0` and `-`.
    pub fn to_string(&self) -> (s: String)
        ensures
            s@ == self@.map_values(|d: Digit| d.to_char()),
    {
        let mut s = empty_string();
        let mut i: usize = 0;
        while i < self.digits.len()
            invariant
                i <= self@.len(),
                s@ == self@.take(i as int).map_values(|d: Digit| d.to_char()),
            decreases self@.len() - i,
        {
            push_char(&mut s, self.digits[i].to_char());
            i += 1;
            assert(s@ =~= self@.take(i as int).map_values(|d: Digit| d.to_char()));
        }
        assert(self@.take(self@.len() as int) =~= self@);
        s
    }

    /// The digits written with the characters that `transform` gives for them.
    pub fn to_string_repr<F: Fn(&Digit) -> char>(&self, transform: F) -> (s: String)
        requires
            forall|i: int| 0 <= i < self@.len() ==> transform.requires((&self@[i],)),
        ensures
            s@.len() == self@.len(),
            forall|i: int| 0 <= i < self@.len() ==> transform.ensures((&self@[i],), s@[i]),
    {
        let mut s = empty_string();
        let mut i: usize = 0;
        while i < self.digits.len()
            invariant
                i <= self@.len(),
                s@.len() == i,
                forall|j: int| 0 <= j < self@.len() ==> transform.requires((&self@[j],)),
                forall|j: int| 0 <= j < i ==> transform.ensures((&self@[j],), s@[j]),
            decreases self@.len() - i,
        {
            let c = transform(&self.digits[i]);
            push_char(&mut s, c);
            i += 1;
        }
        s
    }

    /// The sign as a digit: the first non-zero digit, or `Zero`.
    pub fn signum(&self) -> (d: Digit)
        ensures
            d == first_nonzero(self@),
            d.val() == sign(value(self@)),
    {
        let n = self.digits.len();
        let mut i: usize = 0;
        while i < n
            invariant
                i <= n,
                n == self@.len(),
                forall|j: int| 0 <= j < i ==> self@[j] == Digit::Zero,
            decreases n - i,
        {
            if self.digits[i] != Digit::Zero {
                proof {
                    lemma_first_nonzero_skip(self@, i as int);
                    lemma_value_sign(self@);
                }
                return self.digits[i];
            }
            i += 1;
        }
        proof {
            lemma_first_nonzero_skip(self@, i as int);
            lemma_value_sign(self@);
        }
        Digit::Zero
    }

    /// Applies `f` to every digit.
    pub fn each<F: Fn(Digit) -> Digit>(&self, f: F) -> (t: Ternary)
        requires
            forall|i: int| 0 <= i < self@.len() ==> f.requires((self@[i],)),
        ensures
            t@.len() == self@.len(),
            forall|i: int| 0 <= i < self@.len() ==> f.ensures((self@[i],), t@[i]),
    {
        let mut out: Vec<Digit> = Vec::new();
        let mut i: usize = 0;
        while i < self.digits.len()
            invariant
                i <= self@.len(),
                out@.len() == i,
                forall|j: int| 0 <= j < self@.len() ==> f.requires((self@[j],)),
                forall|j: int| 0 <= j < i ==> f.ensures((self@[j],), out@[j]),
            decreases self@.len() - i,
        {
            let d = f(self.digits[i]);
            out.push(d);
            i += 1;
        }
        Ternary { digits: out }
    }

    /// Applies `f` to every digit together with the fixed digit `other`.
    pub fn each_with<F: Fn(Digit, Digit) -> Digit>(&self, f: F, other: Digit) -> (t: Ternary)
        requires
            forall|i: int| 0 <= i < self@.len() ==> f.requires((self@[i], other)),
        ensures
            t@.len() == self@.len(),
            forall|i: int| 0 <= i < self@.len() ==> f.ensures((self@[i], other), t@[i]),
    {
        let mut out: Vec<Digit> = Vec::new();
        let mut i: usize = 0;
        while i < self.digits.len()
            invariant
                i <= self@.len(),
                out@.len() == i,
                forall|j: int| 0 <= j < self@.len() ==> f.requires((self@[j], other)),
                forall|j: int| 0 <= j < i ==> f.ensures((self@[j], other), out@[j]),
            decreases self@.len() - i,
        {
            let d = f(self.digits[i], other);
            out.push(d);
            i += 1;
        }
        Ternary { digits: out }
    }

    /// Applies `f` digit by digit to the two numbers, the shorter one left-padded
    /// with zeros to the length of the longer.
    pub fn each_zip<F: Fn(Digit, Digit) -> Digit>(&self, f: F, other: Ternary) -> (t: Ternary)
        requires
            forall|i: int|
                0 <= i < max_len(self@.len(), other@.len()) ==> f.requires(
                    (
                        pad_left(self@, max_len(self@.len(), other@.len()))[i],
                        pad_left(other@, max_len(self@.len(), other@.len()))[i],
                    ),
                ),
        ensures
            t@.len() == max_len(self@.len(), other@.len()),
            forall|i: int|
                0 <= i < t@.len() ==> f.ensures(
                    (
                        pad_left(self@, max_len(self@.len(), other@.len()))[i],
                        pad_left(other@, max_len(self@.len(), other@.len()))[i],
                    ),
                    t@[i],
                ),
    {
        let la = self.digits.len();
        let lb = other.digits.len();
        let len = if la >= lb {
            la
        } else {
            lb
        };
        let oa = len - la;
        let ob = len - lb;
        let ghost pa = pad_left(self@, len as nat);
        let ghost pb = pad_left(other@, len as nat);
        assert forall|j: int| 0 <= j < len implies f.requires((pa[j], pb[j])) by {
            assert(f.requires(
                (
                    pad_left(self@, max_len(self@.len(), other@.len()))[j],
                    pad_left(other@, max_len(self@.len(), other@.len()))[j],
                ),
            ));
        }
        let mut out: Vec<Digit> = Vec::new();
        let mut i: usize = 0;
        while i < len
            invariant
                i <= len,
                la == self@.len(),
                lb == other@.len(),
                len == max_len(la as nat, lb as nat),
                oa == len - la,
                ob == len - lb,
                pa == pad_left(self@, len as nat),
                pb == pad_left(other@, len as nat),
                out@.len() == i,
                forall|j: int| 0 <= j < len ==> f.requires((pa[j], pb[j])),
                forall|j: int| 0 <= j < i ==> f.ensures((pa[j], pb[j]), out@[j]),
            decreases len - i,
        {
            let da = if i < oa {
                Digit::Zero
            } else {
                self.digits[i - oa]
            };
            let db = if i < ob {
                Digit::Zero
            } else {
                other.digits[i - ob]
            };
            assert(da == pa[i as int]);
            assert(db == pb[i as int]);
            let d = f(da, db);
            out.push(d);
            i += 1;
        }
        Ternary { digits: out }
    }

    /// Applies `f` to the digit pairs from the least significant to the most
    /// significant, threading a carry digit that starts at `Zero`; `f` returns the
    /// next carry and the result digit. The shorter number is left-padded with zeros.
    pub fn each_zip_carry<F: Fn(Digit, Digit, Digit) -> (Digit, Digit)>(
        &self,
        f: F,
        other: Ternary,
    ) -> (t: Ternary)
        requires
            forall|i: int, c: Digit|
                0 <= i < max_len(self@.len(), other@.len()) ==> f.requires(
                    (
                        pad_left(self@, max_len(self@.len(), other@.len()))[i],
                        pad_left(other@, max_len(self@.len(), other@.len()))[i],
                        c,
                    ),
                ),
        ensures
            t@.len() == max_len(self@.len(), other@.len()),
            exists|carries: Seq<Digit>|
                {
                    &&& carries.len() == t@.len() + 1
                    &&& carries[t@.len() as int] == Digit::Zero
                    &&& forall|i: int|
                        0 <= i < t@.len() ==> f.ensures(
                            (
                                pad_left(self@, max_len(self@.len(), other@.len()))[i],
                                pad_left(other@, max_len(self@.len(), other@.len()))[i],
                                #[trigger] carries[i + 1],
                            ),
                            (carries[i], t@[i]),
                        )
                },
    {
        let la = self.digits.len();
        let lb = other.digits.len();
        let len = if la >= lb {
            la
        } else {
            lb
        };
        let oa = len - la;
        let ob = len - lb;
        let ghost pa = pad_left(self@, len as nat);
        let ghost pb = pad_left(other@, len as nat);
        let mut out: Vec<Digit> = Vec::new();
        let mut k: usize = 0;
        while k < len
            invariant
                k <= len,
                out@.len() == k,
            decreases len - k,
        {
            out.push(Digit::Zero);
            k += 1;
        }
        assert forall|j: int, c: Digit| 0 <= j < len implies f.requires((pa[j], pb[j], c)) by {
            assert(f.requires(
                (
                    pad_left(self@, max_len(self@.len(), other@.len()))[j],
                    pad_left(other@, max_len(self@.len(), other@.len()))[j],
                    c,
                ),
            ));
        }
        let mut carry = Digit::Zero;
        let ghost mut carries: Seq<Digit> = Seq::new((len + 1) as nat, |j: int| Digit::Zero);
        let mut i: usize = len;
        while i > 0
            invariant
                i <= len,
                la == self@.len(),
                lb == other@.len(),
                len == max_len(la as nat, lb as nat),
                oa == len - la,
                ob == len - lb,
                pa == pad_left(self@, len as nat),
                pb == pad_left(other@, len as nat),
                out@.len() == len,
                carries.len() == len + 1,
                carries[len as int] == Digit::Zero,
                carries[i as int] == carry,
                forall|j: int, c: Digit| 0 <= j < len ==> f.requires((pa[j], pb[j], c)),
                forall|j: int|
                    i <= j < len ==> f.ensures(
                        (pa[j], pb[j], #[trigger] carries[j + 1]),
                        (carries[j], out@[j]),
                    ),
            decreases i,
        {
            i -= 1;
            let da = if i < oa {
                Digit::Zero
            } else {
                self.digits[i - oa]
            };
            let db = if i < ob {
                Digit::Zero
            } else {
                other.digits[i - ob]
            };
            assert(da == pa[i as int]);
            assert(db == pb[i as int]);
            let (c, res) = f(da, db, carry);
            out.set(i, res);
            proof {
                carries = carries.update(i as int, c);
            }
            carry = c;
        }
        let t = Ternary { digits: out };
        assert(t@ == out@);
        t
    }

    /// The digits of `self` followed by the digits of `other`.
    pub fn concat(&self, other: &Ternary) -> (t: Ternary)
        ensures
            t@ == self@ + other@,
    {
        let mut digits = self.to_digits();
        let mut i: usize = 0;
        while i < other.digits.len()
            invariant
                i <= other@.len(),
                digits@ == self@ + other@.take(i as int),
            decreases other@.len() - i,
        {
            digits.push(other.digits[i]);
            i += 1;
            assert(digits@ =~= self@ + other@.take(i as int));
        }
        assert(other@.take(other@.len() as int) =~= other@);
        Ternary { digits }
    }
}

impl IntoIterator for Ternary {
    type Item = Digit;

    type IntoIter = std::vec::IntoIter<Digit>;

    /// The digits, most significant first, by value.
    fn into_iter(self) -> (it: std::vec::IntoIter<Digit>)
        ensures
            vstd::std_specs::iter::IteratorSpec::remaining(&it) == self@,
    {
        proof {
            broadcast use vstd::std_specs::vec::axiom_spec_into_iter;
        }
        self.digits.into_iter()
    }
}

} // verus!
