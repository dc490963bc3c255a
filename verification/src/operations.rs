//! Arithmetic and tritwise operators on `Ternary`.
use vstd::prelude::*;
use std::ops::{Add, BitAnd, BitOr, BitXor, Div, Mul, Neg, Not, Shl, Shr, Sub};
use crate::digit::Digit;
use crate::model::{
    abs_int, is_trimmed, lemma_pow3_monotone, lemma_pow3_pos, lemma_value_bound,
    lemma_value_concat, lemma_value_leading_zeros, lemma_value_negate, lemma_value_prepend,
    lemma_value_push, lemma_value_single, lemma_value_update, lemma_value_zeros, negate_seq, pow3, value, zeros,
};
use crate::ternary::{Ternary, fits_i64, max_len, pad_left};

verus! {

/// Truncating integer division, rounding toward zero.
pub open spec fn trunc_div(a: int, b: int) -> int {
    if (a < 0) == (b < 0) {
        abs_int(a) / abs_int(b)
    } else {
        -(abs_int(a) / abs_int(b))
    }
}

/// Splits a column sum in `-3..=3` into a carry and a balanced digit.
fn balanced_carry(sum: i8) -> (r: (i8, i8))
    requires
        -3 <= sum <= 3,
    ensures
        r.0 * 3 + r.1 == sum,
        -1 <= r.0 <= 1,
        -1 <= r.1 <= 1,
{
    let carry: i8 = if sum > 1 {
        1
    } else if sum < -1 {
        -1
    } else {
        0
    };
    (carry, sum - carry * 3)
}

/// The value of a left-padded sequence is the value of the sequence.
proof fn lemma_value_pad(s: Seq<Digit>, n: nat)
    ensures
        value(pad_left(s, n)) == value(s),
        pad_left(s, n).len() == if s.len() >= n { s.len() } else { n },
{
    if s.len() < n {
        lemma_value_leading_zeros((n - s.len()) as nat, s);
    }
}

/// Splitting off the digit in front of a suffix.
proof fn lemma_value_skip(s: Seq<Digit>, i: int)
    requires
        0 <= i < s.len(),
    ensures
        value(s.skip(i)) == s[i].val() * pow3((s.len() - i - 1) as nat) + value(s.skip(i + 1)),
{
    assert(s.skip(i) =~= seq![s[i]] + s.skip(i + 1));
    lemma_value_prepend(s[i], s.skip(i + 1));
}

/// One column of the ripple-carry addition keeps the running equation.
proof fn lemma_column_step(
    a0: int,
    a1: int,
    b0: int,
    b1: int,
    x: int,
    y: int,
    y0: int,
    carry: int,
    c: int,
    d: int,
    p: int,
    v0: int,
    v1: int,
    neg: bool,
)
    requires
        a0 == x * p + a1,
        b0 == y0 * p + b1,
        y == if neg { -y0 } else { y0 },
        !neg ==> a1 + b1 == carry * p + v0,
        neg ==> a1 - b1 == carry * p + v0,
        c * 3 + d == x + y + carry,
        v1 == d * p + v0,
    ensures
        !neg ==> a0 + b0 == c * (3 * p) + v1,
        neg ==> a0 - b0 == c * (3 * p) + v1,
{
    assert((x + y + carry) * p == c * (3 * p) + d * p) by (nonlinear_arith)
        requires
            c * 3 + d == x + y + carry,
    ;
    assert((x + y + carry) * p == x * p + y * p + carry * p) by (nonlinear_arith);
    if neg {
        assert(y * p == -(y0 * p)) by (nonlinear_arith)
            requires
                y == -y0,
        ;
    }
}

/// Adds (or, with `negate_b`, subtracts) two digit sequences with a ripple carry
/// from the least significant digit; the result is in canonical form.
fn ternary_add_sub(a: &[Digit], b: &[Digit], negate_b: bool) -> (t: Ternary)
    ensures
        value(t@) == if negate_b { value(a@) - value(b@) } else { value(a@) + value(b@) },
        is_trimmed(t@),
{
    let la = a.len();
    let lb = b.len();
    let len = if la >= lb {
        la
    } else {
        lb
    };
    let oa = len - la;
    let ob = len - lb;
    let ghost pa = pad_left(a@, len as nat);
    let ghost pb = pad_left(b@, len as nat);
    let mut digits: Vec<Digit> = Vec::new();
    let mut carry: i8 = 0;
    let mut i: usize = len;
    assert(pa.skip(len as int) =~= Seq::<Digit>::empty());
    assert(pb.skip(len as int) =~= Seq::<Digit>::empty());
    proof {
        lemma_value_pad(a@, len as nat);
        lemma_value_pad(b@, len as nat);
    }
    while i > 0
        invariant
            i <= len,
            la == a@.len(),
            lb == b@.len(),
            len == max_len(la as nat, lb as nat),
            oa == len - la,
            ob == len - lb,
            pa == pad_left(a@, len as nat),
            pb == pad_left(b@, len as nat),
            pa.len() == len,
            pb.len() == len,
            -1 <= carry <= 1,
            digits@.len() == len - i,
            !negate_b ==> value(pa.skip(i as int)) + value(pb.skip(i as int)) == carry * pow3(
                (len - i) as nat,
            ) + value(digits@),
            negate_b ==> value(pa.skip(i as int)) - value(pb.skip(i as int)) == carry * pow3(
                (len - i) as nat,
            ) + value(digits@),
        decreases i,
    {
        i -= 1;
        let da: i8 = if i < oa {
            0
        } else {
            a[i - oa].to_i8()
        };
        let db0: i8 = if i < ob {
            0
        } else {
            b[i - ob].to_i8()
        };
        assert(da == pa[i as int].val());
        assert(db0 == pb[i as int].val());
        let db: i8 = if negate_b {
            -db0
        } else {
            db0
        };
        let (c, d) = balanced_carry(da + db + carry);
        let dig = Digit::from_i8(d);
        let ghost old_digits = digits@;
        let ghost old_carry = carry;
        let ghost k = (len - i - 1) as nat;
        proof {
            lemma_value_skip(pa, i as int);
            lemma_value_skip(pb, i as int);
            lemma_value_prepend(dig, old_digits);
            assert(pow3(k + 1) == 3 * pow3(k));
            lemma_column_step(
                value(pa.skip(i as int)),
                value(pa.skip(i + 1)),
                value(pb.skip(i as int)),
                value(pb.skip(i + 1)),
                da as int,
                db as int,
                db0 as int,
                old_carry as int,
                c as int,
                d as int,
                pow3(k),
                value(old_digits),
                value(seq![dig] + old_digits),
                negate_b,
            );
        }
        digits.insert(0, dig);
        proof {
            assert(digits@ =~= seq![dig] + old_digits);
        }
        carry = c;
    }
    assert(pa.skip(0) =~= pa);
    assert(pb.skip(0) =~= pb);
    if carry != 0 {
        let cd = Digit::from_i8(carry);
        let ghost old_digits = digits@;
        proof {
            lemma_value_prepend(cd, old_digits);
        }
        digits.insert(0, cd);
        assert(digits@ =~= seq![cd] + old_digits);
    }
    let raw = Ternary::new(digits);
    raw.trim()
}

/// The digits of a sequence, every one negated.
fn negate_digits(s: &Ternary) -> (t: Ternary)
    ensures
        t@ == negate_seq(s@),
        value(t@) == -value(s@),
{
    let src = s.to_digit_slice();
    let mut out: Vec<Digit> = Vec::new();
    let mut i: usize = 0;
    while i < src.len()
        invariant
            i <= src@.len(),
            src@ == s@,
            out@ == negate_seq(s@).take(i as int),
        decreases src@.len() - i,
    {
        out.push(src[i].neg());
        i += 1;
        assert(out@ =~= negate_seq(s@).take(i as int));
    }
    assert(negate_seq(s@).take(src@.len() as int) =~= negate_seq(s@));
    proof {
        lemma_value_negate(s@);
    }
    Ternary::new(out)
}

impl Neg for &Ternary {
    type Output = Ternary;

    /// Every digit negated, which negates the value.
    fn neg(self) -> (t: Ternary)
        ensures
            t@ == negate_seq(self@),
            value(t@) == -value(self@),
    {
        negate_digits(self)
    }
}

impl vstd::std_specs::ops::NegSpecImpl for &Ternary {
    open spec fn obeys_neg_spec() -> bool {
        false
    }

    open spec fn neg_req(self) -> bool {
        true
    }

    open spec fn neg_spec(self) -> Ternary {
        arbitrary()
    }
}

impl Not for &Ternary {
    type Output = Ternary;

    /// Kleene negation: every digit negated.
    fn not(self) -> (t: Ternary)
        ensures
            t@ == negate_seq(self@),
            value(t@) == -value(self@),
    {
        negate_digits(self)
    }
}

impl vstd::std_specs::ops::NotSpecImpl for &Ternary {
    open spec fn obeys_not_spec() -> bool {
        false
    }

    open spec fn not_req(self) -> bool {
        true
    }

    open spec fn not_spec(self) -> Ternary {
        arbitrary()
    }
}

impl Add<&Ternary> for &Ternary {
    type Output = Ternary;

    /// The canonical sum.
    fn add(self, rhs: &Ternary) -> (t: Ternary)
        ensures
            value(t@) == value(self@) + value(rhs@),
            is_trimmed(t@),
    {
        ternary_add_sub(self.to_digit_slice(), rhs.to_digit_slice(), false)
    }
}

impl vstd::std_specs::ops::AddSpecImpl<&Ternary> for &Ternary {
    open spec fn obeys_add_spec() -> bool {
        false
    }

    open spec fn add_req(self, rhs: &Ternary) -> bool {
        true
    }

    open spec fn add_spec(self, rhs: &Ternary) -> Ternary {
        arbitrary()
    }
}

impl Sub<&Ternary> for &Ternary {
    type Output = Ternary;

    /// The canonical difference.
    fn sub(self, rhs: &Ternary) -> (t: Ternary)
        ensures
            value(t@) == value(self@) - value(rhs@),
            is_trimmed(t@),
    {
        ternary_add_sub(self.to_digit_slice(), rhs.to_digit_slice(), true)
    }
}

impl vstd::std_specs::ops::SubSpecImpl<&Ternary> for &Ternary {
    open spec fn obeys_sub_spec() -> bool {
        false
    }

    open spec fn sub_req(self, rhs: &Ternary) -> bool {
        true
    }

    open spec fn sub_spec(self, rhs: &Ternary) -> Ternary {
        arbitrary()
    }
}

impl Add<Digit> for &Ternary {
    type Output = Ternary;

    /// Adds one digit, rippling the carry from the least significant digit; a
    /// new leading digit appears only when the sum no longer fits the length.
    fn add(self, rhs: Digit) -> (t: Ternary)
        ensures
            value(t@) == value(self@) + rhs.val(),
            t@.len() == self@.len() || t@.len() == self@.len() + 1,
            t@.len() == self@.len() <==> 2 * abs_int(value(self@) + rhs.val()) < pow3(self@.len()),
    {
        let mut digits = self.to_digits();
        let len = digits.len();
        let mut carry: i8 = rhs.to_i8();
        let mut i: usize = len;
        while i > 0 && carry != 0
            invariant
                i <= len,
                len == self@.len(),
                digits@.len() == len,
                -1 <= carry <= 1,
                value(digits@) + carry * pow3((len - i) as nat) == value(self@) + rhs.val(),
                forall|j: int| 0 <= j < i ==> digits@[j] == self@[j],
            decreases i,
        {
            i -= 1;
            let d = digits[i];
            let (c, r) = balanced_carry(d.to_i8() + carry);
            let nd = Digit::from_i8(r);
            let ghost old_digits = digits@;
            let ghost old_carry = carry;
            proof {
                let k = (len - i - 1) as nat;
                lemma_value_update(old_digits, i as int, nd);
                assert(pow3(k + 1) == 3 * pow3(k));
                assert((r - d.val()) * pow3(k) + c * pow3(k + 1) == old_carry * pow3(k))
                    by (nonlinear_arith)
                    requires
                        c * 3 + r == d.val() + old_carry,
                        pow3(k + 1) == 3 * pow3(k),
                ;
            }
            digits.set(i, nd);
            carry = c;
        }
        if carry != 0 {
            let cd = Digit::from_i8(carry);
            let ghost old_digits = digits@;
            proof {
                lemma_value_prepend(cd, old_digits);
                lemma_value_bound(old_digits);
                assert(pow3(0) == 1);
            }
            digits.insert(0, cd);
            assert(digits@ =~= seq![cd] + old_digits);
            proof {
                crate::model::lemma_value_leading(digits@);
            }
        } else {
            proof {
                lemma_value_bound(digits@);
            }
        }
        Ternary::new(digits)
    }
}

impl vstd::std_specs::ops::AddSpecImpl<Digit> for &Ternary {
    open spec fn obeys_add_spec() -> bool {
        false
    }

    open spec fn add_req(self, rhs: Digit) -> bool {
        true
    }

    open spec fn add_spec(self, rhs: Digit) -> Ternary {
        arbitrary()
    }
}

impl Sub<Digit> for &Ternary {
    type Output = Ternary;

    /// Subtracts one digit: adds its negation.
    fn sub(self, rhs: Digit) -> (t: Ternary)
        ensures
            value(t@) == value(self@) - rhs.val(),
            t@.len() == self@.len() || t@.len() == self@.len() + 1,
            t@.len() == self@.len() <==> 2 * abs_int(value(self@) - rhs.val()) < pow3(self@.len()),
    {
        let n = rhs.neg();
        self.add(n)
    }
}

impl vstd::std_specs::ops::SubSpecImpl<Digit> for &Ternary {
    open spec fn obeys_sub_spec() -> bool {
        false
    }

    open spec fn sub_req(self, rhs: Digit) -> bool {
        true
    }

    open spec fn sub_spec(self, rhs: Digit) -> Ternary {
        arbitrary()
    }
}

impl Shl<usize> for &Ternary {
    type Output = Ternary;

    /// Appends `rhs` zero digits: multiplies by `3^rhs`.
    fn shl(self, rhs: usize) -> (t: Ternary)
        ensures
            t@ == self@ + zeros(rhs as nat),
            value(t@) == value(self@) * pow3(rhs as nat),
    {
        let mut digits = self.to_digits();
        let mut i: usize = 0;
        while i < rhs
            invariant
                i <= rhs,
                digits@ == self@ + zeros(i as nat),
            decreases rhs - i,
        {
            digits.push(Digit::Zero);
            i += 1;
            assert(digits@ =~= self@ + zeros(i as nat));
        }
        proof {
            lemma_value_concat(self@, zeros(rhs as nat));
            lemma_value_zeros(rhs as nat);
        }
        Ternary::new(digits)
    }
}

impl vstd::std_specs::ops::ShlSpecImpl<usize> for &Ternary {
    open spec fn obeys_shl_spec() -> bool {
        false
    }

    open spec fn shl_req(self, rhs: usize) -> bool {
        true
    }

    open spec fn shl_spec(self, rhs: usize) -> Ternary {
        arbitrary()
    }
}

impl Shr<usize> for &Ternary {
    type Output = Ternary;

    /// Drops the `rhs` least significant digits; `0` when none is left.
    fn shr(self, rhs: usize) -> (t: Ternary)
        ensures
            rhs >= self@.len() ==> t@ == seq![Digit::Zero],
            rhs < self@.len() ==> t@ == self@.take(self@.len() - rhs),
    {
        let n = self.log();
        let mut digits: Vec<Digit> = Vec::new();
        if rhs >= n {
            digits.push(Digit::Zero);
            assert(digits@ =~= seq![Digit::Zero]);
            return Ternary::new(digits);
        }
        let keep = n - rhs;
        let src = self.to_digit_slice();
        let mut i: usize = 0;
        while i < keep
            invariant
                i <= keep,
                keep <= src@.len(),
                src@ == self@,
                digits@ == self@.take(i as int),
            decreases keep - i,
        {
            digits.push(src[i]);
            i += 1;
            assert(digits@ =~= self@.take(i as int));
        }
        Ternary::new(digits)
    }
}

impl vstd::std_specs::ops::ShrSpecImpl<usize> for &Ternary {
    open spec fn obeys_shr_spec() -> bool {
        false
    }

    open spec fn shr_req(self, rhs: usize) -> bool {
        true
    }

    open spec fn shr_spec(self, rhs: usize) -> Ternary {
        arbitrary()
    }
}

/// `3^20`, the weight bound under which the product of two 20-digit numbers
/// fits an `i64`.
proof fn lemma_pow3_20()
    ensures
        pow3(20) == 3486784401,
{
    reveal_with_fuel(pow3, 21);
}

/// A number of at most 20 digits is at most `(3^20 - 1) / 2` in magnitude.
proof fn lemma_value_small(s: Seq<Digit>)
    requires
        s.len() <= 20,
    ensures
        abs_int(value(s)) <= 1743392200,
{
    lemma_value_bound(s);
    lemma_pow3_monotone(s.len(), 20);
    lemma_pow3_20();
}

/// Schoolbook multiplication: Horner's scheme over the digits of `b`, each step
/// shifting the partial product and adding or subtracting `a`.
fn long_mul(a: &Ternary, b: &Ternary) -> (t: Ternary)
    ensures
        value(t@) == value(a@) * value(b@),
        is_trimmed(t@),
{
    let bs = b.to_digit_slice();
    let mut zero_digits: Vec<Digit> = Vec::new();
    zero_digits.push(Digit::Zero);
    let mut r = Ternary::new(zero_digits);
    proof {
        lemma_value_single(Digit::Zero);
        assert(bs@.take(0) =~= Seq::<Digit>::empty());
    }
    let mut j: usize = 0;
    while j < bs.len()
        invariant
            j <= bs@.len(),
            bs@ == b@,
            value(r@) == value(a@) * value(b@.take(j as int)),
        decreases bs@.len() - j,
    {
        let shifted = (&r).shl(1);
        let bd = bs[j];
        let ghost rv = value(r@);
        let ghost prev = value(b@.take(j as int));
        proof {
            assert(b@.take(j + 1) =~= b@.take(j as int).push(bd));
            lemma_value_push(b@.take(j as int), bd);
            assert(pow3(1) == 3) by {
                reveal_with_fuel(pow3, 2);
            }
            assert(value(a@) * (prev * 3 + bd.val()) == (value(a@) * prev) * 3 + bd.val() * value(a@))
                by (nonlinear_arith);
        }
        r = if bd == Digit::Pos {
            (&shifted).add(a)
        } else if bd == Digit::Neg {
            (&shifted).sub(a)
        } else {
            shifted
        };
        proof {
            assert(value(shifted@) == rv * 3);
            if bd == Digit::Pos {
                assert(bd.val() == 1);
                assert(bd.val() * value(a@) == value(a@)) by (nonlinear_arith)
                    requires
                        bd.val() == 1,
                ;
            } else if bd == Digit::Neg {
                assert(bd.val() == -1);
                assert(bd.val() * value(a@) == -value(a@)) by (nonlinear_arith)
                    requires
                        bd.val() == -1,
                ;
            } else {
                assert(bd.val() == 0);
                assert(bd.val() * value(a@) == 0) by (nonlinear_arith)
                    requires
                        bd.val() == 0,
                ;
            }
        }
        j += 1;
    }
    assert(b@.take(bs@.len() as int) =~= b@);
    r.trim()
}

impl Mul<&Ternary> for &Ternary {
    type Output = Ternary;

    /// The canonical product. Numbers of at most 20 digits multiply through
    /// `i64`; longer ones by schoolbook multiplication on the digits.
    fn mul(self, rhs: &Ternary) -> (t: Ternary)
        ensures
            value(t@) == value(self@) * value(rhs@),
            is_trimmed(t@),
    {
        if self.log() <= 20 && rhs.log() <= 20 {
            proof {
                lemma_value_small(self@);
                lemma_value_small(rhs@);
                let x = value(self@);
                let y = value(rhs@);
                assert(abs_int(x * y) <= 1743392200 * 1743392200) by (nonlinear_arith)
                    requires
                        abs_int(x) <= 1743392200,
                        abs_int(y) <= 1743392200,
                ;
            }
            let x = self.to_dec();
            let y = rhs.to_dec();
            Ternary::from_dec(x * y)
        } else {
            long_mul(self, rhs)
        }
    }
}

impl vstd::std_specs::ops::MulSpecImpl<&Ternary> for &Ternary {
    open spec fn obeys_mul_spec() -> bool {
        false
    }

    open spec fn mul_req(self, rhs: &Ternary) -> bool {
        true
    }

    open spec fn mul_spec(self, rhs: &Ternary) -> Ternary {
        arbitrary()
    }
}

/// The magnitude of an `i64` that is not `i64::MIN`, as a `u64`.
pub(crate) fn magnitude(v: i64) -> (m: u64)
    requires
        v > i64::MIN,
    ensures
        m == abs_int(v as int),
{
    if v < 0 {
        (-v) as u64
    } else {
        v as u64
    }
}

impl Div<&Ternary> for &Ternary {
    type Output = Ternary;

    /// The canonical truncating quotient (rounded toward zero). Both values must
    /// fit an `i64` and the divisor must not be zero.
    fn div(self, rhs: &Ternary) -> (t: Ternary)
        ensures
            value(t@) == trunc_div(value(self@), value(rhs@)),
            is_trimmed(t@),
    {
        let x = self.to_dec();
        let y = rhs.to_dec();
        let mx = magnitude(x);
        let my = magnitude(y);
        let q = mx / my;
        let qi = q as i64;
        if (x < 0) == (y < 0) {
            Ternary::from_dec(qi)
        } else {
            Ternary::from_dec(-qi)
        }
    }
}

impl vstd::std_specs::ops::DivSpecImpl<&Ternary> for &Ternary {
    open spec fn obeys_div_spec() -> bool {
        false
    }

    open spec fn div_req(self, rhs: &Ternary) -> bool {
        fits_i64(value(self@)) && fits_i64(value(rhs@)) && value(rhs@) != 0
    }

    open spec fn div_spec(self, rhs: &Ternary) -> Ternary {
        arbitrary()
    }
}

impl BitAnd<&Ternary> for &Ternary {
    type Output = Ternary;

    /// Tritwise Kleene conjunction (minimum), the shorter number left-padded with zeros.
    fn bitand(self, rhs: &Ternary) -> (t: Ternary)
        ensures
            t@.len() == max_len(self@.len(), rhs@.len()),
            forall|i: int|
                0 <= i < t@.len() ==> t@[i] == pad_left(self@, max_len(self@.len(), rhs@.len()))[i].min_digit(
                    pad_left(rhs@, max_len(self@.len(), rhs@.len()))[i],
                ),
    {
        self.each_zip(Digit::bitand, rhs.duplicate())
    }
}

impl vstd::std_specs::ops::BitAndSpecImpl<&Ternary> for &Ternary {
    open spec fn obeys_bitand_spec() -> bool {
        false
    }

    open spec fn bitand_req(self, rhs: &Ternary) -> bool {
        true
    }

    open spec fn bitand_spec(self, rhs: &Ternary) -> Ternary {
        arbitrary()
    }
}

impl BitOr<&Ternary> for &Ternary {
    type Output = Ternary;

    /// Tritwise Kleene disjunction (maximum), the shorter number left-padded with zeros.
    fn bitor(self, rhs: &Ternary) -> (t: Ternary)
        ensures
            t@.len() == max_len(self@.len(), rhs@.len()),
            forall|i: int|
                0 <= i < t@.len() ==> t@[i] == pad_left(self@, max_len(self@.len(), rhs@.len()))[i].max_digit(
                    pad_left(rhs@, max_len(self@.len(), rhs@.len()))[i],
                ),
    {
        self.each_zip(Digit::bitor, rhs.duplicate())
    }
}

impl vstd::std_specs::ops::BitOrSpecImpl<&Ternary> for &Ternary {
    open spec fn obeys_bitor_spec() -> bool {
        false
    }

    open spec fn bitor_req(self, rhs: &Ternary) -> bool {
        true
    }

    open spec fn bitor_spec(self, rhs: &Ternary) -> Ternary {
        arbitrary()
    }
}

impl BitXor<&Ternary> for &Ternary {
    type Output = Ternary;

    /// Tritwise Kleene exclusive or (negated product), the shorter number
    /// left-padded with zeros.
    fn bitxor(self, rhs: &Ternary) -> (t: Ternary)
        ensures
            t@.len() == max_len(self@.len(), rhs@.len()),
            forall|i: int|
                0 <= i < t@.len() ==> t@[i] == crate::digit::digit_of(
                    -(pad_left(self@, max_len(self@.len(), rhs@.len()))[i].val() * pad_left(
                        rhs@,
                        max_len(self@.len(), rhs@.len()),
                    )[i].val()),
                ),
    {
        self.each_zip(Digit::bitxor, rhs.duplicate())
    }
}

impl vstd::std_specs::ops::BitXorSpecImpl<&Ternary> for &Ternary {
    open spec fn obeys_bitxor_spec() -> bool {
        false
    }

    open spec fn bitxor_req(self, rhs: &Ternary) -> bool {
        true
    }

    open spec fn bitxor_spec(self, rhs: &Ternary) -> Ternary {
        arbitrary()
    }
}

/// Shifting left then right by the same count restores the number: the
/// digits of `t << n` are those of `t` followed by `n` zeros, and `>> n` drops
/// exactly those.
pub proof fn lemma_shl_shr_roundtrip(s: Seq<Digit>, n: nat)
    requires
        s.len() > 0,
    ensures
        n < (s + zeros(n)).len(),
        (s + zeros(n)).take((s + zeros(n)).len() - n) == s,
{
    assert((s + zeros(n)).take(s.len() as int) =~= s);
}

} // verus!
