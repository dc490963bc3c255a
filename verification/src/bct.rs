//! `BctTer32`: 32 balanced trits in two bit masks, one for the `Pos` trits and
//! one for the `Neg` trits (binary-coded ternary). Trit `k`, counted from the
//! least significant end, lives in bit `k` of the masks.
use vstd::prelude::*;
use std::ops::{Add, BitAnd, BitOr, BitXor, Div, Mul, Neg, Not, Shl, Shr, Sub};
use crate::digit::{Digit, digit_of};
use crate::model::{
    abs_int, lemma_fixed_unique, lemma_pow3_monotone, lemma_pow3_pos, lemma_value_bound,
    lemma_value_take_abs, max_value, pow3, value, zeros,
};
use crate::operations::{magnitude, trunc_div};
use crate::jones::{lemma_bias64, lemma_bias_add, lemma_lsb_remap, lemma_ripple, lemma_ucodes_bound, ucodes64};
use crate::packed::{
    bit32, bit64, code_accept, code_and, code_consensus, code_or, code_trit, code_xor,
    compact_spec, digits_lsb, fixed_ternary, il_accept64, il_and64, il_and_u64, il_consensus64,
    il_digits64, il_holds64, il_neg64, il_neg_u64, il_or64, il_or_u64, il_trit64, il_trits64,
    il_valid64, il_xor64, il_xor_u64, is_trits, lemma_bits32, lemma_code_digits,
    lemma_digits_lsb_value, lemma_il64, lemma_il_from_masks, lemma_il_to_masks, lemma_il_done64, lemma_il_start64,
    lemma_il_step64, lemma_il_value64, lemma_il_word64, lemma_lsb_value_ext,
    lemma_spread_compact, lsb_value, pair64, read_il64, spread_spec, write_il64,
};
use crate::ternary::{Ternary, pad_left};
use crate::tryte::{lemma_wrap_in_range, lemma_wrap_unique, wrap};

verus! {

/// The trit at bit `k` of the masks.
pub open spec fn bct_trit(pos: u32, neg: u32, k: int) -> int {
    if bit32(pos, k as u32) {
        1
    } else if bit32(neg, k as u32) {
        -1
    } else {
        0
    }
}

/// The trits of the masks as a function of their index.
pub open spec fn bct_trits(pos: u32, neg: u32) -> spec_fn(int) -> int {
    |k: int| bct_trit(pos, neg, k)
}

/// The 32 digits of the masks, most significant first.
pub open spec fn bct_digits(pos: u32, neg: u32) -> Seq<Digit> {
    digits_lsb(bct_trits(pos, neg), 32)
}

/// The digits of a pair of masks have the value of their trits.
proof fn lemma_bct_value(pos: u32, neg: u32)
    ensures
        bct_digits(pos, neg).len() == 32,
        value(bct_digits(pos, neg)) == lsb_value(bct_trits(pos, neg), 32),
        2 * abs_int(value(bct_digits(pos, neg))) <= pow3(32) - 1,
{
    assert(is_trits(bct_trits(pos, neg), 32));
    lemma_digits_lsb_value(bct_trits(pos, neg), 32);
    lemma_value_bound(bct_digits(pos, neg));
}

/// The results of the mask formulas never set a bit in both masks.
proof fn lemma_bct_disjoint(ap: u32, an: u32, bp: u32, bn: u32, r: u32)
    by (bit_vector)
    requires
        ap & an == 0,
        bp & bn == 0,
        r < 32,
    ensures
        (ap & bp) & (an | bn) == 0,
        (ap | bp) & (an & bn) == 0,
        ((ap & bn) | (an & bp)) & ((ap & bp) | (an & bn)) == 0,
        (ap & bp) & (an & bn) == 0,
        ((ap & !bn) | (bp & !an)) & ((an & !bp) | (bn & !ap)) == 0,
        (ap << r) & (an << r) == 0,
        (ap >> r) & (an >> r) == 0,
        an & ap == 0,
{
}

/// 32 balanced trits held as a mask of `Pos` trits and a mask of `Neg` trits;
/// no bit is set in both.
#[derive(Copy, Clone, Debug, PartialEq, Eq, Hash)]
pub struct BctTer32 {
    pos: u32,
    neg: u32,
}

impl View for BctTer32 {
    type V = Seq<Digit>;

    closed spec fn view(&self) -> Seq<Digit> {
        bct_digits(self.pos, self.neg)
    }
}

impl BctTer32 {
    /// The number has 32 digits.
    pub proof fn lemma_len(&self)
        ensures
            self@.len() == 32,
    {
    }
}

/// The digit at bit `bit` of the masks.
fn read_bct(pos: u32, neg: u32, bit: u32) -> (d: Digit)
    requires
        bit < 32,
    ensures
        d == digit_of(bct_trit(pos, neg, bit as int)),
{
    proof {
        lemma_bits32(pos, neg, 0, bit);
        lemma_bits32(neg, pos, 0, bit);
    }
    if pos & (1u32 << bit) != 0 {
        Digit::Pos
    } else if neg & (1u32 << bit) != 0 {
        Digit::Neg
    } else {
        Digit::Zero
    }
}

/// Writes `d` at the free bit `bit` of the masks.
fn write_bct(pos: u32, neg: u32, bit: u32, d: Digit) -> (r: (u32, u32))
    requires
        bit < 32,
        pos & neg == 0,
        !bit32(pos, bit),
        !bit32(neg, bit),
    ensures
        r.0 & r.1 == 0,
        bct_trit(r.0, r.1, bit as int) == d.val(),
        forall|j: u32| j < 32 && j != bit ==> bit32(r.0, j) == bit32(pos, j) && bit32(r.1, j) == bit32(neg, j),
{
    proof {
        lemma_bits32(pos, neg, bit, bit);
        lemma_bits32(neg, pos, bit, bit);
        assert forall|j: u32| j < 32 && j != bit implies bit32(pos | (1u32 << bit), j) == bit32(pos, j)
            && bit32(neg | (1u32 << bit), j) == bit32(neg, j) by {
            lemma_bits32(pos, neg, bit, j);
            lemma_bits32(neg, pos, bit, j);
        }
    }
    match d {
        Digit::Pos => (pos | (1u32 << bit), neg),
        Digit::Neg => (pos, neg | (1u32 << bit)),
        Digit::Zero => (pos, neg),
    }
}

/// The masks holding the digits `g(0..32)` of a loop that writes them one by one.
spec fn masks_hold(pos: u32, neg: u32, g: spec_fn(int) -> int, i: u32) -> bool {
    &&& pos & neg == 0
    &&& forall|j: u32| j < i ==> bct_trit(pos, neg, j as int) == g(j as int)
    &&& forall|j: u32| i <= j < 32 ==> !bit32(pos, j) && !bit32(neg, j)
}

/// Writing the next digit keeps the written ones.
proof fn lemma_masks_step(
    pos: u32,
    neg: u32,
    r: (u32, u32),
    g: spec_fn(int) -> int,
    i: u32,
)
    requires
        i < 32,
        masks_hold(pos, neg, g, i),
        r.0 & r.1 == 0,
        bct_trit(r.0, r.1, i as int) == g(i as int),
        forall|j: u32| j < 32 && j != i ==> bit32(r.0, j) == bit32(pos, j) && bit32(r.1, j) == bit32(neg, j),
    ensures
        masks_hold(r.0, r.1, g, (i + 1) as u32),
{
    assert forall|j: u32| j < i + 1 implies bct_trit(r.0, r.1, j as int) == g(j as int) by {
        if j != i {
            assert(bit32(r.0, j) == bit32(pos, j) && bit32(r.1, j) == bit32(neg, j));
            assert(bct_trit(pos, neg, j as int) == g(j as int));
        }
    }
    assert forall|j: u32| i + 1 <= j < 32 implies !bit32(r.0, j) && !bit32(r.1, j) by {
        assert(bit32(r.0, j) == bit32(pos, j) && bit32(r.1, j) == bit32(neg, j));
    }
}

/// The empty masks hold nothing yet.
proof fn lemma_masks_start(g: spec_fn(int) -> int)
    ensures
        masks_hold(0, 0, g, 0),
{
    assert forall|j: u32| 0 <= j < 32 implies !bit32(0, j) && !bit32(0, j) by {
        lemma_bits32(0, 0, 0, j);
    }
    lemma_bits32(0, 0, 0, 0);
}

/// Full masks are worth their digits.
proof fn lemma_masks_done(pos: u32, neg: u32, g: spec_fn(int) -> int)
    requires
        masks_hold(pos, neg, g, 32),
    ensures
        forall|i: int| 0 <= i < 32 ==> #[trigger] bct_digits(pos, neg)[i] == digit_of(g(31 - i)),
{
    assert forall|i: int| 0 <= i < 32 implies #[trigger] bct_digits(pos, neg)[i] == digit_of(
        g(31 - i),
    ) by {
        let j = (31 - i) as u32;
        assert(bct_trit(pos, neg, j as int) == g(j as int));
    }
}

impl BctTer32 {
    #[verifier::type_invariant]
    spec fn well_formed(self) -> bool {
        self.pos & self.neg == 0
    }

    /// All trits `Zero`.
    pub fn zero() -> (t: BctTer32)
        ensures
            t@ == zeros(32),
            value(t@) == 0,
    {
        proof {
            lemma_bits32(0, 0, 0, 0);
        }
        let t = BctTer32 { pos: 0, neg: 0 };
        proof {
            assert forall|i: int| 0 <= i < 32 implies t@[i] == Digit::Zero by {
                lemma_bits32(0, 0, 0, (31 - i) as u32);
            }
            assert(t@ =~= zeros(32));
            crate::model::lemma_value_zeros(32);
        }
        t
    }

    /// All 32 trits `Pos`.
    pub fn maximum() -> (t: BctTer32)
        ensures
            t@ == Seq::new(32, |i: int| Digit::Pos),
            value(t@) == max_value(32),
    {
        proof {
            lemma_bits32(0xFFFF_FFFF, 0, 0, 0);
        }
        let t = BctTer32 { pos: 0xFFFF_FFFF, neg: 0 };
        proof {
            assert forall|i: int| 0 <= i < 32 implies t@[i] == Digit::Pos by {
                lemma_bits32(0xFFFF_FFFF, 0, 0, (31 - i) as u32);
            }
            assert(t@ =~= Seq::new(32, |i: int| Digit::Pos));
            crate::tryte::lemma_value_all(Digit::Pos, 32);
        }
        t
    }

    /// All 32 trits `Neg`.
    pub fn minimum() -> (t: BctTer32)
        ensures
            t@ == Seq::new(32, |i: int| Digit::Neg),
            value(t@) == -max_value(32),
    {
        proof {
            lemma_bits32(0xFFFF_FFFF, 0, 0, 0);
        }
        let t = BctTer32 { pos: 0, neg: 0xFFFF_FFFF };
        proof {
            assert forall|i: int| 0 <= i < 32 implies t@[i] == Digit::Neg by {
                lemma_bits32(0, 0xFFFF_FFFF, 0, (31 - i) as u32);
                lemma_bits32(0xFFFF_FFFF, 0, 0, (31 - i) as u32);
            }
            assert(t@ =~= Seq::new(32, |i: int| Digit::Neg));
            crate::tryte::lemma_value_all(Digit::Neg, 32);
        }
        t
    }

    /// The trits of the given masks; no bit may be set in both.
    pub fn new(pos: u32, neg: u32) -> (t: BctTer32)
        requires
            pos & neg == 0,
        ensures
            t@ == bct_digits(pos, neg),
    {
        BctTer32 { pos, neg }
    }

    /// The low 32 balanced trits of `v`: `v` itself when it fits.
    pub fn from_dec(v: i64) -> (t: BctTer32)
        ensures
            value(t@) == wrap(v as int, 32),
    {
        if v == 0 {
            let t = Self::zero();
            proof {
                lemma_pow3_pos(32);
                lemma_wrap_in_range(0, 32);
            }
            return t;
        }
        let negative = v < 0;
        let mut x: u64 = if negative {
            (0i128 - v as i128) as u64
        } else {
            v as u64
        };
        let mut pos: u32 = 0;
        let mut neg: u32 = 0;
        let ghost mut g: spec_fn(int) -> int = |k: int| 0int;
        proof {
            lemma_masks_start(g);
        }
        let mut bit: u32 = 0;
        while bit < 32
            invariant
                bit <= 32,
                x <= 0x8000_0000_0000_0000,
                masks_hold(pos, neg, g, bit),
                is_trits(g, bit as nat),
                !negative ==> v == x * pow3(bit as nat) + lsb_value(g, bit as nat),
                negative ==> v == -(x * pow3(bit as nat)) + lsb_value(g, bit as nat),
            decreases 32 - bit,
        {
            let rem = x % 3;
            let t: i8 = if rem == 2 {
                -1
            } else {
                rem as i8
            };
            let next: u64 = if rem == 2 {
                (x - rem) / 3 + 1
            } else {
                (x - rem) / 3
            };
            let dv: i8 = if negative {
                -t
            } else {
                t
            };
            let d = Digit::from_i8(dv);
            let ghost old_g = g;
            proof {
                g = |k: int| if k == bit { dv as int } else { old_g(k) };
                lemma_lsb_value_ext(old_g, g, bit as nat);
                assert forall|j: u32| j < bit implies bct_trit(pos, neg, j as int) == g(j as int) by {
                    assert(bct_trit(pos, neg, j as int) == old_g(j as int));
                }
            }
            let r = write_bct(pos, neg, bit, d);
            proof {
                lemma_masks_step(pos, neg, r, g, bit);
                let k = bit as nat;
                assert(pow3(k + 1) == 3 * pow3(k));
                assert(x * pow3(k) == next * pow3(k + 1) + t * pow3(k)) by (nonlinear_arith)
                    requires
                        x == 3 * next + t,
                        pow3(k + 1) == 3 * pow3(k),
                ;
                if negative {
                    assert(dv * pow3(k) == -(t * pow3(k))) by (nonlinear_arith)
                        requires
                            dv == -t,
                    ;
                }
            }
            pos = r.0;
            neg = r.1;
            x = next;
            bit += 1;
        }
        let t = BctTer32 { pos, neg };
        proof {
            lemma_masks_done(pos, neg, g);
            lemma_bct_value(pos, neg);
            lemma_lsb_value_ext(g, bct_trits(pos, neg), 32);
            if negative {
                assert(-(x * pow3(32)) == (-(x as int)) * pow3(32)) by (nonlinear_arith);
                lemma_wrap_unique(v as int, -(x as int), value(t@), 32);
            } else {
                lemma_wrap_unique(v as int, x as int, value(t@), 32);
            }
        }
        t
    }

    /// The value as an `i64`.
    pub fn to_dec(&self) -> (r: i64)
        ensures
            r == value(self@),
    {
        proof {
            lemma_bct_value(self.pos, self.neg);
            crate::tryte::lemma_bound_fits(32);
        }
        let mut val: i64 = 0;
        let mut i: u32 = 0;
        while i < 32
            invariant
                i <= 32,
                self@.len() == 32,
                self@ == bct_digits(self.pos, self.neg),
                val == value(self@.take(i as int)),
                2 * abs_int(value(self@)) <= pow3(32) - 1,
                pow3(32) <= 12157665459056928801,
            decreases 32 - i,
        {
            let d = read_bct(self.pos, self.neg, 31 - i);
            proof {
                lemma_value_take_abs(self@, i + 1);
                assert(self@.take(i + 1).drop_last() =~= self@.take(i as int));
                assert(self@[i as int] == d);
            }
            val = val * 3 + d.to_i8() as i64;
            i += 1;
        }
        assert(self@.take(32) =~= self@);
        val
    }

    /// The low 32 digits of `t`, right-aligned and zero-padded on the left.
    pub fn from_ternary(t: &Ternary) -> (r: BctTer32)
        ensures
            r@ == pad_left(
                t@.skip(t@.len() - (if t@.len() < 32 { t@.len() as int } else { 32 })),
                32,
            ),
    {
        let digits = t.to_digit_slice();
        let n = digits.len();
        let len: usize = if n < 32 {
            n
        } else {
            32
        };
        let ghost src = t@.skip(n - len);
        let ghost target = pad_left(src, 32);
        let ghost g: spec_fn(int) -> int = |k: int| if k < len { src[len - 1 - k].val() } else { 0 };
        let mut pos: u32 = 0;
        let mut neg: u32 = 0;
        proof {
            lemma_masks_start(g);
        }
        let mut bit: usize = 0;
        while bit < 32
            invariant
                bit <= 32,
                n == digits@.len(),
                digits@ == t@,
                len <= n,
                len <= 32,
                len == (if n < 32 { n } else { 32 }),
                src == t@.skip(n - len),
                g == (|k: int| if k < len { src[len - 1 - k].val() } else { 0 }),
                masks_hold(pos, neg, g, bit as u32),
            decreases 32 - bit,
        {
            let d = if bit < len {
                digits[n - 1 - bit]
            } else {
                Digit::Zero
            };
            let r = write_bct(pos, neg, bit as u32, d);
            proof {
                if bit < len {
                    assert(src[len - 1 - bit] == digits@[n - 1 - bit]);
                }
                lemma_masks_step(pos, neg, r, g, bit as u32);
            }
            pos = r.0;
            neg = r.1;
            bit += 1;
        }
        let r = BctTer32 { pos, neg };
        proof {
            lemma_masks_done(pos, neg, g);
            assert forall|i: int| 0 <= i < 32 implies r@[i] == target[i] by {
                if i >= 32 - len {
                    assert(target[i] == src[i - (32 - len)]);
                } else {
                    assert(target[i] == Digit::Zero);
                }
            }
            assert(r@ =~= target);
        }
        r
    }

    /// The 32 digits as a `Ternary`.
    pub fn to_ternary(&self) -> (t: Ternary)
        ensures
            t@ == self@,
    {
        proof {
            lemma_bct_value(self.pos, self.neg);
        }
        let t = fixed_ternary(self.to_dec(), 32);
        proof {
            lemma_fixed_unique(t@, self@);
        }
        t
    }
}

impl BctTer32 {
    /// Every trit negated: the two masks swap.
    pub fn bct_neg(self) -> (t: BctTer32)
        ensures
            t@.len() == 32,
            forall|i: int| 0 <= i < 32 ==> t@[i] == self@[i].negated(),
            value(t@) == -value(self@),
    {
        proof {
            use_type_invariant(self);
            lemma_bct_disjoint(self.pos, self.neg, self.pos, self.neg, 0);
        }
        let t = BctTer32 { pos: self.neg, neg: self.pos };
        proof {
            assert forall|i: int| 0 <= i < 32 implies t@[i] == self@[i].negated() by {
                lemma_bits32(self.pos, self.neg, 0, (31 - i) as u32);
            }
            assert(t@ =~= crate::model::negate_seq(self@));
            crate::model::lemma_value_negate(self@);
        }
        t
    }

    /// Trit-wise minimum (Kleene AND).
    pub fn bct_and(self, other: BctTer32) -> (t: BctTer32)
        ensures
            t@.len() == 32,
            forall|i: int| 0 <= i < 32 ==> t@[i] == self@[i].min_digit(other@[i]),
    {
        proof {
            use_type_invariant(self);
            use_type_invariant(other);
            lemma_bct_disjoint(self.pos, self.neg, other.pos, other.neg, 0);
        }
        let t = BctTer32 { pos: self.pos & other.pos, neg: self.neg | other.neg };
        proof {
            assert forall|i: int| 0 <= i < 32 implies t@[i] == self@[i].min_digit(other@[i]) by {
                let k = (31 - i) as u32;
                lemma_bits32(self.pos, other.pos, 0, k);
                lemma_bits32(self.neg, other.neg, 0, k);
                lemma_bits32(self.pos, self.neg, 0, k);
                lemma_bits32(other.pos, other.neg, 0, k);
            }
        }
        t
    }

    /// Trit-wise maximum (Kleene OR).
    pub fn bct_or(self, other: BctTer32) -> (t: BctTer32)
        ensures
            t@.len() == 32,
            forall|i: int| 0 <= i < 32 ==> t@[i] == self@[i].max_digit(other@[i]),
    {
        proof {
            use_type_invariant(self);
            use_type_invariant(other);
            lemma_bct_disjoint(self.pos, self.neg, other.pos, other.neg, 0);
        }
        let t = BctTer32 { pos: self.pos | other.pos, neg: self.neg & other.neg };
        proof {
            assert forall|i: int| 0 <= i < 32 implies t@[i] == self@[i].max_digit(other@[i]) by {
                let k = (31 - i) as u32;
                lemma_bits32(self.pos, other.pos, 0, k);
                lemma_bits32(self.neg, other.neg, 0, k);
                lemma_bits32(self.pos, self.neg, 0, k);
                lemma_bits32(other.pos, other.neg, 0, k);
            }
        }
        t
    }

    /// Trit-wise `-(a * b)` (Kleene XOR).
    pub fn bct_xor(self, other: BctTer32) -> (t: BctTer32)
        ensures
            t@.len() == 32,
            forall|i: int|
                0 <= i < 32 ==> t@[i] == digit_of(-(self@[i].val() * other@[i].val())),
    {
        proof {
            use_type_invariant(self);
            use_type_invariant(other);
            lemma_bct_disjoint(self.pos, self.neg, other.pos, other.neg, 0);
        }
        let p = (self.pos & other.neg) | (self.neg & other.pos);
        let n = (self.pos & other.pos) | (self.neg & other.neg);
        let t = BctTer32 { pos: p, neg: n };
        proof {
            assert forall|i: int|
                0 <= i < 32 implies t@[i] == digit_of(-(self@[i].val() * other@[i].val())) by {
                let k = (31 - i) as u32;
                lemma_bits32(self.pos, other.neg, 0, k);
                lemma_bits32(self.neg, other.pos, 0, k);
                lemma_bits32(self.pos, other.pos, 0, k);
                lemma_bits32(self.neg, other.neg, 0, k);
                lemma_bits32(self.pos & other.neg, self.neg & other.pos, 0, k);
                lemma_bits32(self.pos & other.pos, self.neg & other.neg, 0, k);
                lemma_bits32(self.pos, self.neg, 0, k);
                lemma_bits32(other.pos, other.neg, 0, k);
                let x = self@[i].val();
                let y = other@[i].val();
                assert(x == 0 || y == 0 ==> x * y == 0);
                assert(x == 1 && y == 1 ==> x * y == 1);
                assert(x == -1 && y == -1 ==> x * y == 1);
                assert(x == 1 && y == -1 ==> x * y == -1);
                assert(x == -1 && y == 1 ==> x * y == -1);
            }
        }
        t
    }

    /// Trit-wise consensus: a trit survives where both agree, else `Zero`.
    pub fn bct_consensus(self, other: BctTer32) -> (t: BctTer32)
        ensures
            t@.len() == 32,
            forall|i: int| 0 <= i < 32 ==> t@[i] == self@[i].consensus(other@[i]),
    {
        proof {
            use_type_invariant(self);
            use_type_invariant(other);
            lemma_bct_disjoint(self.pos, self.neg, other.pos, other.neg, 0);
        }
        let t = BctTer32 { pos: self.pos & other.pos, neg: self.neg & other.neg };
        proof {
            assert forall|i: int| 0 <= i < 32 implies t@[i] == self@[i].consensus(other@[i]) by {
                let k = (31 - i) as u32;
                lemma_bits32(self.pos, other.pos, 0, k);
                lemma_bits32(self.neg, other.neg, 0, k);
                lemma_bits32(self.pos, self.neg, 0, k);
                lemma_bits32(other.pos, other.neg, 0, k);
            }
        }
        t
    }

    /// Trit-wise accept-anything: the sign of the sum of the two trits.
    pub fn bct_accept_anything(self, other: BctTer32) -> (t: BctTer32)
        ensures
            t@.len() == 32,
            forall|i: int| 0 <= i < 32 ==> t@[i] == self@[i].accept_anything(other@[i]),
    {
        proof {
            use_type_invariant(self);
            use_type_invariant(other);
            lemma_bct_disjoint(self.pos, self.neg, other.pos, other.neg, 0);
        }
        let p = (self.pos & !other.neg) | (other.pos & !self.neg);
        let n = (self.neg & !other.pos) | (other.neg & !self.pos);
        let t = BctTer32 { pos: p, neg: n };
        proof {
            assert forall|i: int| 0 <= i < 32 implies t@[i] == self@[i].accept_anything(other@[i]) by {
                let k = (31 - i) as u32;
                lemma_bits32(other.neg, 0, 0, k);
                lemma_bits32(self.neg, 0, 0, k);
                lemma_bits32(other.pos, 0, 0, k);
                lemma_bits32(self.pos, 0, 0, k);
                lemma_bits32(self.pos, !other.neg, 0, k);
                lemma_bits32(other.pos, !self.neg, 0, k);
                lemma_bits32(self.neg, !other.pos, 0, k);
                lemma_bits32(other.neg, !self.pos, 0, k);
                lemma_bits32(self.pos & !other.neg, other.pos & !self.neg, 0, k);
                lemma_bits32(self.neg & !other.pos, other.neg & !self.pos, 0, k);
                lemma_bits32(self.pos, self.neg, 0, k);
                lemma_bits32(other.pos, other.neg, 0, k);
            }
        }
        t
    }

    /// The 32 digits, most significant first.
    pub fn to_digits(&self) -> (v: Vec<Digit>)
        ensures
            v@ == self@,
    {
        proof {
            lemma_bct_value(self.pos, self.neg);
        }
        let mut v: Vec<Digit> = Vec::new();
        let mut i: u32 = 0;
        while i < 32
            invariant
                i <= 32,
                self@.len() == 32,
                self@ == bct_digits(self.pos, self.neg),
                v@ == self@.take(i as int),
            decreases 32 - i,
        {
            let d = read_bct(self.pos, self.neg, 31 - i);
            v.push(d);
            i += 1;
            assert(v@ =~= self@.take(i as int));
        }
        assert(self@.take(32) =~= self@);
        v
    }

    /// The digit at `index` counted from the right; `None` past the last digit.
    pub fn digit(&self, index: usize) -> (d: Option<Digit>)
        ensures
            index < 32 ==> d == Some(self@[31 - index]),
            index >= 32 ==> d.is_none(),
    {
        if index >= 32 {
            return None;
        }
        Some(read_bct(self.pos, self.neg, index as u32))
    }

    /// Applies `f` to every digit.
    pub fn each<F: Fn(Digit) -> Digit>(&self, f: F) -> (t: BctTer32)
        requires
            forall|i: int| 0 <= i < 32 ==> f.requires((self@[i],)),
        ensures
            t@.len() == 32,
            forall|i: int| 0 <= i < 32 ==> f.ensures((self@[i],), t@[i]),
    {
        let mut pos: u32 = 0;
        let mut neg: u32 = 0;
        let ghost mut g: spec_fn(int) -> int = |k: int| 0int;
        proof {
            lemma_masks_start(g);
        }
        let mut bit: u32 = 0;
        while bit < 32
            invariant
                bit <= 32,
                masks_hold(pos, neg, g, bit),
                forall|i: int| 0 <= i < 32 ==> f.requires((self@[i],)),
                forall|j: int|
                    0 <= j < bit ==> f.ensures(
                        (digit_of(bct_trit(self.pos, self.neg, j)),),
                        digit_of(#[trigger] g(j)),
                    ),
            decreases 32 - bit,
        {
            let d = read_bct(self.pos, self.neg, bit);
            assert(self@[31 - bit] == d);
            let e = f(d);
            let ghost old_g = g;
            proof {
                g = |k: int| if k == bit { e.val() } else { old_g(k) };
                assert forall|j: u32| j < bit implies bct_trit(pos, neg, j as int) == g(j as int) by {
                    assert(bct_trit(pos, neg, j as int) == old_g(j as int));
                }
                assert(digit_of(e.val()) == e);
            }
            let r = write_bct(pos, neg, bit, e);
            proof {
                lemma_masks_step(pos, neg, r, g, bit);
            }
            pos = r.0;
            neg = r.1;
            bit += 1;
        }
        let t = BctTer32 { pos, neg };
        proof {
            lemma_masks_done(pos, neg, g);
        }
        t
    }
}

impl BctTer32 {
    /// Applies `f` to every digit together with the fixed digit `with`.
    pub fn each_with<F: Fn(Digit, Digit) -> Digit>(&self, f: F, with: Digit) -> (t: BctTer32)
        requires
            forall|i: int| 0 <= i < 32 ==> f.requires((self@[i], with)),
        ensures
            t@.len() == 32,
            forall|i: int| 0 <= i < 32 ==> f.ensures((self@[i], with), t@[i]),
    {
        let mut pos: u32 = 0;
        let mut neg: u32 = 0;
        let ghost mut g: spec_fn(int) -> int = |k: int| 0int;
        proof {
            lemma_masks_start(g);
        }
        let mut bit: u32 = 0;
        while bit < 32
            invariant
                bit <= 32,
                masks_hold(pos, neg, g, bit),
                forall|i: int| 0 <= i < 32 ==> f.requires((self@[i], with)),
                forall|j: int|
                    0 <= j < bit ==> f.ensures(
                        (digit_of(bct_trit(self.pos, self.neg, j)), with),
                        digit_of(#[trigger] g(j)),
                    ),
            decreases 32 - bit,
        {
            let d = read_bct(self.pos, self.neg, bit);
            assert(self@[31 - bit] == d);
            let e = f(d, with);
            let ghost old_g = g;
            proof {
                g = |k: int| if k == bit { e.val() } else { old_g(k) };
                assert forall|j: u32| j < bit implies bct_trit(pos, neg, j as int) == g(j as int) by {
                    assert(bct_trit(pos, neg, j as int) == old_g(j as int));
                }
                assert(digit_of(e.val()) == e);
            }
            let r = write_bct(pos, neg, bit, e);
            proof {
                lemma_masks_step(pos, neg, r, g, bit);
            }
            pos = r.0;
            neg = r.1;
            bit += 1;
        }
        let t = BctTer32 { pos, neg };
        proof {
            lemma_masks_done(pos, neg, g);
        }
        t
    }

    /// Applies `f` to the digits of the two numbers position by position.
    pub fn each_zip<F: Fn(Digit, Digit) -> Digit>(&self, f: F, other: BctTer32) -> (t: BctTer32)
        requires
            forall|i: int| 0 <= i < 32 ==> f.requires((self@[i], other@[i])),
        ensures
            t@.len() == 32,
            forall|i: int| 0 <= i < 32 ==> f.ensures((self@[i], other@[i]), t@[i]),
    {
        let mut pos: u32 = 0;
        let mut neg: u32 = 0;
        let ghost mut g: spec_fn(int) -> int = |k: int| 0int;
        proof {
            lemma_masks_start(g);
        }
        let mut bit: u32 = 0;
        while bit < 32
            invariant
                bit <= 32,
                masks_hold(pos, neg, g, bit),
                forall|i: int| 0 <= i < 32 ==> f.requires((self@[i], other@[i])),
                forall|j: int|
                    0 <= j < bit ==> f.ensures(
                        (
                            digit_of(bct_trit(self.pos, self.neg, j)),
                            digit_of(bct_trit(other.pos, other.neg, j)),
                        ),
                        digit_of(#[trigger] g(j)),
                    ),
            decreases 32 - bit,
        {
            let da = read_bct(self.pos, self.neg, bit);
            let db = read_bct(other.pos, other.neg, bit);
            assert(self@[31 - bit] == da && other@[31 - bit] == db);
            let e = f(da, db);
            let ghost old_g = g;
            proof {
                g = |k: int| if k == bit { e.val() } else { old_g(k) };
                assert forall|j: u32| j < bit implies bct_trit(pos, neg, j as int) == g(j as int) by {
                    assert(bct_trit(pos, neg, j as int) == old_g(j as int));
                }
                assert(digit_of(e.val()) == e);
            }
            let r = write_bct(pos, neg, bit, e);
            proof {
                lemma_masks_step(pos, neg, r, g, bit);
            }
            pos = r.0;
            neg = r.1;
            bit += 1;
        }
        let t = BctTer32 { pos, neg };
        proof {
            lemma_masks_done(pos, neg, g);
        }
        t
    }

    /// Applies `f` to the digit pairs from the least significant up, threading a
    /// carry that starts at `Zero`; `f` returns the next carry and the digit.
    pub fn each_zip_carry<F: Fn(Digit, Digit, Digit) -> (Digit, Digit)>(
        &self,
        f: F,
        other: BctTer32,
    ) -> (t: BctTer32)
        requires
            forall|i: int, c: Digit| 0 <= i < 32 ==> f.requires((self@[i], other@[i], c)),
        ensures
            t@.len() == 32,
            exists|carries: Seq<Digit>|
                {
                    &&& carries.len() == 33
                    &&& carries[32] == Digit::Zero
                    &&& forall|i: int|
                        0 <= i < 32 ==> f.ensures(
                            (self@[i], other@[i], #[trigger] carries[i + 1]),
                            (carries[i], t@[i]),
                        )
                },
    {
        let mut pos: u32 = 0;
        let mut neg: u32 = 0;
        let mut carry = Digit::Zero;
        let ghost mut carries: Seq<Digit> = Seq::new(33, |j: int| Digit::Zero);
        let ghost mut g: spec_fn(int) -> int = |k: int| 0int;
        proof {
            lemma_masks_start(g);
        }
        let mut bit: u32 = 0;
        while bit < 32
            invariant
                bit <= 32,
                masks_hold(pos, neg, g, bit),
                carries.len() == 33,
                carries[32] == Digit::Zero,
                carries[32 - bit] == carry,
                forall|i: int, c: Digit| 0 <= i < 32 ==> f.requires((self@[i], other@[i], c)),
                forall|j: int|
                    0 <= j < bit ==> f.ensures(
                        (
                            digit_of(bct_trit(self.pos, self.neg, j)),
                            digit_of(bct_trit(other.pos, other.neg, j)),
                            #[trigger] carries[32 - j],
                        ),
                        (carries[31 - j], digit_of(g(j))),
                    ),
            decreases 32 - bit,
        {
            let da = read_bct(self.pos, self.neg, bit);
            let db = read_bct(other.pos, other.neg, bit);
            assert(self@[31 - bit] == da && other@[31 - bit] == db);
            let (c, e) = f(da, db, carry);
            let ghost old_g = g;
            proof {
                g = |k: int| if k == bit { e.val() } else { old_g(k) };
                carries = carries.update(31 - bit, c);
                assert forall|j: u32| j < bit implies bct_trit(pos, neg, j as int) == g(j as int) by {
                    assert(bct_trit(pos, neg, j as int) == old_g(j as int));
                }
                assert(digit_of(e.val()) == e);
            }
            let r = write_bct(pos, neg, bit, e);
            proof {
                lemma_masks_step(pos, neg, r, g, bit);
            }
            pos = r.0;
            neg = r.1;
            carry = c;
            bit += 1;
        }
        let t = BctTer32 { pos, neg };
        proof {
            lemma_masks_done(pos, neg, g);
            assert forall|i: int| 0 <= i < 32 implies f.ensures(
                (self@[i], other@[i], #[trigger] carries[i + 1]),
                (carries[i], t@[i]),
            ) by {
                let j = 31 - i;
                assert(32 - j == i + 1);
            }
        }
        t
    }
}

impl Neg for BctTer32 {
    type Output = BctTer32;

    /// Every trit negated.
    fn neg(self) -> (t: BctTer32)
        ensures
            t@.len() == 32,
            forall|i: int| 0 <= i < 32 ==> t@[i] == self@[i].negated(),
            value(t@) == -value(self@),
    {
        self.bct_neg()
    }
}

impl vstd::std_specs::ops::NegSpecImpl for BctTer32 {
    open spec fn obeys_neg_spec() -> bool {
        false
    }

    open spec fn neg_req(self) -> bool {
        true
    }

    open spec fn neg_spec(self) -> BctTer32 {
        arbitrary()
    }
}

impl Not for BctTer32 {
    type Output = BctTer32;

    /// Kleene negation: every trit negated.
    fn not(self) -> (t: BctTer32)
        ensures
            t@.len() == 32,
            forall|i: int| 0 <= i < 32 ==> t@[i] == self@[i].negated(),
            value(t@) == -value(self@),
    {
        self.bct_neg()
    }
}

impl vstd::std_specs::ops::NotSpecImpl for BctTer32 {
    open spec fn obeys_not_spec() -> bool {
        false
    }

    open spec fn not_req(self) -> bool {
        true
    }

    open spec fn not_spec(self) -> BctTer32 {
        arbitrary()
    }
}

impl BitAnd for BctTer32 {
    type Output = BctTer32;

    /// Trit-wise minimum.
    fn bitand(self, rhs: BctTer32) -> (t: BctTer32)
        ensures
            t@.len() == 32,
            forall|i: int| 0 <= i < 32 ==> t@[i] == self@[i].min_digit(rhs@[i]),
    {
        self.bct_and(rhs)
    }
}

impl vstd::std_specs::ops::BitAndSpecImpl for BctTer32 {
    open spec fn obeys_bitand_spec() -> bool {
        false
    }

    open spec fn bitand_req(self, rhs: BctTer32) -> bool {
        true
    }

    open spec fn bitand_spec(self, rhs: BctTer32) -> BctTer32 {
        arbitrary()
    }
}

impl BitOr for BctTer32 {
    type Output = BctTer32;

    /// Trit-wise maximum.
    fn bitor(self, rhs: BctTer32) -> (t: BctTer32)
        ensures
            t@.len() == 32,
            forall|i: int| 0 <= i < 32 ==> t@[i] == self@[i].max_digit(rhs@[i]),
    {
        self.bct_or(rhs)
    }
}

impl vstd::std_specs::ops::BitOrSpecImpl for BctTer32 {
    open spec fn obeys_bitor_spec() -> bool {
        false
    }

    open spec fn bitor_req(self, rhs: BctTer32) -> bool {
        true
    }

    open spec fn bitor_spec(self, rhs: BctTer32) -> BctTer32 {
        arbitrary()
    }
}

impl BitXor for BctTer32 {
    type Output = BctTer32;

    /// Trit-wise `-(a * b)`.
    fn bitxor(self, rhs: BctTer32) -> (t: BctTer32)
        ensures
            t@.len() == 32,
            forall|i: int|
                0 <= i < 32 ==> t@[i] == digit_of(-(self@[i].val() * rhs@[i].val())),
    {
        self.bct_xor(rhs)
    }
}

impl vstd::std_specs::ops::BitXorSpecImpl for BctTer32 {
    open spec fn obeys_bitxor_spec() -> bool {
        false
    }

    open spec fn bitxor_req(self, rhs: BctTer32) -> bool {
        true
    }

    open spec fn bitxor_spec(self, rhs: BctTer32) -> BctTer32 {
        arbitrary()
    }
}

impl Shl<usize> for BctTer32 {
    type Output = BctTer32;

    /// Trits moved `rhs` places toward the most significant end, `Zero` filling
    /// the low places; all `Zero` once `rhs >= 32`.
    fn shl(self, rhs: usize) -> (t: BctTer32)
        ensures
            rhs < 32 ==> t@ == self@.skip(rhs as int) + zeros(rhs as nat),
            rhs >= 32 ==> t@ == zeros(32),
    {
        if rhs >= 32 {
            return Self::zero();
        }
        proof {
            use_type_invariant(self);
            lemma_bct_disjoint(self.pos, self.neg, self.pos, self.neg, rhs as u32);
        }
        let r = rhs as u32;
        let t = BctTer32 { pos: self.pos << r, neg: self.neg << r };
        proof {
            assert forall|i: int| 0 <= i < 32 implies t@[i] == (self@.skip(rhs as int) + zeros(
                rhs as nat,
            ))[i] by {
                let k = (31 - i) as u32;
                lemma_bits32(self.pos, 0, r, k);
                lemma_bits32(self.neg, 0, r, k);
                if i < 32 - rhs {
                    assert(self@[i + rhs] == digit_of(bct_trit(self.pos, self.neg, (k - r) as int)));
                }
            }
            assert(t@ =~= self@.skip(rhs as int) + zeros(rhs as nat));
        }
        t
    }
}

impl vstd::std_specs::ops::ShlSpecImpl<usize> for BctTer32 {
    open spec fn obeys_shl_spec() -> bool {
        false
    }

    open spec fn shl_req(self, rhs: usize) -> bool {
        true
    }

    open spec fn shl_spec(self, rhs: usize) -> BctTer32 {
        arbitrary()
    }
}

impl Shr<usize> for BctTer32 {
    type Output = BctTer32;

    /// Trits moved `rhs` places toward the least significant end, `Zero`
    /// filling the high places; all `Zero` once `rhs >= 32`.
    fn shr(self, rhs: usize) -> (t: BctTer32)
        ensures
            rhs < 32 ==> t@ == zeros(rhs as nat) + self@.take(32 - rhs),
            rhs >= 32 ==> t@ == zeros(32),
    {
        if rhs >= 32 {
            return Self::zero();
        }
        proof {
            use_type_invariant(self);
            lemma_bct_disjoint(self.pos, self.neg, self.pos, self.neg, rhs as u32);
        }
        let r = rhs as u32;
        let t = BctTer32 { pos: self.pos >> r, neg: self.neg >> r };
        proof {
            assert forall|i: int| 0 <= i < 32 implies t@[i] == (zeros(rhs as nat) + self@.take(
                32 - rhs,
            ))[i] by {
                let k = (31 - i) as u32;
                lemma_bits32(self.pos, 0, r, k);
                lemma_bits32(self.neg, 0, r, k);
                if i >= rhs {
                    assert(self@[i - rhs] == digit_of(bct_trit(self.pos, self.neg, (k + r) as int)));
                }
            }
            assert(t@ =~= zeros(rhs as nat) + self@.take(32 - rhs));
        }
        t
    }
}

impl vstd::std_specs::ops::ShrSpecImpl<usize> for BctTer32 {
    open spec fn obeys_shr_spec() -> bool {
        false
    }

    open spec fn shr_req(self, rhs: usize) -> bool {
        true
    }

    open spec fn shr_spec(self, rhs: usize) -> BctTer32 {
        arbitrary()
    }
}

impl Mul for BctTer32 {
    type Output = BctTer32;

    /// The product, wrapped into 32 trits; it must fit an `i64`.
    fn mul(self, rhs: BctTer32) -> (t: BctTer32)
        ensures
            value(t@) == wrap(value(self@) * value(rhs@), 32),
    {
        BctTer32::from_dec(self.to_dec() * rhs.to_dec())
    }
}

impl vstd::std_specs::ops::MulSpecImpl for BctTer32 {
    open spec fn obeys_mul_spec() -> bool {
        false
    }

    open spec fn mul_req(self, rhs: BctTer32) -> bool {
        i64::MIN <= value(self@) * value(rhs@) <= i64::MAX
    }

    open spec fn mul_spec(self, rhs: BctTer32) -> BctTer32 {
        arbitrary()
    }
}

impl Div for BctTer32 {
    type Output = BctTer32;

    /// The quotient rounded toward zero; the divisor must not be zero.
    fn div(self, rhs: BctTer32) -> (t: BctTer32)
        ensures
            value(t@) == trunc_div(value(self@), value(rhs@)),
    {
        proof {
            lemma_bct_value(self.pos, self.neg);
            lemma_bct_value(rhs.pos, rhs.neg);
            crate::tryte::lemma_bound_fits(32);
        }
        let x = self.to_dec();
        let y = rhs.to_dec();
        let q = magnitude(x) / magnitude(y);
        proof {
            vstd::arithmetic::div_mod::lemma_div_is_ordered_by_denominator(
                abs_int(x as int),
                1,
                abs_int(y as int),
            );
        }
        let qi = q as i64;
        let r = if (x < 0) == (y < 0) {
            qi
        } else {
            -qi
        };
        proof {
            lemma_wrap_in_range(r as int, 32);
        }
        BctTer32::from_dec(r)
    }
}

impl vstd::std_specs::ops::DivSpecImpl for BctTer32 {
    open spec fn obeys_div_spec() -> bool {
        false
    }

    open spec fn div_req(self, rhs: BctTer32) -> bool {
        value(rhs@) != 0
    }

    open spec fn div_spec(self, rhs: BctTer32) -> BctTer32 {
        arbitrary()
    }
}

/// The low bit of every pair of an interleaved word.
const MASK_L: u64 = 0x5555_5555_5555_5555;

/// The high bit of every pair of an interleaved word.
const MASK_H: u64 = 0xAAAA_AAAA_AAAA_AAAA;

/// Moves bit `i` of `x` to bit `2i`.
fn spread_u32(x: u32) -> (r: u64)
    ensures
        r == spread_spec(x),
{
    let mut x = x as u64;
    x = (x | (x << 16)) & 0x0000_FFFF_0000_FFFF;
    x = (x | (x << 8)) & 0x00FF_00FF_00FF_00FF;
    x = (x | (x << 4)) & 0x0F0F_0F0F_0F0F_0F0F;
    x = (x | (x << 2)) & 0x3333_3333_3333_3333;
    x = (x | (x << 1)) & 0x5555_5555_5555_5555;
    x
}

/// Moves bit `2i` of `x` to bit `i`.
fn compact_u64(x: u64) -> (r: u32)
    ensures
        r == compact_spec(x),
{
    let mut x = x & 0x5555_5555_5555_5555;
    x = (x | (x >> 1)) & 0x3333_3333_3333_3333;
    x = (x | (x >> 2)) & 0x0F0F_0F0F_0F0F_0F0F;
    x = (x | (x >> 4)) & 0x00FF_00FF_00FF_00FF;
    x = (x | (x >> 8)) & 0x0000_FFFF_0000_FFFF;
    x = (x | (x >> 16)) & 0x0000_0000_FFFF_FFFF;
    x as u32
}

/// The codes of the trit-wise logic of two valid words, pair by pair, with
/// the full mask.
proof fn lemma_il_logic(a: u64, b: u64, k: int)
    requires
        0 <= k < 32,
        pair64(a, (2 * k) as u64) < 3,
        pair64(b, (2 * k) as u64) < 3,
    ensures
        ({
            let s = (2 * k) as u64;
            let ca = pair64(a, s) as int;
            let cb = pair64(b, s) as int;
            &&& pair64(il_neg64(a, MASK_L), s) == 2 - ca
            &&& pair64(il_and64(a, b, MASK_L), s) == code_and(ca, cb)
            &&& pair64(il_or64(a, b, MASK_L), s) == code_or(ca, cb)
            &&& pair64(il_xor64(a, b, MASK_L), s) == code_xor(ca, cb)
            &&& pair64(il_consensus64(a, b, MASK_L), s) == code_consensus(ca, cb)
            &&& pair64(il_accept64(a, b, MASK_L), s) == code_accept(ca, cb)
        }),
{
    let s = (2 * k) as u64;
    lemma_il_word64(a, 0, s);
    lemma_il64(a, b, MASK_L, s);
}

/// Low and high halves of the mask of the low pair bits.
pub open spec fn low_pairs_mask(k: u64) -> u64 {
    ((1u64 << (2 * k) as u64) - 1) as u64
}

/// The word of the `11` pairs of a 64-bit word: empty in a pair whose code is
/// below three, and empty as a whole once it is empty pair by pair from the
/// lowest.
pub open spec fn pairs3_word(w: u64) -> u64 {
    w & (w >> 1u64) & 0x5555_5555_5555_5555u64
}

proof fn lemma_pair_bits64(w: u64, k: u64)
    by (bit_vector)
    requires
        k <= 31,
    ensures
        (w >> (2 * k) as u64) & 3 < 3 ==> (pairs3_word(w) >> (2 * k) as u64) & 3 == 0,
        pairs3_word(w) & low_pairs_mask(0) == 0,
        k < 31 ==> (pairs3_word(w) & low_pairs_mask(k) == 0 && (pairs3_word(w) >> (2 * k) as u64)
            & 3 == 0 ==> pairs3_word(w) & low_pairs_mask((k + 1) as u64) == 0),
        pairs3_word(w) & low_pairs_mask(31) == 0 && (pairs3_word(w) >> 62u64) & 3 == 0
            ==> pairs3_word(w) == 0,
{
}

/// The low `k` pairs of the word of `11` pairs of a valid word are empty.
proof fn lemma_no_pair3_low(w: u64, k: u64)
    requires
        il_valid64(w, 32),
        k <= 31,
    ensures
        pairs3_word(w) & low_pairs_mask(k) == 0,
    decreases k,
{
    lemma_pair_bits64(w, 0);
    if k > 0 {
        let j = (k - 1) as u64;
        lemma_no_pair3_low(w, j);
        lemma_pair_bits64(w, j);
        assert(pair64(w, (2 * j) as u64) < 3);
    }
}

/// A valid 32-trit interleaved word has no `11` pair, as a word identity.
proof fn lemma_no_pair3(w: u64)
    requires
        il_valid64(w, 32),
    ensures
        w & (w >> 1u64) & 0x5555_5555_5555_5555u64 == 0,
{
    lemma_no_pair3_low(w, 31);
    lemma_pair_bits64(w, 31);
    assert(pair64(w, 62) < 3);
}

/// The Jones addition of two 32-trit words, carried out in 128 bits since
/// the sum of two words may need a 65th bit.
pub open spec fn jones_c32(a: u64) -> u128 {
    (a as u128 + 0x5555_5555_5555_5555u128) as u128
}

pub open spec fn jones_d32(a: u64, b: u64) -> u128 {
    (b as u128 + jones_c32(a)) as u128
}

/// The carries into each bit of the binary sum.
pub open spec fn jones_e32(a: u64, b: u64) -> u128 {
    (b as u128) ^ jones_c32(a) ^ jones_d32(a, b)
}

/// One in the low bit of every pair that did not carry out.
pub open spec fn jones_f32(a: u64, b: u64) -> u128 {
    (!jones_e32(a, b) & 0x1_5555_5555_5555_5554u128) >> 2u128
}

pub open spec fn jones_r32(a: u64, b: u64) -> u64 {
    ((((jones_d32(a, b) - jones_f32(a, b)) as u128) & 0xFFFF_FFFF_FFFF_FFFFu128) as u64)
}

/// Each pair of the 32-trit Jones sum is the sum of the pairs and the
/// incoming carry, less three times the outgoing carry.
proof fn lemma_jones32(a: u64, b: u64, s: u64)
    by (bit_vector)
    requires
        a & (a >> 1u64) & 0x5555_5555_5555_5555u64 == 0,
        b & (b >> 1u64) & 0x5555_5555_5555_5555u64 == 0,
        s % 2 == 0,
        s <= 62,
    ensures
        jones_f32(a, b) <= jones_d32(a, b),
        jones_r32(a, b) & (jones_r32(a, b) >> 1u64) & 0x5555_5555_5555_5555u64 == 0,
        (jones_e32(a, b) >> 0u128) & 1u128 == 0,
        (jones_e32(a, b) >> ((s + 2) as u128)) & 1u128 <= 1,
        ((a >> s) & 3u64) + ((b >> s) & 3u64) + ((jones_e32(a, b) >> (s as u128)) & 1u128) == ((
        jones_r32(a, b) >> s) & 3u64) + 3 * ((jones_e32(a, b) >> ((s + 2) as u128)) & 1u128),
{
}

/// The sum of two 32-digit unsigned words modulo `3^32`, by the Jones carry
/// trick in 128 bits.
fn uter_add32(a: u64, b: u64) -> (r: u64)
    requires
        il_valid64(a, 32),
        il_valid64(b, 32),
    ensures
        il_valid64(r, 32),
        lsb_value(ucodes64(r), 32) == (lsb_value(ucodes64(a), 32) + lsb_value(ucodes64(b), 32))
            % 1853020188851841,
{
    proof {
        lemma_no_pair3(a);
        lemma_no_pair3(b);
        lemma_jones32(a, b, 0);
    }
    let c = a as u128 + 0x5555_5555_5555_5555u128;
    let d = b as u128 + c;
    let e = (b as u128) ^ c ^ d;
    let f = (!e & 0x1_5555_5555_5555_5554u128) >> 2;
    let r = ((d - f) & 0xFFFF_FFFF_FFFF_FFFFu128) as u64;
    proof {
        assert(c == jones_c32(a));
        assert(d == jones_d32(a, b));
        assert(r == jones_r32(a, b));
        let carry = |k: int| ((e >> (2 * k) as u128) & 1u128) as int;
        assert forall|k: int| 0 <= k < 32 implies ucodes64(a)(k) + ucodes64(b)(k) + carry(k)
            == #[trigger] ucodes64(r)(k) + 3 * carry(k + 1) by {
            lemma_jones32(a, b, (2 * k) as u64);
            assert((2 * k + 2) as u128 == (2 * (k + 1)) as u128);
            assert(((2 * k) as u64) as u128 == (2 * k) as u128);
        }
        lemma_ripple(ucodes64(a), ucodes64(b), carry, ucodes64(r), 32);
        lemma_jones32(a, b, 62);
        assert(carry(32) <= 1);
        assert forall|k: int| 0 <= k < 32 implies #[trigger] pair64(r, (2 * k) as u64) < 3 by {
            lemma_il_word64(r, 0, (2 * k) as u64);
        }
        assert forall|k: int| 0 <= k < 32 implies 0 <= #[trigger] ucodes64(r)(k) <= 2 by {
            assert(pair64(r, (2 * k) as u64) < 3);
        }
        lemma_ucodes_bound(ucodes64(r), 32);
        crate::packed::lemma_pow3_32();
        assert(lsb_value(ucodes64(a), 32) + lsb_value(ucodes64(b), 32) == carry(32)
            * 1853020188851841 + lsb_value(ucodes64(r), 32));
        vstd::arithmetic::div_mod::lemma_fundamental_div_mod_converse(
            lsb_value(ucodes64(a), 32) + lsb_value(ucodes64(b), 32),
            1853020188851841,
            carry(32),
            lsb_value(ucodes64(r), 32),
        );
    }
    r
}

/// 32 balanced trits interleaved in one word: trit `k` lives in the bit pair
/// `(2k+1, 2k)` as `00` (`Neg`), `01` (`Zero`) or `10` (`Pos`).
#[derive(Copy, Clone, Debug, PartialEq, Eq, Hash)]
pub struct IlBctTer32(u64);

impl View for IlBctTer32 {
    type V = Seq<Digit>;

    closed spec fn view(&self) -> Seq<Digit> {
        il_digits64(self.0, 32)
    }
}

impl IlBctTer32 {
    /// The number has 32 digits.
    pub proof fn lemma_len(&self)
        ensures
            self@.len() == 32,
    {
    }
}

impl IlBctTer32 {
    #[verifier::type_invariant]
    spec fn well_formed(self) -> bool {
        il_valid64(self.0, 32)
    }

    /// The raw word, in specifications.
    pub closed spec fn word(self) -> u64 {
        self.0
    }

    /// A valid word with its digits.
    fn from_valid(w: u64) -> (t: IlBctTer32)
        requires
            il_valid64(w, 32),
        ensures
            t.word() == w,
            t@ == il_digits64(w, 32),
    {
        IlBctTer32(w)
    }

    /// All trits `Zero`: every pair `01`.
    pub fn zero() -> (t: IlBctTer32)
        ensures
            t.word() == 0x5555_5555_5555_5555,
            t@ == zeros(32),
            value(t@) == 0,
    {
        proof {
            assert forall|k: int| 0 <= k < 32 implies #[trigger] pair64(MASK_L, (2 * k) as u64) == 1 by {
                lemma_il_word64(0, 0, (2 * k) as u64);
            }
        }
        let t = Self::from_valid(MASK_L);
        proof {
            assert(t@ =~= zeros(32));
            crate::model::lemma_value_zeros(32);
        }
        t
    }

    /// All trits `Pos`: every pair `10`.
    pub fn maximum() -> (t: IlBctTer32)
        ensures
            t.word() == 0xAAAA_AAAA_AAAA_AAAA,
            t@ == Seq::new(32, |i: int| Digit::Pos),
            value(t@) == max_value(32),
    {
        proof {
            assert forall|k: int| 0 <= k < 32 implies #[trigger] pair64(MASK_H, (2 * k) as u64) == 2 by {
                lemma_il_word64(0, 0, (2 * k) as u64);
            }
        }
        let t = Self::from_valid(MASK_H);
        proof {
            assert(t@ =~= Seq::new(32, |i: int| Digit::Pos));
            crate::tryte::lemma_value_all(Digit::Pos, 32);
        }
        t
    }

    /// All trits `Neg`: every pair `00`.
    pub fn minimum() -> (t: IlBctTer32)
        ensures
            t.word() == 0,
            t@ == Seq::new(32, |i: int| Digit::Neg),
            value(t@) == -max_value(32),
    {
        proof {
            assert forall|k: int| 0 <= k < 32 implies #[trigger] pair64(0, (2 * k) as u64) == 0 by {
                lemma_il_word64(0, 0, (2 * k) as u64);
            }
        }
        let t = Self::from_valid(0);
        proof {
            assert(t@ =~= Seq::new(32, |i: int| Digit::Neg));
            crate::tryte::lemma_value_all(Digit::Neg, 32);
        }
        t
    }

    /// The number of a raw word; no pair may hold the code `11`.
    pub fn from_raw(word: u64) -> (t: IlBctTer32)
        requires
            word & (word >> 1) & 0x5555_5555_5555_5555 == 0,
        ensures
            t.word() == word,
            t@ == il_digits64(word, 32),
    {
        proof {
            assert forall|k: int| 0 <= k < 32 implies #[trigger] pair64(word, (2 * k) as u64) < 3 by {
                lemma_il_word64(word, 0, (2 * k) as u64);
            }
        }
        Self::from_valid(word)
    }

    /// The raw word.
    pub fn raw(self) -> (w: u64)
        ensures
            w == self.word(),
            self@ == il_digits64(w, 32),
    {
        self.0
    }

    /// The low 32 balanced trits of `v`: `v` itself when it fits.
    pub fn from_dec(v: i64) -> (t: IlBctTer32)
        ensures
            value(t@) == wrap(v as int, 32),
    {
        let negative = v < 0;
        let mut x: u64 = if negative {
            (0i128 - v as i128) as u64
        } else {
            v as u64
        };
        let mut word: u64 = 0;
        let ghost mut g: spec_fn(int) -> int = |k: int| 0int;
        proof {
            lemma_il_start64(g);
        }
        let mut k: u64 = 0;
        while k < 32
            invariant
                k <= 32,
                x <= 0x8000_0000_0000_0000,
                il_holds64(word, g, k as int),
                is_trits(g, k as nat),
                !negative ==> v == x * pow3(k as nat) + lsb_value(g, k as nat),
                negative ==> v == -(x * pow3(k as nat)) + lsb_value(g, k as nat),
            decreases 32 - k,
        {
            let rem = x % 3;
            let t: i8 = if rem == 2 {
                -1
            } else {
                rem as i8
            };
            let next: u64 = if rem == 2 {
                (x - rem) / 3 + 1
            } else {
                (x - rem) / 3
            };
            let dv: i8 = if negative {
                -t
            } else {
                t
            };
            let d = Digit::from_i8(dv);
            let ghost old_g = g;
            proof {
                g = |j: int| if j == k { dv as int } else { old_g(j) };
                lemma_lsb_value_ext(old_g, g, k as nat);
                assert forall|j: int| 0 <= j < k implies #[trigger] pair64(word, (2 * j) as u64) == g(j) + 1 by {
                    assert(pair64(word, (2 * j) as u64) == old_g(j) + 1);
                }
            }
            let r = write_il64(word, k, d);
            proof {
                lemma_il_step64(word, r, g, k as int);
                let n = k as nat;
                assert(pow3(n + 1) == 3 * pow3(n));
                assert(x * pow3(n) == next * pow3(n + 1) + t * pow3(n)) by (nonlinear_arith)
                    requires
                        x == 3 * next + t,
                        pow3(n + 1) == 3 * pow3(n),
                ;
                if negative {
                    assert(dv * pow3(n) == -(t * pow3(n))) by (nonlinear_arith)
                        requires
                            dv == -t,
                    ;
                }
            }
            word = r;
            x = next;
            k += 1;
        }
        proof {
            lemma_il_done64(word, g, 32);
            lemma_il_value64(word, 32);
        }
        let t = Self::from_valid(word);
        proof {
            if negative {
                assert(-(x * pow3(32)) == (-(x as int)) * pow3(32)) by (nonlinear_arith);
                lemma_wrap_unique(v as int, -(x as int), value(t@), 32);
            } else {
                lemma_wrap_unique(v as int, x as int, value(t@), 32);
            }
        }
        t
    }

    /// The value as an `i64`.
    pub fn to_dec(&self) -> (r: i64)
        ensures
            r == value(self@),
    {
        proof {
            use_type_invariant(self);
            lemma_il_value64(self.0, 32);
            crate::tryte::lemma_bound_fits(32);
        }
        let mut val: i64 = 0;
        let mut i: u64 = 0;
        while i < 32
            invariant
                i <= 32,
                il_valid64(self.0, 32),
                self@.len() == 32,
                self@ == il_digits64(self.0, 32),
                val == value(self@.take(i as int)),
                2 * abs_int(value(self@)) <= pow3(32) - 1,
                pow3(32) <= 12157665459056928801,
            decreases 32 - i,
        {
            let d = read_il64(self.0, 31 - i);
            proof {
                assert(pair64(self.0, (2 * (31 - i)) as u64) < 3);
                lemma_value_take_abs(self@, i + 1);
                assert(self@.take(i + 1).drop_last() =~= self@.take(i as int));
                assert(self@[i as int] == d);
            }
            val = val * 3 + d.to_i8() as i64;
            i += 1;
        }
        assert(self@.take(32) =~= self@);
        val
    }

    /// The 32 digits as a `Ternary`.
    pub fn to_ternary(&self) -> (t: Ternary)
        ensures
            t@ == self@,
    {
        proof {
            use_type_invariant(self);
            lemma_il_value64(self.0, 32);
        }
        let t = fixed_ternary(self.to_dec(), 32);
        proof {
            lemma_fixed_unique(t@, self@);
        }
        t
    }

    /// The interleaved word with the digits of `bct`.
    pub fn from_bct(bct: BctTer32) -> (t: IlBctTer32)
        ensures
            t@ == bct@,
    {
        proof {
            use_type_invariant(bct);
        }
        let pos_e = spread_u32(bct.pos);
        let neg_e = spread_u32(bct.neg);
        let pos_o = pos_e << 1;
        let w = (MASK_L | pos_o) & !(pos_e | neg_e);
        proof {
            assert forall|k: int| 0 <= k < 32 implies #[trigger] pair64(w, (2 * k) as u64)
                == bct_trit(bct.pos, bct.neg, k) + 1 by {
                let i = k as u32;
                let s = (2 * k) as u64;
                lemma_spread_compact(bct.pos, 0, 0, i);
                lemma_spread_compact(bct.neg, 0, 0, i);
                lemma_bits32(bct.pos, bct.neg, 0, i);
                assert(bit64(pos_e, s) == bit32(bct.pos, i));
                assert(bit64(neg_e, s) == bit32(bct.neg, i));
                lemma_il_from_masks(pos_e, neg_e, s);
            }
        }
        let t = Self::from_valid(w);
        proof {
            assert forall|i: int| 0 <= i < 32 implies t@[i] == bct@[i] by {
                assert(pair64(w, (2 * (31 - i)) as u64) == bct_trit(bct.pos, bct.neg, 31 - i) + 1);
            }
            assert(t@ =~= bct@);
        }
        t
    }

    /// The pair of masks with the digits of `self`.
    pub fn to_bct(&self) -> (t: BctTer32)
        ensures
            t@ == self@,
    {
        proof {
            use_type_invariant(self);
        }
        let high = (self.0 >> 1) & MASK_L;
        let low = self.0 & MASK_L;
        let pos = compact_u64(high);
        let neg = compact_u64(MASK_L & !high & !low);
        proof {
            lemma_spread_compact(0, high, MASK_L & !high & !low, 0);
            assert(pair64(self.0, (2 * 0int) as u64) < 3);
            lemma_il_to_masks(self.0, 0);
            assert forall|k: int| 0 <= k < 32 implies bct_trit(pos, neg, k) == il_trit64(self.0, k) by {
                let i = k as u32;
                let s = (2 * k) as u64;
                lemma_spread_compact(0, high, 0, i);
                lemma_spread_compact(0, MASK_L & !high & !low, 0, i);
                assert(pair64(self.0, s) < 3);
                lemma_il_to_masks(self.0, s);
                assert(bit32(pos, i) == bit64(high, s));
                assert(bit32(neg, i) == bit64(MASK_L & !high & !low, s));
            }
        }
        let t = BctTer32 { pos, neg };
        proof {
            assert forall|i: int| 0 <= i < 32 implies t@[i] == self@[i] by {
                assert(bct_trit(pos, neg, 31 - i) == il_trit64(self.0, 31 - i));
            }
            assert(t@ =~= self@);
        }
        t
    }
}

impl Default for BctTer32 {
    /// All trits `Zero`: both masks empty.
    fn default() -> (t: BctTer32)
        ensures
            t@ == zeros(32),
            value(t@) == 0,
    {
        Self::zero()
    }
}

impl Default for IlBctTer32 {
    /// All trits `Zero`.
    fn default() -> (t: IlBctTer32)
        ensures
            t@ == zeros(32),
    {
        Self::zero()
    }
}

impl IlBctTer32 {
    /// Trit-wise negation: `00` and `10` swap, `01` stays.
    pub fn il_neg(self) -> (t: IlBctTer32)
        ensures
            t@.len() == 32,
            forall|i: int| 0 <= i < 32 ==> t@[i] == self@[i].negated(),
    {
        proof {
            use_type_invariant(self);
        }
        let w = il_neg_u64(self.0, MASK_L);
        proof {
            assert(w == il_neg64(self.0, MASK_L));
            assert forall|k: int| 0 <= k < 32 implies #[trigger] pair64(w, (2 * k) as u64) == 2 - pair64(self.0, (2 * k) as u64) as int by {
                assert(pair64(self.0, (2 * k) as u64) < 3);
                assert(pair64(self.0, (2 * k) as u64) < 3);
                lemma_il_logic(self.0, self.0, k);
            }
        }
        let t = Self::from_valid(w);
        proof {
            assert forall|i: int| 0 <= i < 32 implies t@[i] == self@[i].negated() by {
                let k = 31 - i;
                let ca = pair64(self.0, (2 * k) as u64) as int;
                let cb = ca;
                assert(pair64(self.0, (2 * k) as u64) < 3);
                assert(pair64(self.0, (2 * k) as u64) < 3);
                lemma_code_digits(ca, cb);
            }
        }
        t
    }

    /// Trit-wise minimum (Kleene AND).
    pub fn il_and(self, other: IlBctTer32) -> (t: IlBctTer32)
        ensures
            t@.len() == 32,
            forall|i: int| 0 <= i < 32 ==> t@[i] == self@[i].min_digit(other@[i]),
    {
        proof {
            use_type_invariant(self);
            use_type_invariant(other);
        }
        let w = il_and_u64(self.0, other.0, MASK_L);
        proof {
            assert(w == il_and64(self.0, other.0, MASK_L));
            assert forall|k: int| 0 <= k < 32 implies #[trigger] pair64(w, (2 * k) as u64) == code_and(pair64(self.0, (2 * k) as u64) as int, pair64(other.0, (2 * k) as u64) as int) by {
                assert(pair64(self.0, (2 * k) as u64) < 3);
                assert(pair64(other.0, (2 * k) as u64) < 3);
                lemma_il_logic(self.0, other.0, k);
            }
        }
        let t = Self::from_valid(w);
        proof {
            assert forall|i: int| 0 <= i < 32 implies t@[i] == self@[i].min_digit(other@[i]) by {
                let k = 31 - i;
                let ca = pair64(self.0, (2 * k) as u64) as int;
                let cb = pair64(other.0, (2 * k) as u64) as int;
                assert(pair64(self.0, (2 * k) as u64) < 3);
                assert(pair64(other.0, (2 * k) as u64) < 3);
                lemma_code_digits(ca, cb);
            }
        }
        t
    }

    /// Trit-wise maximum (Kleene OR).
    pub fn il_or(self, other: IlBctTer32) -> (t: IlBctTer32)
        ensures
            t@.len() == 32,
            forall|i: int| 0 <= i < 32 ==> t@[i] == self@[i].max_digit(other@[i]),
    {
        proof {
            use_type_invariant(self);
            use_type_invariant(other);
        }
        let w = il_or_u64(self.0, other.0, MASK_L);
        proof {
            assert(w == il_or64(self.0, other.0, MASK_L));
            assert forall|k: int| 0 <= k < 32 implies #[trigger] pair64(w, (2 * k) as u64) == code_or(pair64(self.0, (2 * k) as u64) as int, pair64(other.0, (2 * k) as u64) as int) by {
                assert(pair64(self.0, (2 * k) as u64) < 3);
                assert(pair64(other.0, (2 * k) as u64) < 3);
                lemma_il_logic(self.0, other.0, k);
            }
        }
        let t = Self::from_valid(w);
        proof {
            assert forall|i: int| 0 <= i < 32 implies t@[i] == self@[i].max_digit(other@[i]) by {
                let k = 31 - i;
                let ca = pair64(self.0, (2 * k) as u64) as int;
                let cb = pair64(other.0, (2 * k) as u64) as int;
                assert(pair64(self.0, (2 * k) as u64) < 3);
                assert(pair64(other.0, (2 * k) as u64) < 3);
                lemma_code_digits(ca, cb);
            }
        }
        t
    }

    /// Trit-wise `-(a * b)` (Kleene XOR).
    pub fn il_xor(self, other: IlBctTer32) -> (t: IlBctTer32)
        ensures
            t@.len() == 32,
            forall|i: int| 0 <= i < 32 ==> t@[i] == digit_of(-(self@[i].val() * other@[i].val())),
    {
        proof {
            use_type_invariant(self);
            use_type_invariant(other);
        }
        let w = il_xor_u64(self.0, other.0, MASK_L);
        proof {
            assert(w == il_xor64(self.0, other.0, MASK_L));
            assert forall|k: int| 0 <= k < 32 implies #[trigger] pair64(w, (2 * k) as u64) == code_xor(pair64(self.0, (2 * k) as u64) as int, pair64(other.0, (2 * k) as u64) as int) by {
                assert(pair64(self.0, (2 * k) as u64) < 3);
                assert(pair64(other.0, (2 * k) as u64) < 3);
                lemma_il_logic(self.0, other.0, k);
            }
        }
        let t = Self::from_valid(w);
        proof {
            assert forall|i: int| 0 <= i < 32 implies t@[i] == digit_of(-(self@[i].val() * other@[i].val())) by {
                let k = 31 - i;
                let ca = pair64(self.0, (2 * k) as u64) as int;
                let cb = pair64(other.0, (2 * k) as u64) as int;
                assert(pair64(self.0, (2 * k) as u64) < 3);
                assert(pair64(other.0, (2 * k) as u64) < 3);
                lemma_code_digits(ca, cb);
            }
        }
        t
    }

    /// Trit-wise consensus: a trit survives where both agree, else `Zero`.
    pub fn il_consensus(self, other: IlBctTer32) -> (t: IlBctTer32)
        ensures
            t@.len() == 32,
            forall|i: int| 0 <= i < 32 ==> t@[i] == self@[i].consensus(other@[i]),
    {
        proof {
            use_type_invariant(self);
            use_type_invariant(other);
        }
        let ha = (self.0 >> 1) & MASK_L;
        let la = self.0 & MASK_L;
        let hb = (other.0 >> 1) & MASK_L;
        let lb = other.0 & MASK_L;
        let isneg_a = MASK_L & !ha & !la;
        let isneg_b = MASK_L & !hb & !lb;
        let new_h = ha & hb;
        let is_neg = isneg_a & isneg_b;
        let new_l = MASK_L & !new_h & !is_neg;
        let w = (new_h << 1) | new_l;
        proof {
            assert(w == il_consensus64(self.0, other.0, MASK_L));
            assert forall|k: int| 0 <= k < 32 implies #[trigger] pair64(w, (2 * k) as u64) == code_consensus(pair64(self.0, (2 * k) as u64) as int, pair64(other.0, (2 * k) as u64) as int) by {
                assert(pair64(self.0, (2 * k) as u64) < 3);
                assert(pair64(other.0, (2 * k) as u64) < 3);
                lemma_il_logic(self.0, other.0, k);
            }
        }
        let t = Self::from_valid(w);
        proof {
            assert forall|i: int| 0 <= i < 32 implies t@[i] == self@[i].consensus(other@[i]) by {
                let k = 31 - i;
                let ca = pair64(self.0, (2 * k) as u64) as int;
                let cb = pair64(other.0, (2 * k) as u64) as int;
                assert(pair64(self.0, (2 * k) as u64) < 3);
                assert(pair64(other.0, (2 * k) as u64) < 3);
                lemma_code_digits(ca, cb);
            }
        }
        t
    }

    /// Trit-wise accept-anything: the sign of the sum of the two trits.
    pub fn il_accept_anything(self, other: IlBctTer32) -> (t: IlBctTer32)
        ensures
            t@.len() == 32,
            forall|i: int| 0 <= i < 32 ==> t@[i] == self@[i].accept_anything(other@[i]),
    {
        proof {
            use_type_invariant(self);
            use_type_invariant(other);
        }
        let ha = (self.0 >> 1) & MASK_L;
        let la = self.0 & MASK_L;
        let hb = (other.0 >> 1) & MASK_L;
        let lb = other.0 & MASK_L;
        let isneg_a = MASK_L & !ha & !la;
        let isneg_b = MASK_L & !hb & !lb;
        let not_neg_a = ha | la;
        let not_neg_b = hb | lb;
        let not_pos_a = (MASK_L & !ha) | la;
        let not_pos_b = (MASK_L & !hb) | lb;
        let new_h = (ha & not_neg_b) | (hb & not_neg_a);
        let is_neg = (isneg_a & not_pos_b) | (isneg_b & not_pos_a);
        let new_l = MASK_L & !new_h & !is_neg;
        let w = (new_h << 1) | new_l;
        proof {
            assert(w == il_accept64(self.0, other.0, MASK_L));
            assert forall|k: int| 0 <= k < 32 implies #[trigger] pair64(w, (2 * k) as u64) == code_accept(pair64(self.0, (2 * k) as u64) as int, pair64(other.0, (2 * k) as u64) as int) by {
                assert(pair64(self.0, (2 * k) as u64) < 3);
                assert(pair64(other.0, (2 * k) as u64) < 3);
                lemma_il_logic(self.0, other.0, k);
            }
        }
        let t = Self::from_valid(w);
        proof {
            assert forall|i: int| 0 <= i < 32 implies t@[i] == self@[i].accept_anything(other@[i]) by {
                let k = 31 - i;
                let ca = pair64(self.0, (2 * k) as u64) as int;
                let cb = pair64(other.0, (2 * k) as u64) as int;
                assert(pair64(self.0, (2 * k) as u64) < 3);
                assert(pair64(other.0, (2 * k) as u64) < 3);
                lemma_code_digits(ca, cb);
            }
        }
        t
    }
}

impl IlBctTer32 {
    /// Trits moved `n` places toward the most significant end, `Zero` filling
    /// the low places; all `Zero` once `n >= 32`.
    pub fn il_shl(self, n: usize) -> (t: IlBctTer32)
        ensures
            n < 32 ==> t@ == self@.skip(n as int) + zeros(n as nat),
            n >= 32 ==> t@ == zeros(32),
    {
        if n >= 32 {
            return Self::zero();
        }
        proof {
            use_type_invariant(self);
        }
        let shift = (2 * n) as u64;
        proof {
            lemma_il_word64(self.0, shift, 0);
        }
        let fill = MASK_L & ((1u64 << shift) - 1);
        let w = (self.0 << shift) | fill;
        proof {
            assert forall|k: int| 0 <= k < 32 implies #[trigger] pair64(w, (2 * k) as u64) == if k >= n {
                pair64(self.0, (2 * (k - n)) as u64)
            } else {
                1
            } by {
                lemma_il_word64(self.0, shift, (2 * k) as u64);
            }
            assert forall|k: int| 0 <= k < 32 implies #[trigger] pair64(w, (2 * k) as u64) < 3 by {
                if k >= n {
                    assert(pair64(self.0, (2 * (k - n)) as u64) < 3);
                }
            }
        }
        let t = Self::from_valid(w);
        proof {
            assert forall|i: int| 0 <= i < 32 implies t@[i] == (self@.skip(n as int) + zeros(
                n as nat,
            ))[i] by {
                let k = 31 - i;
                assert(pair64(w, (2 * k) as u64) == if k >= n {
                    pair64(self.0, (2 * (k - n)) as u64)
                } else {
                    1
                });
            }
            assert(t@ =~= self@.skip(n as int) + zeros(n as nat));
        }
        t
    }

    /// Trits moved `n >= 1` places toward the least significant end, `Zero`
    /// filling the high places; all `Zero` once `n >= 32`.
    pub fn il_shr(self, n: usize) -> (t: IlBctTer32)
        requires
            n >= 1,
        ensures
            n < 32 ==> t@ == zeros(n as nat) + self@.take(32 - n),
            n >= 32 ==> t@ == zeros(32),
    {
        if n >= 32 {
            return Self::zero();
        }
        proof {
            use_type_invariant(self);
        }
        let shift = (2 * n) as u64;
        let fill = MASK_L & (0xFFFF_FFFF_FFFF_FFFFu64 << (64 - shift));
        let w = (self.0 >> shift) | fill;
        proof {
            assert forall|k: int| 0 <= k < 32 implies #[trigger] pair64(w, (2 * k) as u64) == if k + n
                < 32 {
                pair64(self.0, (2 * (k + n)) as u64)
            } else {
                1
            } by {
                lemma_il_word64(self.0, shift, (2 * k) as u64);
            }
            assert forall|k: int| 0 <= k < 32 implies #[trigger] pair64(w, (2 * k) as u64) < 3 by {
                if k + n < 32 {
                    assert(pair64(self.0, (2 * (k + n)) as u64) < 3);
                }
            }
        }
        let t = Self::from_valid(w);
        proof {
            assert forall|i: int| 0 <= i < 32 implies t@[i] == (zeros(n as nat) + self@.take(
                32 - n,
            ))[i] by {
                let k = 31 - i;
                assert(pair64(w, (2 * k) as u64) == if k + n < 32 {
                    pair64(self.0, (2 * (k + n)) as u64)
                } else {
                    1
                });
            }
            assert(t@ =~= zeros(n as nat) + self@.take(32 - n));
        }
        t
    }

    /// The 32 digits, most significant first.
    pub fn to_digits(&self) -> (v: Vec<Digit>)
        ensures
            v@ == self@,
    {
        proof {
            use_type_invariant(self);
            lemma_il_value64(self.0, 32);
        }
        let mut v: Vec<Digit> = Vec::new();
        let mut i: u64 = 0;
        while i < 32
            invariant
                i <= 32,
                il_valid64(self.0, 32),
                self@.len() == 32,
                self@ == il_digits64(self.0, 32),
                v@ == self@.take(i as int),
            decreases 32 - i,
        {
            let d = read_il64(self.0, 31 - i);
            proof {
                assert(pair64(self.0, (2 * (31 - i)) as u64) < 3);
            }
            v.push(d);
            i += 1;
            assert(v@ =~= self@.take(i as int));
        }
        assert(self@.take(32) =~= self@);
        v
    }

    /// The digit at `index` counted from the right; `None` past the last digit.
    pub fn digit(&self, index: usize) -> (d: Option<Digit>)
        ensures
            index < 32 ==> d == Some(self@[31 - index]),
            index >= 32 ==> d.is_none(),
    {
        if index >= 32 {
            return None;
        }
        proof {
            use_type_invariant(self);
            assert(pair64(self.0, (2 * index) as u64) < 3);
        }
        Some(read_il64(self.0, index as u64))
    }
}

impl IlBctTer32 {
    /// Applies `f` to every digit.
    pub fn each<F: Fn(Digit) -> Digit>(&self, f: F) -> (t: IlBctTer32)
        requires
            forall|i: int| 0 <= i < 32 ==> f.requires((self@[i],)),
        ensures
            t@.len() == 32,
            forall|i: int| 0 <= i < 32 ==> f.ensures((self@[i],), t@[i]),
    {
        proof {
            use_type_invariant(self);
        }
        let mut word: u64 = 0;
        let ghost mut g: spec_fn(int) -> int = |k: int| 0int;
        proof {
            lemma_il_start64(g);
        }
        let mut k: u64 = 0;
        while k < 32
            invariant
                k <= 32,
                il_valid64(self.0, 32),
                il_holds64(word, g, k as int),
                is_trits(g, k as nat),
                forall|i: int| 0 <= i < 32 ==> f.requires((self@[i],)),
                forall|j: int| 0 <= j < k ==> f.ensures((digit_of(il_trit64(self.0, j)),), digit_of(#[trigger] g(j))),
            decreases 32 - k,
        {
            proof {
                assert(pair64(self.0, (2 * k) as u64) < 3);
            }
            let d = read_il64(self.0, k);
            assert(self@[31 - k] == d);
            let e = f(d);
            let ghost old_g = g;
            proof {
                g = |j: int| if j == k { e.val() } else { old_g(j) };
                assert forall|j: int| 0 <= j < k implies #[trigger] pair64(word, (2 * j) as u64) == g(j)
                    + 1 by {
                    assert(pair64(word, (2 * j) as u64) == old_g(j) + 1);
                }
                assert(digit_of(e.val()) == e);
            }
            let r = write_il64(word, k, e);
            proof {
                lemma_il_step64(word, r, g, k as int);
            }
            word = r;
            k += 1;
        }
        proof {
            lemma_il_done64(word, g, 32);
        }
        Self::from_valid(word)
    }

    /// Applies `f` to every digit together with the fixed digit `with`.
    pub fn each_with<F: Fn(Digit, Digit) -> Digit>(&self, f: F, with: Digit) -> (t: IlBctTer32)
        requires
            forall|i: int| 0 <= i < 32 ==> f.requires((self@[i], with)),
        ensures
            t@.len() == 32,
            forall|i: int| 0 <= i < 32 ==> f.ensures((self@[i], with), t@[i]),
    {
        proof {
            use_type_invariant(self);
        }
        let mut word: u64 = 0;
        let ghost mut g: spec_fn(int) -> int = |k: int| 0int;
        proof {
            lemma_il_start64(g);
        }
        let mut k: u64 = 0;
        while k < 32
            invariant
                k <= 32,
                il_valid64(self.0, 32),
                il_holds64(word, g, k as int),
                is_trits(g, k as nat),
                forall|i: int| 0 <= i < 32 ==> f.requires((self@[i], with)),
                forall|j: int| 0 <= j < k ==> f.ensures((digit_of(il_trit64(self.0, j)), with), digit_of(#[trigger] g(j))),
            decreases 32 - k,
        {
            proof {
                assert(pair64(self.0, (2 * k) as u64) < 3);
            }
            let d = read_il64(self.0, k);
            assert(self@[31 - k] == d);
            let e = f(d, with);
            let ghost old_g = g;
            proof {
                g = |j: int| if j == k { e.val() } else { old_g(j) };
                assert forall|j: int| 0 <= j < k implies #[trigger] pair64(word, (2 * j) as u64) == g(j)
                    + 1 by {
                    assert(pair64(word, (2 * j) as u64) == old_g(j) + 1);
                }
                assert(digit_of(e.val()) == e);
            }
            let r = write_il64(word, k, e);
            proof {
                lemma_il_step64(word, r, g, k as int);
            }
            word = r;
            k += 1;
        }
        proof {
            lemma_il_done64(word, g, 32);
        }
        Self::from_valid(word)
    }

    /// Applies `f` to the digits of the two numbers position by position.
    pub fn each_zip<F: Fn(Digit, Digit) -> Digit>(&self, f: F, other: IlBctTer32) -> (t: IlBctTer32)
        requires
            forall|i: int| 0 <= i < 32 ==> f.requires((self@[i], other@[i])),
        ensures
            t@.len() == 32,
            forall|i: int| 0 <= i < 32 ==> f.ensures((self@[i], other@[i]), t@[i]),
    {
        proof {
            use_type_invariant(self);
            use_type_invariant(other);
        }
        let mut word: u64 = 0;
        let ghost mut g: spec_fn(int) -> int = |k: int| 0int;
        proof {
            lemma_il_start64(g);
        }
        let mut k: u64 = 0;
        while k < 32
            invariant
                k <= 32,
                il_valid64(self.0, 32),
                il_valid64(other.0, 32),
                il_holds64(word, g, k as int),
                is_trits(g, k as nat),
                forall|i: int| 0 <= i < 32 ==> f.requires((self@[i], other@[i])),
                forall|j: int| 0 <= j < k ==> f.ensures((digit_of(il_trit64(self.0, j)), digit_of(il_trit64(other.0, j))), digit_of(#[trigger] g(j))),
            decreases 32 - k,
        {
            proof {
                assert(pair64(self.0, (2 * k) as u64) < 3);
            }
            let d = read_il64(self.0, k);
            assert(self@[31 - k] == d);
            proof {
                assert(pair64(other.0, (2 * k) as u64) < 3);
            }
            let db = read_il64(other.0, k);
            assert(other@[31 - k] == db);
            let e = f(d, db);
            let ghost old_g = g;
            proof {
                g = |j: int| if j == k { e.val() } else { old_g(j) };
                assert forall|j: int| 0 <= j < k implies #[trigger] pair64(word, (2 * j) as u64) == g(j)
                    + 1 by {
                    assert(pair64(word, (2 * j) as u64) == old_g(j) + 1);
                }
                assert(digit_of(e.val()) == e);
            }
            let r = write_il64(word, k, e);
            proof {
                lemma_il_step64(word, r, g, k as int);
            }
            word = r;
            k += 1;
        }
        proof {
            lemma_il_done64(word, g, 32);
        }
        Self::from_valid(word)
    }

    /// Applies `f` to the digit pairs from the least significant up, threading a
    /// carry that starts at `Zero`; `f` returns the next carry and the digit.
    pub fn each_zip_carry<F: Fn(Digit, Digit, Digit) -> (Digit, Digit)>(
        &self,
        f: F,
        other: IlBctTer32,
    ) -> (t: IlBctTer32)
        requires
            forall|i: int, c: Digit| 0 <= i < 32 ==> f.requires((self@[i], other@[i], c)),
        ensures
            t@.len() == 32,
            exists|carries: Seq<Digit>|
                {
                    &&& carries.len() == 33
                    &&& carries[32] == Digit::Zero
                    &&& forall|i: int|
                        0 <= i < 32 ==> f.ensures(
                            (self@[i], other@[i], #[trigger] carries[i + 1]),
                            (carries[i], t@[i]),
                        )
                },
    {
        proof {
            use_type_invariant(self);
            use_type_invariant(other);
        }
        let mut word: u64 = 0;
        let mut carry = Digit::Zero;
        let ghost mut carries: Seq<Digit> = Seq::new(33, |j: int| Digit::Zero);
        let ghost mut g: spec_fn(int) -> int = |k: int| 0int;
        proof {
            lemma_il_start64(g);
        }
        let mut k: u64 = 0;
        while k < 32
            invariant
                k <= 32,
                il_valid64(self.0, 32),
                il_valid64(other.0, 32),
                il_holds64(word, g, k as int),
                is_trits(g, k as nat),
                carries.len() == 33,
                carries[32] == Digit::Zero,
                carries[32 - k] == carry,
                forall|i: int, c: Digit| 0 <= i < 32 ==> f.requires((self@[i], other@[i], c)),
                forall|j: int|
                    0 <= j < k ==> f.ensures(
                        (
                            digit_of(il_trit64(self.0, j)),
                            digit_of(il_trit64(other.0, j)),
                            #[trigger] carries[32 - j],
                        ),
                        (carries[31 - j], digit_of(g(j))),
                    ),
            decreases 32 - k,
        {
            proof {
                assert(pair64(self.0, (2 * k) as u64) < 3);
                assert(pair64(other.0, (2 * k) as u64) < 3);
            }
            let d = read_il64(self.0, k);
            let db = read_il64(other.0, k);
            assert(self@[31 - k] == d && other@[31 - k] == db);
            let (c, e) = f(d, db, carry);
            let ghost old_g = g;
            proof {
                g = |j: int| if j == k { e.val() } else { old_g(j) };
                carries = carries.update(31 - k, c);
                assert forall|j: int| 0 <= j < k implies #[trigger] pair64(word, (2 * j) as u64) == g(j)
                    + 1 by {
                    assert(pair64(word, (2 * j) as u64) == old_g(j) + 1);
                }
                assert(digit_of(e.val()) == e);
            }
            let r = write_il64(word, k, e);
            proof {
                lemma_il_step64(word, r, g, k as int);
            }
            word = r;
            carry = c;
            k += 1;
        }
        proof {
            lemma_il_done64(word, g, 32);
        }
        let t = Self::from_valid(word);
        proof {
            assert forall|i: int| 0 <= i < 32 implies f.ensures(
                (self@[i], other@[i], #[trigger] carries[i + 1]),
                (carries[i], t@[i]),
            ) by {
                let j = 31 - i;
                assert(32 - j == i + 1);
            }
        }
        t
    }
}

impl Neg for IlBctTer32 {
    type Output = IlBctTer32;

    /// Every trit negated.
    fn neg(self) -> (t: IlBctTer32)
        ensures
            t@.len() == 32,
            forall|i: int| 0 <= i < 32 ==> t@[i] == self@[i].negated(),
    {
        self.il_neg()
    }
}

impl vstd::std_specs::ops::NegSpecImpl for IlBctTer32 {
    open spec fn obeys_neg_spec() -> bool {
        false
    }

    open spec fn neg_req(self) -> bool {
        true
    }

    open spec fn neg_spec(self) -> IlBctTer32 {
        arbitrary()
    }
}

impl Not for IlBctTer32 {
    type Output = IlBctTer32;

    /// Kleene negation: every trit negated.
    fn not(self) -> (t: IlBctTer32)
        ensures
            t@.len() == 32,
            forall|i: int| 0 <= i < 32 ==> t@[i] == self@[i].negated(),
    {
        self.il_neg()
    }
}

impl vstd::std_specs::ops::NotSpecImpl for IlBctTer32 {
    open spec fn obeys_not_spec() -> bool {
        false
    }

    open spec fn not_req(self) -> bool {
        true
    }

    open spec fn not_spec(self) -> IlBctTer32 {
        arbitrary()
    }
}

impl BitAnd for IlBctTer32 {
    type Output = IlBctTer32;

    /// Trit-wise minimum.
    fn bitand(self, rhs: IlBctTer32) -> (t: IlBctTer32)
        ensures
            t@.len() == 32,
            forall|i: int| 0 <= i < 32 ==> t@[i] == self@[i].min_digit(rhs@[i]),
    {
        self.il_and(rhs)
    }
}

impl vstd::std_specs::ops::BitAndSpecImpl for IlBctTer32 {
    open spec fn obeys_bitand_spec() -> bool {
        false
    }

    open spec fn bitand_req(self, rhs: IlBctTer32) -> bool {
        true
    }

    open spec fn bitand_spec(self, rhs: IlBctTer32) -> IlBctTer32 {
        arbitrary()
    }
}

impl BitOr for IlBctTer32 {
    type Output = IlBctTer32;

    /// Trit-wise maximum.
    fn bitor(self, rhs: IlBctTer32) -> (t: IlBctTer32)
        ensures
            t@.len() == 32,
            forall|i: int| 0 <= i < 32 ==> t@[i] == self@[i].max_digit(rhs@[i]),
    {
        self.il_or(rhs)
    }
}

impl vstd::std_specs::ops::BitOrSpecImpl for IlBctTer32 {
    open spec fn obeys_bitor_spec() -> bool {
        false
    }

    open spec fn bitor_req(self, rhs: IlBctTer32) -> bool {
        true
    }

    open spec fn bitor_spec(self, rhs: IlBctTer32) -> IlBctTer32 {
        arbitrary()
    }
}

impl BitXor for IlBctTer32 {
    type Output = IlBctTer32;

    /// Trit-wise `-(a * b)`.
    fn bitxor(self, rhs: IlBctTer32) -> (t: IlBctTer32)
        ensures
            t@.len() == 32,
            forall|i: int|
                0 <= i < 32 ==> t@[i] == digit_of(-(self@[i].val() * rhs@[i].val())),
    {
        self.il_xor(rhs)
    }
}

impl vstd::std_specs::ops::BitXorSpecImpl for IlBctTer32 {
    open spec fn obeys_bitxor_spec() -> bool {
        false
    }

    open spec fn bitxor_req(self, rhs: IlBctTer32) -> bool {
        true
    }

    open spec fn bitxor_spec(self, rhs: IlBctTer32) -> IlBctTer32 {
        arbitrary()
    }
}

impl Shl<usize> for IlBctTer32 {
    type Output = IlBctTer32;

    /// Trits moved toward the most significant end.
    fn shl(self, rhs: usize) -> (t: IlBctTer32)
        ensures
            rhs < 32 ==> t@ == self@.skip(rhs as int) + zeros(rhs as nat),
            rhs >= 32 ==> t@ == zeros(32),
    {
        self.il_shl(rhs)
    }
}

impl vstd::std_specs::ops::ShlSpecImpl<usize> for IlBctTer32 {
    open spec fn obeys_shl_spec() -> bool {
        false
    }

    open spec fn shl_req(self, rhs: usize) -> bool {
        true
    }

    open spec fn shl_spec(self, rhs: usize) -> IlBctTer32 {
        arbitrary()
    }
}

impl Shr<usize> for IlBctTer32 {
    type Output = IlBctTer32;

    /// Trits moved `rhs >= 1` places toward the least significant end.
    fn shr(self, rhs: usize) -> (t: IlBctTer32)
        ensures
            rhs < 32 ==> t@ == zeros(rhs as nat) + self@.take(32 - rhs),
            rhs >= 32 ==> t@ == zeros(32),
    {
        self.il_shr(rhs)
    }
}

impl vstd::std_specs::ops::ShrSpecImpl<usize> for IlBctTer32 {
    open spec fn obeys_shr_spec() -> bool {
        false
    }

    open spec fn shr_req(self, rhs: usize) -> bool {
        rhs >= 1
    }

    open spec fn shr_spec(self, rhs: usize) -> IlBctTer32 {
        arbitrary()
    }
}

impl Add for IlBctTer32 {
    type Output = IlBctTer32;

    /// The sum, wrapped into 32 trits.
    fn add(self, rhs: IlBctTer32) -> (t: IlBctTer32)
        ensures
            value(t@) == wrap(value(self@) + value(rhs@), 32),
    {
        proof {
            use_type_invariant(self);
            use_type_invariant(rhs);
            lemma_il_value64(self.0, 32);
            lemma_il_value64(rhs.0, 32);
            lemma_bias64(self.0, 32);
            lemma_bias64(rhs.0, 32);
            crate::packed::lemma_pow3_32();
            assert forall|k: int| 0 <= k < 32 implies #[trigger] ucodes64(
                0x5555_5555_5555_5556u64,
            )(k) == (if k == 0 {
                2int
            } else {
                1int
            }) by {
                lemma_il_word64(0, 0, (2 * k) as u64);
            }
            assert forall|k: int| 0 <= k < 32 implies #[trigger] pair64(
                0x5555_5555_5555_5556u64,
                (2 * k) as u64,
            ) < 3 by {
                lemma_il_word64(0, 0, (2 * k) as u64);
            }
            lemma_lsb_remap(ucodes64(0x5555_5555_5555_5556u64), 32);
        }
        let s = uter_add32(self.0, rhs.0);
        let w = uter_add32(s, 0x5555_5555_5555_5556u64);
        proof {
            lemma_bias64(s, 32);
            lemma_bias64(w, 32);
            lemma_il_value64(w, 32);
            lemma_bias_add(
                value(self@),
                value(rhs@),
                926510094425920,
                lsb_value(ucodes64(s), 32),
                lsb_value(ucodes64(w), 32),
            );
        }
        IlBctTer32::from_valid(w)
    }
}

impl vstd::std_specs::ops::AddSpecImpl for IlBctTer32 {
    open spec fn obeys_add_spec() -> bool {
        false
    }

    open spec fn add_req(self, rhs: IlBctTer32) -> bool {
        true
    }

    open spec fn add_spec(self, rhs: IlBctTer32) -> IlBctTer32 {
        arbitrary()
    }
}

impl Sub for IlBctTer32 {
    type Output = IlBctTer32;

    /// The difference, wrapped into 32 trits.
    fn sub(self, rhs: IlBctTer32) -> (t: IlBctTer32)
        ensures
            value(t@) == wrap(value(self@) - value(rhs@), 32),
    {
        proof {
            use_type_invariant(self);
            use_type_invariant(rhs);
            lemma_il_value64(self.0, 32);
        }
        let neg = rhs.il_neg();
        proof {
            assert(neg@ =~= crate::model::negate_seq(rhs@));
            crate::model::lemma_value_negate(rhs@);
        }
        Add::add(self, neg)
    }
}

impl vstd::std_specs::ops::SubSpecImpl for IlBctTer32 {
    open spec fn obeys_sub_spec() -> bool {
        false
    }

    open spec fn sub_req(self, rhs: IlBctTer32) -> bool {
        true
    }

    open spec fn sub_spec(self, rhs: IlBctTer32) -> IlBctTer32 {
        arbitrary()
    }
}

impl Mul for IlBctTer32 {
    type Output = IlBctTer32;

    /// The product, wrapped into 32 trits; it must fit an `i64`.
    fn mul(self, rhs: IlBctTer32) -> (t: IlBctTer32)
        ensures
            value(t@) == wrap(value(self@) * value(rhs@), 32),
    {
        IlBctTer32::from_dec(self.to_dec() * rhs.to_dec())
    }
}

impl vstd::std_specs::ops::MulSpecImpl for IlBctTer32 {
    open spec fn obeys_mul_spec() -> bool {
        false
    }

    open spec fn mul_req(self, rhs: IlBctTer32) -> bool {
        i64::MIN <= value(self@) * value(rhs@) <= i64::MAX
    }

    open spec fn mul_spec(self, rhs: IlBctTer32) -> IlBctTer32 {
        arbitrary()
    }
}

impl Div for IlBctTer32 {
    type Output = IlBctTer32;

    /// The quotient rounded toward zero; the divisor must not be zero.
    fn div(self, rhs: IlBctTer32) -> (t: IlBctTer32)
        ensures
            value(t@) == trunc_div(value(self@), value(rhs@)),
    {
        proof {
            use_type_invariant(self);
            use_type_invariant(rhs);
            lemma_il_value64(self.0, 32);
            lemma_il_value64(rhs.0, 32);
            crate::tryte::lemma_bound_fits(32);
        }
        let x = self.to_dec();
        let y = rhs.to_dec();
        let q = magnitude(x) / magnitude(y);
        proof {
            vstd::arithmetic::div_mod::lemma_div_is_ordered_by_denominator(
                abs_int(x as int),
                1,
                abs_int(y as int),
            );
        }
        let qi = q as i64;
        let r = if (x < 0) == (y < 0) {
            qi
        } else {
            -qi
        };
        proof {
            lemma_wrap_in_range(r as int, 32);
        }
        IlBctTer32::from_dec(r)
    }
}

impl vstd::std_specs::ops::DivSpecImpl for IlBctTer32 {
    open spec fn obeys_div_spec() -> bool {
        false
    }

    open spec fn div_req(self, rhs: IlBctTer32) -> bool {
        value(rhs@) != 0
    }

    open spec fn div_spec(self, rhs: IlBctTer32) -> IlBctTer32 {
        arbitrary()
    }
}

impl Add for BctTer32 {
    type Output = BctTer32;

    /// The sum, wrapped into 32 trits.
    fn add(self, rhs: BctTer32) -> (t: BctTer32)
        ensures
            value(t@) == wrap(value(self@) + value(rhs@), 32),
    {
        let a = IlBctTer32::from_bct(self);
        let b = IlBctTer32::from_bct(rhs);
        (a + b).to_bct()
    }
}

impl vstd::std_specs::ops::AddSpecImpl for BctTer32 {
    open spec fn obeys_add_spec() -> bool {
        false
    }

    open spec fn add_req(self, rhs: BctTer32) -> bool {
        true
    }

    open spec fn add_spec(self, rhs: BctTer32) -> BctTer32 {
        arbitrary()
    }
}

impl Sub for BctTer32 {
    type Output = BctTer32;

    /// The difference, wrapped into 32 trits.
    fn sub(self, rhs: BctTer32) -> (t: BctTer32)
        ensures
            value(t@) == wrap(value(self@) - value(rhs@), 32),
    {
        let a = IlBctTer32::from_bct(self);
        let b = IlBctTer32::from_bct(rhs);
        (a - b).to_bct()
    }
}

impl vstd::std_specs::ops::SubSpecImpl for BctTer32 {
    open spec fn obeys_sub_spec() -> bool {
        false
    }

    open spec fn sub_req(self, rhs: BctTer32) -> bool {
        true
    }

    open spec fn sub_spec(self, rhs: BctTer32) -> BctTer32 {
        arbitrary()
    }
}

impl From<BctTer32> for IlBctTer32 {
    /// The interleaved word with the same digits.
    fn from(b: BctTer32) -> (t: IlBctTer32)
        ensures
            t@ == b@,
    {
        IlBctTer32::from_bct(b)
    }
}

impl vstd::std_specs::convert::FromSpecImpl<BctTer32> for IlBctTer32 {
    open spec fn obeys_from_spec() -> bool {
        false
    }

    open spec fn from_spec(b: BctTer32) -> IlBctTer32 {
        arbitrary()
    }
}

impl From<IlBctTer32> for BctTer32 {
    /// The pair of masks with the same digits.
    fn from(t: IlBctTer32) -> (b: BctTer32)
        ensures
            b@ == t@,
    {
        t.to_bct()
    }
}

impl vstd::std_specs::convert::FromSpecImpl<IlBctTer32> for BctTer32 {
    open spec fn obeys_from_spec() -> bool {
        false
    }

    open spec fn from_spec(t: IlBctTer32) -> BctTer32 {
        arbitrary()
    }
}

} // verus!
