use vstd::prelude::*;
use std::ops::{Add, BitAnd, BitOr, BitXor, Div, Mul, Neg, Not, Sub};

verus! {

/// A digit of the balanced ternary numeral system: `Neg` (-1), `Zero` (0) or `Pos` (+1).
///
/// Besides conversions, the type carries the three-valued logics (Kleene, Bochvar,
/// Łukasiewicz, RM3, paraconsistent, HT, Post) and balanced digit arithmetic.
#[derive(Debug, Clone, Copy, PartialEq, Eq, Structural, Hash)]
pub enum Digit {
    /// Represents -1
    Neg,
    /// Represents 0
    Zero,
    /// Represents +1
    Pos,
}

/// The digit whose integer value is `v`, for `v` in `-1..=1`.
pub open spec fn digit_of(v: int) -> Digit {
    if v < 0 {
        Digit::Neg
    } else if v == 0 {
        Digit::Zero
    } else {
        Digit::Pos
    }
}

/// The sign of an integer, as a digit.
pub open spec fn sign_digit(v: int) -> Digit {
    digit_of(v)
}

impl Digit {
    /// The integer value of the digit.
    pub open spec fn val(self) -> int {
        match self {
            Digit::Neg => -1,
            Digit::Zero => 0,
            Digit::Pos => 1,
        }
    }

    /// `Θ` for `Neg`, `0` for `Zero`, `1` for `Pos`.
    #[verifier::allow_in_spec]
    pub fn to_char_theta(&self) -> char
        returns
            (match *self {
                Digit::Neg => 'Θ',
                Digit::Zero => '0',
                Digit::Pos => '1',
            }),
    {
        match self {
            Digit::Neg => 'Θ',
            Digit::Zero => '0',
            Digit::Pos => '1',
        }
    }

    /// `Z` for `Neg`, `0` for `Zero`, `1` for `Pos`.
    #[verifier::allow_in_spec]
    pub fn to_char_z(&self) -> char
        returns
            (match *self {
                Digit::Neg => 'Z',
                Digit::Zero => '0',
                Digit::Pos => '1',
            }),
    {
        match self {
            Digit::Neg => 'Z',
            Digit::Zero => '0',
            Digit::Pos => '1',
        }
    }

    /// `T` for `Neg`, `0` for `Zero`, `1` for `Pos`.
    #[verifier::allow_in_spec]
    pub fn to_char_t(&self) -> char
        returns
            (match *self {
                Digit::Neg => 'T',
                Digit::Zero => '0',
                Digit::Pos => '1',
            }),
    {
        match self {
            Digit::Neg => 'T',
            Digit::Zero => '0',
            Digit::Pos => '1',
        }
    }

    /// Reads `Θ`, `0` or `1`; any other character is outside the domain.
    pub fn from_char_theta(c: char) -> (d: Digit)
        requires
            c == 'Θ' || c == '0' || c == '1',
        ensures
            d.to_char_theta() == c,
    {
        if c == 'Θ' {
            Digit::Neg
        } else if c == '0' {
            Digit::Zero
        } else {
            Digit::Pos
        }
    }

    /// Reads `Z`, `0` or `1`; any other character is outside the domain.
    pub fn from_char_z(c: char) -> (d: Digit)
        requires
            c == 'Z' || c == '0' || c == '1',
        ensures
            d.to_char_z() == c,
    {
        if c == 'Z' {
            Digit::Neg
        } else if c == '0' {
            Digit::Zero
        } else {
            Digit::Pos
        }
    }

    /// Reads `T`, `0` or `1`; any other character is outside the domain.
    pub fn from_char_t(c: char) -> (d: Digit)
        requires
            c == 'T' || c == '0' || c == '1',
        ensures
            d.to_char_t() == c,
    {
        if c == 'T' {
            Digit::Neg
        } else if c == '0' {
            Digit::Zero
        } else {
            Digit::Pos
        }
    }

    /// `-` for `Neg`, `0` for `Zero`, `+` for `Pos`.
    #[verifier::allow_in_spec]
    pub fn to_char(&self) -> char
        returns
            (match *self {
                Digit::Neg => '-',
                Digit::Zero => '0',
                Digit::Pos => '+',
            }),
    {
        match self {
            Digit::Neg => '-',
            Digit::Zero => '0',
            Digit::Pos => '+',
        }
    }

    /// Reads `-`, `0` or `+`; any other character is outside the domain.
    pub fn from_char(c: char) -> (d: Digit)
        requires
            c == '-' || c == '0' || c == '+',
        ensures
            d.to_char() == c,
    {
        if c == '-' {
            Digit::Neg
        } else if c == '0' {
            Digit::Zero
        } else {
            Digit::Pos
        }
    }

    /// The integer value: -1, 0 or 1.
    #[verifier::allow_in_spec]
    pub fn to_i8(&self) -> i8
        returns
            self.val() as i8,
    {
        match self {
            Digit::Neg => -1,
            Digit::Zero => 0,
            Digit::Pos => 1,
        }
    }

    /// The digit of value `i`, for `i` in `-1..=1`.
    pub fn from_i8(i: i8) -> (d: Digit)
        requires
            -1 <= i <= 1,
        ensures
            d.val() == i,
    {
        if i < 0 {
            Digit::Neg
        } else if i == 0 {
            Digit::Zero
        } else {
            Digit::Pos
        }
    }

    /// Łukasiewicz possibility: `Neg → Neg`, `Zero → Pos`, `Pos → Pos`.
    #[verifier::allow_in_spec]
    pub fn possibly(self) -> Digit
        returns
            (match self {
                Digit::Neg => Digit::Neg,
                Digit::Zero => Digit::Pos,
                Digit::Pos => Digit::Pos,
            }),
    {
        match self {
            Digit::Neg => Digit::Neg,
            Digit::Zero => Digit::Pos,
            Digit::Pos => Digit::Pos,
        }
    }

    /// Łukasiewicz necessity: `Neg → Neg`, `Zero → Neg`, `Pos → Pos`.
    #[verifier::allow_in_spec]
    pub fn necessary(self) -> Digit
        returns
            (match self {
                Digit::Neg => Digit::Neg,
                Digit::Zero => Digit::Neg,
                Digit::Pos => Digit::Pos,
            }),
    {
        match self {
            Digit::Neg => Digit::Neg,
            Digit::Zero => Digit::Neg,
            Digit::Pos => Digit::Pos,
        }
    }

    /// Contingency: `Neg → Neg`, `Zero → Pos`, `Pos → Neg`.
    #[verifier::allow_in_spec]
    pub fn contingently(self) -> Digit
        returns
            (match self {
                Digit::Neg => Digit::Neg,
                Digit::Zero => Digit::Pos,
                Digit::Pos => Digit::Neg,
            }),
    {
        match self {
            Digit::Neg => Digit::Neg,
            Digit::Zero => Digit::Pos,
            Digit::Pos => Digit::Neg,
        }
    }

    /// `Neg → Pos`, `Zero → Zero`, `Pos → Pos`.
    #[verifier::allow_in_spec]
    pub fn absolute_positive(self) -> Digit
        returns
            (match self {
                Digit::Neg => Digit::Pos,
                Digit::Zero => Digit::Zero,
                Digit::Pos => Digit::Pos,
            }),
    {
        match self {
            Digit::Neg => Digit::Pos,
            Digit::Zero => Digit::Zero,
            Digit::Pos => Digit::Pos,
        }
    }

    /// `Neg → Zero`, `Zero → Zero`, `Pos → Pos`.
    #[verifier::allow_in_spec]
    pub fn positive(self) -> Digit
        returns
            (match self {
                Digit::Neg => Digit::Zero,
                Digit::Zero => Digit::Zero,
                Digit::Pos => Digit::Pos,
            }),
    {
        match self {
            Digit::Neg => Digit::Zero,
            Digit::Zero => Digit::Zero,
            Digit::Pos => Digit::Pos,
        }
    }

    /// `Neg → Zero`, `Zero → Pos`, `Pos → Pos`.
    #[verifier::allow_in_spec]
    pub fn not_negative(self) -> Digit
        returns
            (match self {
                Digit::Neg => Digit::Zero,
                Digit::Zero => Digit::Pos,
                Digit::Pos => Digit::Pos,
            }),
    {
        match self {
            Digit::Neg => Digit::Zero,
            Digit::Zero => Digit::Pos,
            Digit::Pos => Digit::Pos,
        }
    }

    /// `Neg → Neg`, `Zero → Neg`, `Pos → Zero`.
    #[verifier::allow_in_spec]
    pub fn not_positive(self) -> Digit
        returns
            (match self {
                Digit::Neg => Digit::Neg,
                Digit::Zero => Digit::Neg,
                Digit::Pos => Digit::Zero,
            }),
    {
        match self {
            Digit::Neg => Digit::Neg,
            Digit::Zero => Digit::Neg,
            Digit::Pos => Digit::Zero,
        }
    }

    /// `Neg → Neg`, `Zero → Zero`, `Pos → Zero`.
    #[verifier::allow_in_spec]
    pub fn negative(self) -> Digit
        returns
            (match self {
                Digit::Neg => Digit::Neg,
                Digit::Zero => Digit::Zero,
                Digit::Pos => Digit::Zero,
            }),
    {
        match self {
            Digit::Neg => Digit::Neg,
            Digit::Zero => Digit::Zero,
            Digit::Pos => Digit::Zero,
        }
    }

    /// `Neg → Neg`, `Zero → Zero`, `Pos → Neg`.
    #[verifier::allow_in_spec]
    pub fn absolute_negative(self) -> Digit
        returns
            (match self {
                Digit::Neg => Digit::Neg,
                Digit::Zero => Digit::Zero,
                Digit::Pos => Digit::Neg,
            }),
    {
        match self {
            Digit::Neg => Digit::Neg,
            Digit::Zero => Digit::Zero,
            Digit::Pos => Digit::Neg,
        }
    }

    /// Kleene implication.
    #[verifier::allow_in_spec]
    pub fn k3_imply(self, other: Digit) -> Digit
        returns
            (match self {
                Digit::Neg => Digit::Pos,
                Digit::Zero => other.positive(),
                Digit::Pos => other,
            }),
    {
        match self {
            Digit::Neg => Digit::Pos,
            Digit::Zero => other.positive(),
            Digit::Pos => other,
        }
    }

    /// Kleene equivalence, which is the product of the two digits.
    #[verifier::allow_in_spec]
    pub fn k3_equiv(self, other: Digit) -> Digit
        returns
            digit_of(self.val() * other.val()),
    {
        match self {
            Digit::Neg => match other {
                Digit::Neg => Digit::Pos,
                Digit::Zero => Digit::Zero,
                Digit::Pos => Digit::Neg,
            },
            Digit::Zero => Digit::Zero,
            Digit::Pos => other,
        }
    }

    /// Bochvar conjunction.
    #[verifier::allow_in_spec]
    pub fn bi3_and(self, other: Digit) -> Digit
        returns
            (match self {
                Digit::Neg => other.absolute_negative(),
                Digit::Zero => Digit::Zero,
                Digit::Pos => other,
            }),
    {
        match self {
            Digit::Neg => other.absolute_negative(),
            Digit::Zero => Digit::Zero,
            Digit::Pos => other,
        }
    }

    /// Bochvar disjunction.
    #[verifier::allow_in_spec]
    pub fn bi3_or(self, other: Digit) -> Digit
        returns
            (match self {
                Digit::Neg => other,
                Digit::Zero => Digit::Zero,
                Digit::Pos => other.absolute_positive(),
            }),
    {
        match self {
            Digit::Neg => other,
            Digit::Zero => Digit::Zero,
            Digit::Pos => other.absolute_positive(),
        }
    }

    /// Bochvar implication.
    #[verifier::allow_in_spec]
    pub fn bi3_imply(self, other: Digit) -> Digit
        returns
            (match self {
                Digit::Neg => other.absolute_positive(),
                Digit::Zero => Digit::Zero,
                Digit::Pos => other,
            }),
    {
        match self {
            Digit::Neg => other.absolute_positive(),
            Digit::Zero => Digit::Zero,
            Digit::Pos => other,
        }
    }

    /// Łukasiewicz implication.
    #[verifier::allow_in_spec]
    pub fn l3_imply(self, other: Digit) -> Digit
        returns
            (match self {
                Digit::Neg => Digit::Pos,
                Digit::Zero => other.not_negative(),
                Digit::Pos => other,
            }),
    {
        match self {
            Digit::Neg => Digit::Pos,
            Digit::Zero => other.not_negative(),
            Digit::Pos => other,
        }
    }

    /// RM3 implication.
    #[verifier::allow_in_spec]
    pub fn rm3_imply(self, other: Digit) -> Digit
        returns
            (match self {
                Digit::Neg => Digit::Pos,
                Digit::Zero => other,
                Digit::Pos => other.necessary(),
            }),
    {
        match self {
            Digit::Neg => Digit::Pos,
            Digit::Zero => other,
            Digit::Pos => other.necessary(),
        }
    }

    /// Paraconsistent implication: `Pos` when `self` is `Neg`, `other` otherwise.
    #[verifier::allow_in_spec]
    pub fn para_imply(self, other: Digit) -> Digit
        returns
            (match self {
                Digit::Neg => Digit::Pos,
                _ => other,
            }),
    {
        match self {
            Digit::Neg => Digit::Pos,
            _ => other,
        }
    }

    /// HT implication.
    #[verifier::allow_in_spec]
    pub fn ht_imply(self, other: Digit) -> Digit
        returns
            (match self {
                Digit::Neg => Digit::Pos,
                Digit::Zero => other.possibly(),
                Digit::Pos => other,
            }),
    {
        match self {
            Digit::Neg => Digit::Pos,
            Digit::Zero => other.possibly(),
            Digit::Pos => other,
        }
    }

    /// HT negation: `Neg → Pos`, `Zero → Neg`, `Pos → Neg`.
    #[verifier::allow_in_spec]
    pub fn ht_not(self) -> Digit
        returns
            (match self {
                Digit::Neg => Digit::Pos,
                Digit::Zero => Digit::Neg,
                Digit::Pos => Digit::Neg,
            }),
    {
        match self {
            Digit::Neg => Digit::Pos,
            Digit::Zero => Digit::Neg,
            Digit::Pos => Digit::Neg,
        }
    }

    /// HT truth value: `true` for `Pos`, `false` for `Neg`; `Zero` has none.
    pub fn ht_bool(self) -> (b: bool)
        requires
            self != Digit::Zero,
        ensures
            b == (self == Digit::Pos),
    {
        match self {
            Digit::Pos => true,
            _ => false,
        }
    }

    /// Post's negation, one step up the cycle: `Neg → Zero → Pos → Neg`.
    #[verifier::allow_in_spec]
    pub fn post(self) -> Digit
        returns
            (match self {
                Digit::Neg => Digit::Zero,
                Digit::Zero => Digit::Pos,
                Digit::Pos => Digit::Neg,
            }),
    {
        match self {
            Digit::Neg => Digit::Zero,
            Digit::Zero => Digit::Pos,
            Digit::Pos => Digit::Neg,
        }
    }

    /// Inverse of [`Digit::post`]: `Neg → Pos`, `Zero → Neg`, `Pos → Zero`.
    #[verifier::allow_in_spec]
    pub fn pre(self) -> Digit
        returns
            (match self {
                Digit::Neg => Digit::Pos,
                Digit::Zero => Digit::Neg,
                Digit::Pos => Digit::Zero,
            }),
    {
        match self {
            Digit::Neg => Digit::Pos,
            Digit::Zero => Digit::Neg,
            Digit::Pos => Digit::Zero,
        }
    }

    /// Unbalanced value: 0 for `Neg`, 1 for `Zero`, 2 for `Pos`.
    #[verifier::allow_in_spec]
    pub fn to_unbalanced(self) -> u8
        returns
            (self.val() + 1) as u8,
    {
        match self {
            Digit::Neg => 0,
            Digit::Zero => 1,
            Digit::Pos => 2,
        }
    }

    /// The digit of unbalanced value `u`, for `u` in `0..=2`.
    pub fn from_unbalanced(u: u8) -> (d: Digit)
        requires
            u <= 2,
        ensures
            d.val() == u - 1,
    {
        if u == 0 {
            Digit::Neg
        } else if u == 1 {
            Digit::Zero
        } else {
            Digit::Pos
        }
    }

    /// Consensus: the shared value when both digits agree, `Zero` otherwise.
    #[verifier::allow_in_spec]
    pub fn consensus(self, other: Digit) -> Digit
        returns
            (if self == other { self } else { Digit::Zero }),
    {
        if self == other {
            self
        } else {
            Digit::Zero
        }
    }

    /// Accept-anything: the sign of the sum of the two digits.
    #[verifier::allow_in_spec]
    pub fn accept_anything(self, other: Digit) -> Digit
        returns
            sign_digit(self.val() + other.val()),
    {
        match self {
            Digit::Zero => other,
            Digit::Neg => match other {
                Digit::Pos => Digit::Zero,
                _ => Digit::Neg,
            },
            Digit::Pos => match other {
                Digit::Neg => Digit::Zero,
                _ => Digit::Pos,
            },
        }
    }

    /// `Pos` when `self` is `Neg`, `Neg` otherwise.
    #[verifier::allow_in_spec]
    pub fn is_neg(self) -> Digit
        returns
            (if self == Digit::Neg { Digit::Pos } else { Digit::Neg }),
    {
        if self == Digit::Neg {
            Digit::Pos
        } else {
            Digit::Neg
        }
    }

    /// `Pos` when `self` is `Zero`, `Neg` otherwise.
    #[verifier::allow_in_spec]
    pub fn is_zero(self) -> Digit
        returns
            (if self == Digit::Zero { Digit::Pos } else { Digit::Neg }),
    {
        if self == Digit::Zero {
            Digit::Pos
        } else {
            Digit::Neg
        }
    }

    /// `Pos` when `self` is `Pos`, `Neg` otherwise.
    #[verifier::allow_in_spec]
    pub fn is_pos(self) -> Digit
        returns
            (if self == Digit::Pos { Digit::Pos } else { Digit::Neg }),
    {
        if self == Digit::Pos {
            Digit::Pos
        } else {
            Digit::Neg
        }
    }

    /// `min(self, Zero)`.
    #[verifier::allow_in_spec]
    pub fn clamp_down(self) -> Digit
        returns
            (if self == Digit::Pos { Digit::Zero } else { self }),
    {
        if self == Digit::Pos {
            Digit::Zero
        } else {
            self
        }
    }

    /// `max(self, Zero)`.
    #[verifier::allow_in_spec]
    pub fn clamp_up(self) -> Digit
        returns
            (if self == Digit::Neg { Digit::Zero } else { self }),
    {
        if self == Digit::Neg {
            Digit::Zero
        } else {
            self
        }
    }

    /// `Pos` when the digits are equal, `Neg` otherwise.
    #[verifier::allow_in_spec]
    pub fn eq_digit(self, other: Digit) -> Digit
        returns
            (if self == other { Digit::Pos } else { Digit::Neg }),
    {
        if self == other {
            Digit::Pos
        } else {
            Digit::Neg
        }
    }

    /// The negated digit.
    pub open spec fn negated(self) -> Digit {
        digit_of(-self.val())
    }

    /// The balanced sum digit of `self + other` (the carry is dropped).
    pub open spec fn sum_digit(self, other: Digit) -> Digit {
        let s = self.val() + other.val();
        digit_of(if s > 1 { s - 3 } else if s < -1 { s + 3 } else { s })
    }

    /// The balanced difference digit of `self - other` (the borrow is dropped).
    pub open spec fn diff_digit(self, other: Digit) -> Digit {
        let s = self.val() - other.val();
        digit_of(if s > 1 { s - 3 } else if s < -1 { s + 3 } else { s })
    }

    /// The smaller of two digits.
    pub open spec fn min_digit(self, other: Digit) -> Digit {
        if self.val() <= other.val() { self } else { other }
    }

    /// The larger of two digits.
    pub open spec fn max_digit(self, other: Digit) -> Digit {
        if self.val() >= other.val() { self } else { other }
    }
}

impl Neg for Digit {
    type Output = Digit;

    fn neg(self) -> (r: Digit)
        ensures
            r == self.negated(),
    {
        match self {
            Digit::Neg => Digit::Pos,
            Digit::Zero => Digit::Zero,
            Digit::Pos => Digit::Neg,
        }
    }
}

impl vstd::std_specs::ops::NegSpecImpl for Digit {
    open spec fn obeys_neg_spec() -> bool {
        true
    }

    open spec fn neg_req(self) -> bool {
        true
    }

    open spec fn neg_spec(self) -> Digit {
        self.negated()
    }
}

impl Not for Digit {
    type Output = Digit;

    fn not(self) -> (r: Digit)
        ensures
            r == self.negated(),
    {
        self.neg()
    }
}

impl vstd::std_specs::ops::NotSpecImpl for Digit {
    open spec fn obeys_not_spec() -> bool {
        true
    }

    open spec fn not_req(self) -> bool {
        true
    }

    open spec fn not_spec(self) -> Digit {
        self.negated()
    }
}

impl Add for Digit {
    type Output = Digit;

    fn add(self, other: Digit) -> (r: Digit)
        ensures
            r == self.sum_digit(other),
    {
        let s = self.to_i8() + other.to_i8();
        let d = if s > 1 {
            s - 3
        } else if s < -1 {
            s + 3
        } else {
            s
        };
        Digit::from_i8(d)
    }
}

impl vstd::std_specs::ops::AddSpecImpl for Digit {
    open spec fn obeys_add_spec() -> bool {
        true
    }

    open spec fn add_req(self, other: Digit) -> bool {
        true
    }

    open spec fn add_spec(self, other: Digit) -> Digit {
        self.sum_digit(other)
    }
}

impl Sub for Digit {
    type Output = Digit;

    fn sub(self, other: Digit) -> (r: Digit)
        ensures
            r == self.diff_digit(other),
    {
        let s = self.to_i8() - other.to_i8();
        let d = if s > 1 {
            s - 3
        } else if s < -1 {
            s + 3
        } else {
            s
        };
        Digit::from_i8(d)
    }
}

impl vstd::std_specs::ops::SubSpecImpl for Digit {
    open spec fn obeys_sub_spec() -> bool {
        true
    }

    open spec fn sub_req(self, other: Digit) -> bool {
        true
    }

    open spec fn sub_spec(self, other: Digit) -> Digit {
        self.diff_digit(other)
    }
}

impl Mul for Digit {
    type Output = Digit;

    fn mul(self, other: Digit) -> (r: Digit)
        ensures
            r == digit_of(self.val() * other.val()),
    {
        self.k3_equiv(other)
    }
}

impl vstd::std_specs::ops::MulSpecImpl for Digit {
    open spec fn obeys_mul_spec() -> bool {
        true
    }

    open spec fn mul_req(self, other: Digit) -> bool {
        true
    }

    open spec fn mul_spec(self, other: Digit) -> Digit {
        digit_of(self.val() * other.val())
    }
}

impl Div for Digit {
    type Output = Digit;

    /// Division of digits; dividing by `Zero` is outside the domain.
    fn div(self, other: Digit) -> (r: Digit)
        ensures
            r == digit_of(self.val() * other.val()),
    {
        self.mul(other)
    }
}

impl vstd::std_specs::ops::DivSpecImpl for Digit {
    open spec fn obeys_div_spec() -> bool {
        true
    }

    open spec fn div_req(self, other: Digit) -> bool {
        other != Digit::Zero
    }

    open spec fn div_spec(self, other: Digit) -> Digit {
        digit_of(self.val() * other.val())
    }
}

impl BitAnd for Digit {
    type Output = Digit;

    /// Kleene conjunction: the smaller digit.
    fn bitand(self, other: Digit) -> (r: Digit)
        ensures
            r == self.min_digit(other),
    {
        if self.to_i8() <= other.to_i8() {
            self
        } else {
            other
        }
    }
}

impl vstd::std_specs::ops::BitAndSpecImpl for Digit {
    open spec fn obeys_bitand_spec() -> bool {
        true
    }

    open spec fn bitand_req(self, other: Digit) -> bool {
        true
    }

    open spec fn bitand_spec(self, other: Digit) -> Digit {
        self.min_digit(other)
    }
}

impl BitOr for Digit {
    type Output = Digit;

    /// Kleene disjunction: the larger digit.
    fn bitor(self, other: Digit) -> (r: Digit)
        ensures
            r == self.max_digit(other),
    {
        if self.to_i8() >= other.to_i8() {
            self
        } else {
            other
        }
    }
}

impl vstd::std_specs::ops::BitOrSpecImpl for Digit {
    open spec fn obeys_bitor_spec() -> bool {
        true
    }

    open spec fn bitor_req(self, other: Digit) -> bool {
        true
    }

    open spec fn bitor_spec(self, other: Digit) -> Digit {
        self.max_digit(other)
    }
}

impl BitXor for Digit {
    type Output = Digit;

    /// Kleene exclusive or: the negated product.
    fn bitxor(self, other: Digit) -> (r: Digit)
        ensures
            r == digit_of(-(self.val() * other.val())),
    {
        self.mul(other).neg()
    }
}

impl vstd::std_specs::ops::BitXorSpecImpl for Digit {
    open spec fn obeys_bitxor_spec() -> bool {
        true
    }

    open spec fn bitxor_req(self, other: Digit) -> bool {
        true
    }

    open spec fn bitxor_spec(self, other: Digit) -> Digit {
        digit_of(-(self.val() * other.val()))
    }
}

/// Post's negation cycles with period three, and `pre` undoes `post`.
pub proof fn lemma_post_cycle(d: Digit)
    ensures
        d.post().post().post() == d,
        d.post().pre() == d,
        d.pre().post() == d,
        d.post().post() == d.pre(),
{
}

/// Where consensus is non-zero, accept-anything gives the same digit.
pub proof fn lemma_consensus_implies_accept_anything(a: Digit, b: Digit)
    ensures
        a.consensus(b) != Digit::Zero ==> a.accept_anything(b) == a.consensus(b),
{
}

/// Digit negation is an involution and negates the value.
pub proof fn lemma_negation(d: Digit)
    ensures
        d.negated().negated() == d,
        d.negated().val() == -d.val(),
{
}

/// Adding digits keeps the sum modulo 3: the sum digit and the carry recompose it.
pub proof fn lemma_sum_digit_mod3(a: Digit, b: Digit)
    ensures
        (a.val() + b.val() - a.sum_digit(b).val()) % 3 == 0,
        (a.val() - b.val() - a.diff_digit(b).val()) % 3 == 0,
{
}

/// Accept-anything merges two words whose non-zero fields do not overlap
/// without loss: where one digit is `Zero`, the other one is kept.
pub proof fn lemma_accept_anything_merge(a: Digit, b: Digit)
    requires
        a == Digit::Zero || b == Digit::Zero,
    ensures
        a.accept_anything(b) == (if a == Digit::Zero { b } else { a }),
{
}

/// Kleene logic: `and` and `or` are dual under negation (De Morgan), and
/// both are commutative.
pub proof fn lemma_kleene_de_morgan(a: Digit, b: Digit)
    ensures
        a.min_digit(b).negated() == a.negated().max_digit(b.negated()),
        a.max_digit(b).negated() == a.negated().min_digit(b.negated()),
        a.min_digit(b) == b.min_digit(a),
        a.max_digit(b) == b.max_digit(a),
{
}

} // verus!
