//! Unbalanced (standard base-3) text for `Ternary`, and checked parsing.
use vstd::prelude::*;
use crate::digit::Digit;
use crate::model::{abs_int, is_trimmed, lemma_value_single, value};
use crate::ternary::{Ternary, byte_digit, fits_i64};
use crate::text::{empty_string, push_char};
use vstd::string::StringSliceAdditionalSpecFns;

verus! {

/// The character of a base-3 digit 0, 1 or 2.
pub open spec fn base3_char(d: int) -> char {
    if d == 0 {
        '0'
    } else if d == 1 {
        '1'
    } else {
        '2'
    }
}

/// The base-3 digits of a natural number, most significant first; `0` for zero.
pub open spec fn base3_chars(n: nat) -> Seq<char>
    decreases n,
{
    if n < 3 {
        seq![base3_char(n as int)]
    } else {
        base3_chars(n / 3).push(base3_char((n % 3) as int))
    }
}

/// The unbalanced text of an integer: an optional `-` and its base-3 digits.
pub open spec fn unbalanced_text(v: int) -> Seq<char> {
    if v < 0 {
        seq!['-'] + base3_chars((-v) as nat)
    } else {
        base3_chars(v as nat)
    }
}

/// The bytes after an optional leading sign.
pub open spec fn unsigned_part(b: Seq<u8>) -> Seq<u8> {
    if b.len() > 0 && (b[0] == 43u8 || b[0] == 45u8) {
        b.drop_first()
    } else {
        b
    }
}

/// The number that base-3 digit bytes stand for.
pub open spec fn base3_value(b: Seq<u8>) -> int
    decreases b.len(),
{
    if b.len() == 0 {
        0
    } else {
        base3_value(b.drop_last()) * 3 + (b.last() - 48)
    }
}

/// The signed number of an unbalanced text.
pub open spec fn unbalanced_value(b: Seq<u8>) -> int {
    if b.len() > 0 && b[0] == 45u8 {
        -base3_value(unsigned_part(b))
    } else {
        base3_value(unsigned_part(b))
    }
}

/// An unbalanced text that `i64` parsing in base 3 accepts: an optional sign,
/// at least one digit, only the digits `0`, `1` and `2`, and a value in `i64`.
pub open spec fn is_unbalanced_i64(b: Seq<u8>) -> bool {
    let u = unsigned_part(b);
    &&& u.len() > 0
    &&& forall|i: int| 0 <= i < u.len() ==> 48 <= #[trigger] u[i] <= 50
    &&& i64::MIN <= unbalanced_value(b) <= i64::MAX
}

/// A balanced ternary text: only the bytes `+`, `0` and `-`.
pub open spec fn is_balanced_text(b: Seq<u8>) -> bool {
    forall|i: int| 0 <= i < b.len() ==> (#[trigger] b[i] == 43u8 || b[i] == 48u8 || b[i] == 45u8)
}

/// Error returned when a string is not a balanced ternary text.
#[derive(Debug, Clone, PartialEq, Eq)]
pub struct ParseTernaryError;

impl ParseTernaryError {
    /// The message of the error.
    pub fn message(&self) -> (s: &'static str)
        ensures
            s@ == "invalid character in balanced ternary string"@,
    {
        "invalid character in balanced ternary string"
    }
}

/// Base-3 digit bytes stand for a natural number.
proof fn lemma_base3_nonneg(b: Seq<u8>)
    requires
        forall|i: int| 0 <= i < b.len() ==> 48 <= #[trigger] b[i] <= 50,
    ensures
        base3_value(b) >= 0,
    decreases b.len(),
{
    if b.len() > 0 {
        let c = b.drop_last();
        assert forall|i: int| 0 <= i < c.len() implies 48 <= #[trigger] c[i] <= 50 by {
            assert(c[i] == b[i]);
        }
        lemma_base3_nonneg(c);
    }
}

/// Base-3 digit bytes never decrease in value as digits are appended.
proof fn lemma_base3_prefix(b: Seq<u8>, k: int)
    requires
        0 <= k <= b.len(),
        forall|i: int| 0 <= i < b.len() ==> 48 <= #[trigger] b[i] <= 50,
    ensures
        0 <= base3_value(b.take(k)) <= base3_value(b),
    decreases b.len() - k,
{
    let t = b.take(k);
    assert forall|i: int| 0 <= i < t.len() implies 48 <= #[trigger] t[i] <= 50 by {
        assert(t[i] == b[i]);
    }
    lemma_base3_nonneg(t);
    if k < b.len() {
        lemma_base3_prefix(b, k + 1);
        assert(b.take(k + 1).drop_last() =~= t);
        assert(b.take(k + 1).last() == b[k]);
    } else {
        assert(t =~= b);
    }
}

impl Ternary {
    /// The value written in standard base 3 (`0`, `1`, `2`), with a leading `-`
    /// when negative. The value must fit an `i64`.
    pub fn to_unbalanced(&self) -> (s: String)
        requires
            fits_i64(value(self@)),
        ensures
            s@ == unbalanced_text(value(self@)),
    {
        let v = self.to_dec();
        let mag: u64 = if v < 0 {
            (-v) as u64
        } else {
            v as u64
        };
        let mut chars: Vec<char> = Vec::new();
        let first = mag % 3;
        let mut x = mag / 3;
        chars.push(if first == 0 {
            '0'
        } else if first == 1 {
            '1'
        } else {
            '2'
        });
        while x > 0
            invariant
                base3_chars(mag as nat) == if x == 0 {
                    chars@
                } else {
                    base3_chars(x as nat) + chars@
                },
            decreases x,
        {
            let m = x % 3;
            let c = if m == 0 {
                '0'
            } else if m == 1 {
                '1'
            } else {
                '2'
            };
            let ghost old_chars = chars@;
            chars.insert(0, c);
            proof {
                assert(chars@ =~= seq![c] + old_chars);
                if x < 3 {
                    assert(base3_chars(x as nat) =~= seq![c]);
                } else {
                    assert(base3_chars(x as nat) =~= base3_chars((x / 3) as nat).push(c));
                    assert(base3_chars((x / 3) as nat) + chars@ =~= base3_chars(x as nat)
                        + old_chars);
                }
            }
            x = x / 3;
        }
        let mut out = empty_string();
        if v < 0 {
            push_char(&mut out, '-');
        }
        let ghost prefix = out@;
        let mut i: usize = 0;
        while i < chars.len()
            invariant
                i <= chars@.len(),
                out@ == prefix + chars@.take(i as int),
            decreases chars@.len() - i,
        {
            push_char(&mut out, chars[i]);
            i += 1;
            assert(out@ =~= prefix + chars@.take(i as int));
        }
        assert(chars@.take(chars@.len() as int) =~= chars@);
        assert(out@ =~= unbalanced_text(value(self@)));
        out
    }

    /// Reads an unbalanced base-3 text with an optional sign, as `i64` parsing in
    /// base 3 reads it, and gives the canonical balanced form of its value.
    pub fn from_unbalanced(unbalanced: &str) -> (t: Ternary)
        requires
            is_unbalanced_i64(unbalanced.spec_bytes()),
        ensures
            value(t@) == unbalanced_value(unbalanced.spec_bytes()),
            is_trimmed(t@),
    {
        let bytes = unbalanced.as_bytes();
        let negative = bytes[0] == 45u8;
        let start: usize = if bytes[0] == 43u8 || bytes[0] == 45u8 {
            1
        } else {
            0
        };
        let ghost u = unsigned_part(bytes@);
        assert(u =~= bytes@.skip(start as int));
        let mut acc: i128 = 0;
        let mut i: usize = start;
        while i < bytes.len()
            invariant
                start <= i <= bytes@.len(),
                bytes@ == unbalanced.spec_bytes(),
                u == bytes@.skip(start as int),
                u == unsigned_part(bytes@),
                is_unbalanced_i64(bytes@),
                acc == base3_value(u.take(i - start)),
            decreases bytes@.len() - i,
        {
            proof {
                lemma_base3_prefix(u, i - start + 1);
                assert(u.take(i - start + 1).drop_last() =~= u.take(i - start));
                assert(u[i - start] == bytes@[i as int]);
                assert(48 <= u[i - start] <= 50);
                lemma_base3_prefix(u, u.len() as int);
                assert(u.take(u.len() as int) =~= u);
            }
            let d = (bytes[i] - 48u8) as i128;
            acc = acc * 3 + d;
            i += 1;
        }
        assert(u.take(i - start) =~= u);
        let v: i64 = if negative {
            (-acc) as i64
        } else {
            acc as i64
        };
        Ternary::from_dec(v)
    }

    /// Reads a balanced ternary text, refusing any byte other than `+`, `0`, `-`.
    pub fn try_parse(s: &str) -> (r: Result<Ternary, ParseTernaryError>)
        ensures
            is_balanced_text(s.spec_bytes()) <==> r.is_ok(),
            r matches Ok(t) ==> t@ == s.spec_bytes().map_values(|b: u8| byte_digit(b)),
    {
        let bytes = s.as_bytes();
        let mut i: usize = 0;
        while i < bytes.len()
            invariant
                i <= bytes@.len(),
                bytes@ == s.spec_bytes(),
                forall|j: int|
                    0 <= j < i ==> (#[trigger] bytes@[j] == 43u8 || bytes@[j] == 48u8 || bytes@[j]
                        == 45u8),
            decreases bytes@.len() - i,
        {
            let b = bytes[i];
            if !(b == 43u8 || b == 48u8 || b == 45u8) {
                return Err(ParseTernaryError);
            }
            i += 1;
        }
        Ok(Ternary::parse(s))
    }
}

impl std::str::FromStr for Ternary {
    type Err = ParseTernaryError;

    fn from_str(s: &str) -> (r: Result<Ternary, ParseTernaryError>)
        ensures
            is_balanced_text(s.spec_bytes()) <==> r.is_ok(),
            r matches Ok(t) ==> t@ == s.spec_bytes().map_values(|b: u8| byte_digit(b)),
    {
        Ternary::try_parse(s)
    }
}

impl Digit {
    /// The number one more than the digit: `0`, `+` or `+-`.
    pub fn inc(self) -> (t: Ternary)
        ensures
            value(t@) == self.val() + 1,
            is_trimmed(t@),
    {
        let v: i64 = match self {
            Digit::Neg => 0,
            Digit::Zero => 1,
            Digit::Pos => 2,
        };
        Ternary::from_dec(v)
    }

    /// The number one less than the digit: `-+`, `-` or `0`.
    pub fn dec(self) -> (t: Ternary)
        ensures
            value(t@) == self.val() - 1,
            is_trimmed(t@),
    {
        let v: i64 = match self {
            Digit::Neg => -2,
            Digit::Zero => -1,
            Digit::Pos => 0,
        };
        Ternary::from_dec(v)
    }
}

/// The digit a character stands for: `+`, `0` or `-`.
pub fn trit(from: char) -> (d: Digit)
    requires
        from == '-' || from == '0' || from == '+',
    ensures
        d.to_char() == from,
{
    Digit::from_char(from)
}

/// Shorthand for [`Ternary::parse`] on text of `+`, `0` and `-` only.
pub fn ter(from: &str) -> (t: Ternary)
    requires
        is_balanced_text(from.spec_bytes()),
    ensures
        t@ == from.spec_bytes().map_values(|b: u8| byte_digit(b)),
{
    Ternary::parse(from)
}

/// The byte of a base-3 digit character.
proof fn lemma_base3_char(d: int)
    requires
        0 <= d < 3,
    ensures
        (base3_char(d) as u32) == 48 + d,
        ((base3_char(d) as u32) as u8) == 48 + d,
{
    if d == 0 {
        assert(('0' as u32) == 48);
    } else if d == 1 {
        assert(('1' as u32) == 49);
    } else {
        assert(('2' as u32) == 50);
    }
}

/// A character is a base-3 digit.
pub open spec fn is_base3_char(c: char) -> bool {
    48 <= (c as u32) <= 50
}

/// The base-3 digits of `n` are ASCII digits, and read back as standard
/// base 3 they give `n`.
proof fn lemma_base3_chars_value(n: nat)
    ensures
        base3_chars(n).len() > 0,
        forall|i: int| 0 <= i < base3_chars(n).len() ==> is_base3_char(#[trigger] base3_chars(n)[i]),
        base3_value(base3_chars(n).map_values(|c: char| (c as u32) as u8)) == n,
    decreases n,
{
    let cs = base3_chars(n);
    let bs = cs.map_values(|c: char| (c as u32) as u8);
    if n < 3 {
        lemma_base3_char(n as int);
        assert(cs =~= seq![base3_char(n as int)]);
        assert(bs.drop_last() =~= Seq::<u8>::empty());
        assert(bs.last() == 48 + n);
        assert(base3_value(bs) == base3_value(bs.drop_last()) * 3 + (bs.last() - 48));
        assert(base3_value(bs.drop_last()) == 0);
    } else {
        lemma_base3_chars_value(n / 3);
        lemma_base3_char((n % 3) as int);
        let init = base3_chars(n / 3);
        assert(cs =~= init.push(base3_char((n % 3) as int)));
        assert(bs.drop_last() =~= init.map_values(|c: char| (c as u32) as u8));
        assert(bs.last() == 48 + n % 3);
        assert(base3_value(bs) == base3_value(bs.drop_last()) * 3 + (bs.last() - 48));
        assert(base3_value(bs.drop_last()) == n / 3);
        assert(n == (n / 3) * 3 + n % 3);
        assert forall|i: int| 0 <= i < cs.len() implies is_base3_char(#[trigger] cs[i]) by {
            if i < init.len() {
                assert(cs[i] == init[i]);
            }
        }
    }
}

/// Reading the text of `to_unbalanced` back as standard base 3 gives the value:
/// for every `v`, the bytes of `unbalanced_text(v)` stand for `v`, and when `v`
/// fits an `i64` they are a text that `from_unbalanced` accepts.
pub proof fn lemma_unbalanced_roundtrip(v: int)
    ensures
        unbalanced_value(vstd::utf8::encode_utf8(unbalanced_text(v))) == v,
        fits_i64(v) ==> is_unbalanced_i64(vstd::utf8::encode_utf8(unbalanced_text(v))),
{
    let n: nat = if v < 0 { (-v) as nat } else { v as nat };
    lemma_base3_chars_value(n);
    let digits = base3_chars(n);
    let text = unbalanced_text(v);
    assert forall|i: int| 0 <= i < text.len() implies (#[trigger] text[i] as u32) < 128 by {
        if v < 0 {
            if i > 0 {
                assert(text[i] == digits[i - 1]);
                assert(is_base3_char(digits[i - 1]));
            } else {
                assert(text[0] == '-');
                assert(('-' as u32) == 45);
            }
        } else {
            assert(text[i] == digits[i]);
            assert(is_base3_char(digits[i]));
        }
    }
    crate::hept::lemma_ascii_bytes(text);
    let b = vstd::utf8::encode_utf8(text);
    let db = digits.map_values(|c: char| (c as u32) as u8);
    assert forall|i: int| 0 <= i < db.len() implies 48 <= #[trigger] db[i] <= 50 by {
        assert(is_base3_char(digits[i]));
        let c = digits[i] as u32;
        assert((c as u8) == c) by (bit_vector)
            requires
                48 <= c <= 50,
        ;
    }
    if v < 0 {
        assert(('-' as u32) == 45);
        assert(b[0] == 45u8);
        assert(unsigned_part(b) =~= db);
    } else {
        assert(b =~= db);
        assert(48 <= db[0] <= 50);
        assert(unsigned_part(b) =~= db);
    }
    assert forall|i: int| 0 <= i < unsigned_part(b).len() implies 48 <= #[trigger] unsigned_part(
        b,
    )[i] <= 50 by {
        assert(unsigned_part(b)[i] == db[i]);
    }
}

} // verus!
