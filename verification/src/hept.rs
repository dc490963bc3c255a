//! Heptavintimal (base-27) text for `Ternary`: one character per three digits.
use vstd::prelude::*;
use crate::digit::{Digit, digit_of};
use crate::model::{
    is_trimmed, lemma_fixed_unique, lemma_trim, lemma_trim_zeros_prefix, lemma_value_bound, max_value,
    pow3, trim_spec, value, zeros,
};
use vstd::utf8::{encode_scalar, encode_utf8};
use crate::ternary::Ternary;
use crate::text::{empty_string, push_char};
use vstd::string::StringSliceAdditionalSpecFns;

verus! {

/// The 27 heptavintimal symbols, for the values 0 (`---`) to 26 (`+++`).
pub open spec fn hept_alphabet() -> Seq<char> {
    seq![
        '0', '1', '2', '3', '4', '5', '6', '7', '8', '9', 'A', 'B', 'C', 'D', 'E', 'F', 'G', 'H',
        'K', 'M', 'N', 'P', 'R', 'T', 'V', 'X', 'Z',
    ]
}

/// The digits left-padded with zeros to a multiple of three.
pub open spec fn hept_padded(s: Seq<Digit>) -> Seq<Digit> {
    zeros(((3 - s.len() % 3) % 3) as nat) + s
}

/// The heptavintimal text of a digit sequence: the `k`-th character encodes the
/// `k`-th group of three padded digits, its value biased by 13.
pub open spec fn hept_spec(s: Seq<Digit>) -> Seq<char> {
    Seq::new(
        hept_padded(s).len() / 3,
        |k: int| hept_alphabet()[value(hept_padded(s).subrange(3 * k, 3 * k + 3)) + 13],
    )
}

/// The value 0..=26 of a heptavintimal byte, upper or lower case; -1 for any
/// other byte.
pub open spec fn hept_index(b: u8) -> int {
    if 48 <= b <= 57 {
        b - 48
    } else if 65 <= b <= 72 {
        b - 55
    } else if 97 <= b <= 104 {
        b - 87
    } else if b == 75 || b == 107 {
        18
    } else if b == 77 || b == 109 {
        19
    } else if b == 78 || b == 110 {
        20
    } else if b == 80 || b == 112 {
        21
    } else if b == 82 || b == 114 {
        22
    } else if b == 84 || b == 116 {
        23
    } else if b == 86 || b == 118 {
        24
    } else if b == 88 || b == 120 {
        25
    } else if b == 90 || b == 122 {
        26
    } else {
        -1
    }
}

/// The balanced residue of `v` modulo 3: -1, 0 or 1.
pub open spec fn balanced_residue(v: int) -> int {
    let r = v % 3;
    if r == 2 {
        -1
    } else {
        r
    }
}

/// The three balanced digits of `v` in `-13..=13`, most significant first.
pub open spec fn trybble(v: int) -> Seq<Digit> {
    let t2 = balanced_residue(v);
    let v1 = (v - t2) / 3;
    let t1 = balanced_residue(v1);
    let t0 = (v1 - t1) / 3;
    seq![digit_of(t0), digit_of(t1), digit_of(t2)]
}

/// The digits a heptavintimal byte string stands for, before trimming.
pub open spec fn hept_digits(bytes: Seq<u8>) -> Seq<Digit>
    decreases bytes.len(),
{
    if bytes.len() == 0 {
        Seq::empty()
    } else {
        hept_digits(bytes.drop_last()) + trybble(hept_index(bytes.last()) - 13)
    }
}

/// The value of three digits.
proof fn lemma_value3(s: Seq<Digit>)
    requires
        s.len() == 3,
    ensures
        value(s) == s[0].val() * 9 + s[1].val() * 3 + s[2].val(),
{
    reveal_with_fuel(value, 4);
    assert(s.drop_last().drop_last().drop_last() =~= Seq::<Digit>::empty());
}

/// The trybble of `v` is three digits worth `v`.
proof fn lemma_trybble(v: int)
    requires
        -13 <= v <= 13,
    ensures
        trybble(v).len() == 3,
        value(trybble(v)) == v,
{
    lemma_value3(trybble(v));
}

/// The symbol for a biased trybble value.
fn hept_char(v: usize) -> (c: char)
    requires
        v < 27,
    ensures
        c == hept_alphabet()[v as int],
{
    let chars: [char; 27] = [
        '0', '1', '2', '3', '4', '5', '6', '7', '8', '9', 'A', 'B', 'C', 'D', 'E', 'F', 'G', 'H',
        'K', 'M', 'N', 'P', 'R', 'T', 'V', 'X', 'Z',
    ];
    assert(chars@ =~= hept_alphabet());
    chars[v]
}

/// The value of a heptavintimal byte, or `None`.
fn hept_value(b: u8) -> (r: Option<i8>)
    ensures
        hept_index(b) < 0 ==> r.is_none(),
        hept_index(b) >= 0 ==> r == Some(hept_index(b) as i8),
{
    if 48 <= b && b <= 57 {
        Some((b - 48) as i8)
    } else if 65 <= b && b <= 72 {
        Some((b - 55) as i8)
    } else if 97 <= b && b <= 104 {
        Some((b - 87) as i8)
    } else if b == 75 || b == 107 {
        Some(18)
    } else if b == 77 || b == 109 {
        Some(19)
    } else if b == 78 || b == 110 {
        Some(20)
    } else if b == 80 || b == 112 {
        Some(21)
    } else if b == 82 || b == 114 {
        Some(22)
    } else if b == 84 || b == 116 {
        Some(23)
    } else if b == 86 || b == 118 {
        Some(24)
    } else if b == 88 || b == 120 {
        Some(25)
    } else if b == 90 || b == 122 {
        Some(26)
    } else {
        None
    }
}

/// The balanced residue of a small integer.
fn residue(v: i8) -> (r: i8)
    requires
        -14 <= v <= 14,
    ensures
        r == balanced_residue(v as int),
{
    let m = ((v % 3) + 3) % 3;
    if m == 2 {
        -1
    } else {
        m
    }
}

impl Ternary {
    /// Heptavintimal text: the digits are left-padded with zeros to a multiple
    /// of three and each group becomes one of `0-9 A-H K M N P R T V X Z`.
    pub fn to_heptavintimal(&self) -> (s: String)
        ensures
            s@ == hept_spec(self@),
    {
        let digits = self.to_digit_slice();
        let len = digits.len();
        let pad = (3 - len % 3) % 3;
        let groups = (len + pad) / 3;
        let ghost padded = hept_padded(self@);
        let mut out = empty_string();
        let mut k: usize = 0;
        assert(padded.len() == len + pad);
        while k < groups
            invariant
                k <= groups,
                groups * 3 == len + pad,
                len == self@.len(),
                digits@ == self@,
                pad == (3 - len % 3) % 3,
                padded == hept_padded(self@),
                padded.len() == len + pad,
                out@ == hept_spec(self@).take(k as int),
            decreases groups - k,
        {
            let i0 = 3 * k;
            let d0 = if i0 < pad {
                Digit::Zero
            } else {
                digits[i0 - pad]
            };
            let d1 = if i0 + 1 < pad {
                Digit::Zero
            } else {
                digits[i0 + 1 - pad]
            };
            let d2 = if i0 + 2 < pad {
                Digit::Zero
            } else {
                digits[i0 + 2 - pad]
            };
            let ghost group = padded.subrange(3 * k as int, 3 * k + 3);
            proof {
                assert(group[0] == d0);
                assert(group[1] == d1);
                assert(group[2] == d2);
                lemma_value3(group);
            }
            let v = (d0.to_i8() * 9 + d1.to_i8() * 3 + d2.to_i8() + 13) as usize;
            let c = hept_char(v);
            push_char(&mut out, c);
            k += 1;
            assert(out@ =~= hept_spec(self@).take(k as int));
        }
        assert(hept_spec(self@).take(groups as int) =~= hept_spec(self@));
        out
    }

    /// Reads heptavintimal text (upper or lower case): each symbol gives three
    /// digits, and the result is canonical. `None` when a byte is not a symbol.
    pub fn from_heptavintimal(s: &str) -> (r: Option<Ternary>)
        ensures
            (forall|i: int| 0 <= i < s.spec_bytes().len() ==> hept_index(s.spec_bytes()[i]) >= 0)
                <==> r.is_some(),
            r matches Some(t) ==> t@ == trim_spec(hept_digits(s.spec_bytes())),
    {
        let bytes = s.as_bytes();
        let mut digits: Vec<Digit> = Vec::new();
        let mut i: usize = 0;
        while i < bytes.len()
            invariant
                i <= bytes@.len(),
                bytes@ == s.spec_bytes(),
                forall|j: int| 0 <= j < i ==> hept_index(bytes@[j]) >= 0,
                digits@ == hept_digits(bytes@.take(i as int)),
            decreases bytes@.len() - i,
        {
            let b = bytes[i];
            let hv = hept_value(b);
            match hv {
                None => {
                    return None;
                },
                Some(h) => {
                    let v = h - 13;
                    let t2 = residue(v);
                    let v1 = (v - t2) / 3;
                    let t1 = residue(v1);
                    let t0 = (v1 - t1) / 3;
                    proof {
                        assert((v - t2) % 3 == 0);
                        assert((v1 - t1) % 3 == 0);
                    }
                    let ghost old_digits = digits@;
                    digits.push(Digit::from_i8(t0));
                    digits.push(Digit::from_i8(t1));
                    digits.push(Digit::from_i8(t2));
                    proof {
                        assert(bytes@.take(i + 1).drop_last() =~= bytes@.take(i as int));
                        assert(digits@ =~= old_digits + trybble(hept_index(b) - 13));
                    }
                },
            }
            i += 1;
        }
        assert(bytes@.take(bytes@.len() as int) =~= bytes@);
        let raw = Ternary::new(digits);
        Some(raw.trim())
    }
}

/// Each symbol is ASCII and reads back as its own index.
proof fn lemma_alphabet_index(v: int)
    requires
        0 <= v < 27,
    ensures
        (hept_alphabet()[v] as u32) < 128,
        hept_index((hept_alphabet()[v] as u32) as u8) == v,
{
    assert(hept_alphabet()[0] == '0');
    assert(hept_alphabet()[v] == seq![
        '0', '1', '2', '3', '4', '5', '6', '7', '8', '9', 'A', 'B', 'C', 'D', 'E', 'F', 'G', 'H',
        'K', 'M', 'N', 'P', 'R', 'T', 'V', 'X', 'Z',
    ][v]);
    if v < 10 {
        assert(hept_alphabet()[v] as u32 == 48 + v);
    } else if v < 18 {
        assert(hept_alphabet()[v] as u32 == 55 + v);
    }
}

/// The UTF-8 bytes of ASCII characters are their codes.
pub(crate) proof fn lemma_ascii_bytes(chars: Seq<char>)
    requires
        forall|i: int| 0 <= i < chars.len() ==> (chars[i] as u32) < 128,
    ensures
        encode_utf8(chars) == chars.map_values(|c: char| (c as u32) as u8),
    decreases chars.len(),
{
    if chars.len() > 0 {
        let rest = chars.drop_first();
        lemma_ascii_bytes(rest);
        let c = chars[0] as u32;
        assert(((c & 0x7F) as u8) == c as u8) by (bit_vector)
            requires
                c < 128,
        ;
        assert(encode_scalar(c) == seq![c as u8]);
        assert(chars.map_values(|c: char| (c as u32) as u8) =~= seq![c as u8] + rest.map_values(
            |c: char| (c as u32) as u8,
        ));
    } else {
        assert(chars.map_values(|c: char| (c as u32) as u8) =~= Seq::<u8>::empty());
    }
}

/// Three digits are the trybble of their value.
proof fn lemma_trybble_of(g: Seq<Digit>)
    requires
        g.len() == 3,
    ensures
        -13 <= value(g) <= 13,
        trybble(value(g)) == g,
{
    lemma_value_bound(g);
    reveal_with_fuel(pow3, 4);
    assert(max_value(3) == 13);
    lemma_trybble(value(g));
    lemma_fixed_unique(trybble(value(g)), g);
}

/// The digits read from the first `k` symbols are the first `3k` padded digits.
proof fn lemma_hept_prefix(bytes: Seq<u8>, p: Seq<Digit>, k: int)
    requires
        0 <= k <= bytes.len(),
        p.len() == 3 * bytes.len(),
        forall|j: int|
            0 <= j < bytes.len() ==> trybble(value(#[trigger] p.subrange(3 * j, 3 * j + 3)))
                == p.subrange(3 * j, 3 * j + 3),
        forall|j: int|
            0 <= j < bytes.len() ==> hept_index(#[trigger] bytes[j]) == value(
                p.subrange(3 * j, 3 * j + 3),
            ) + 13,
    ensures
        hept_digits(bytes.take(k)) == p.take(3 * k),
    decreases k,
{
    if k == 0 {
        assert(bytes.take(0) =~= Seq::<u8>::empty());
        assert(p.take(0) =~= Seq::<Digit>::empty());
    } else {
        lemma_hept_prefix(bytes, p, k - 1);
        let j = k - 1;
        assert(bytes.take(k).drop_last() =~= bytes.take(j));
        assert(bytes.take(k).last() == bytes[j]);
        assert(hept_index(bytes[j]) - 13 == value(p.subrange(3 * j, 3 * j + 3)));
        assert(trybble(value(p.subrange(3 * j, 3 * j + 3))) == p.subrange(3 * j, 3 * j + 3));
        assert(p.take(3 * j) + p.subrange(3 * j, 3 * j + 3) =~= p.take(3 * k));
    }
}

/// Reading back the heptavintimal text of any digits: every byte is a symbol,
/// and the digits read are the given ones up to leading zeros, so
/// `from_heptavintimal` of `to_heptavintimal(t)` is `Some` of `t` trimmed.
pub proof fn lemma_hept_roundtrip(s: Seq<Digit>)
    ensures
        forall|i: int|
            0 <= i < encode_utf8(hept_spec(s)).len() ==> hept_index(
                #[trigger] encode_utf8(hept_spec(s))[i],
            ) >= 0,
        trim_spec(hept_digits(encode_utf8(hept_spec(s)))) == trim_spec(s),
{
    let chars = hept_spec(s);
    let p = hept_padded(s);
    let g: int = (p.len() / 3) as int;
    assert(p.len() % 3 == 0);
    assert forall|k: int| 0 <= k < g implies {
        &&& -13 <= #[trigger] value(p.subrange(3 * k, 3 * k + 3)) <= 13
        &&& trybble(value(p.subrange(3 * k, 3 * k + 3))) == p.subrange(3 * k, 3 * k + 3)
        &&& (chars[k] as u32) < 128
        &&& hept_index((chars[k] as u32) as u8) == value(p.subrange(3 * k, 3 * k + 3)) + 13
    } by {
        lemma_trybble_of(p.subrange(3 * k, 3 * k + 3));
        lemma_alphabet_index(value(p.subrange(3 * k, 3 * k + 3)) + 13);
    }
    lemma_ascii_bytes(chars);
    let bytes = encode_utf8(chars);
    assert(bytes.len() == g);
    assert forall|j: int| 0 <= j < bytes.len() implies hept_index(#[trigger] bytes[j]) == value(
        p.subrange(3 * j, 3 * j + 3),
    ) + 13 by {
        assert(bytes[j] == (chars[j] as u32) as u8);
        assert(-13 <= value(p.subrange(3 * j, 3 * j + 3)) <= 13);
    }
    lemma_hept_prefix(bytes, p, g);
    assert(bytes.take(g) =~= bytes);
    assert(p.take(3 * g) =~= p);
    lemma_trim_zeros_prefix(((3 - s.len() % 3) % 3) as nat, s);
    assert forall|i: int| 0 <= i < bytes.len() implies hept_index(#[trigger] bytes[i]) >= 0 by {
        assert(bytes[i] == (chars[i] as u32) as u8);
    }
}

/// The heptavintimal symbols are the fixed text `0123456789ABCDEFGHKMNPRTVXZ`:
/// biased value `k` is written with its `k`-th character, and reading that
/// character, or its lower-case form, gives `k` back.
pub proof fn lemma_hept_alphabet_text(k: int)
    requires
        0 <= k < 27,
    ensures
        hept_alphabet() == "0123456789ABCDEFGHKMNPRTVXZ"@,
        hept_index((("0123456789ABCDEFGHKMNPRTVXZ"@[k]) as u32) as u8) == k,
        hept_index((("0123456789abcdefghkmnprtvxz"@[k]) as u32) as u8) == k,
{
    reveal_strlit("0123456789ABCDEFGHKMNPRTVXZ");
    reveal_strlit("0123456789abcdefghkmnprtvxz");
    assert(hept_alphabet() =~= "0123456789ABCDEFGHKMNPRTVXZ"@);
}

} // verus!
