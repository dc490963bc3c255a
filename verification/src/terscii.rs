//! TerSCII: a character encoding of 81 characters, one per value `0..=80`
//! of four balanced trits (stored in five-trit trytes).
use vstd::prelude::*;
use vstd::string::StrSliceExecFns;
use crate::model::{is_trimmed, value};
use crate::ternary::{Ternary, fits_i64};
use crate::text::{empty_string, push_char};
use crate::tryte::{Tryte, lemma_wrap_in_range};

verus! {

/// The 81 TerSCII characters in the order of their values.
pub const TABLE: &'static str = "\x00 09IR_ir\x01-1AJSajs\x02'2BKTbkt\x03,3CLUclu\x04;4DMVdmv\x05:5ENWenw\x06.6FOXfox\x07!7GPYgpy\x08?8HQZhqz";

/// The TerSCII value of a character: its position in the table, or -1 when
/// the table does not hold it.
pub open spec fn terscii_code(c: char) -> int {
    if c == '\x00' {
        0
    } else if c == ' ' {
        1
    } else if c == '0' {
        2
    } else if c == '9' {
        3
    } else if c == 'I' {
        4
    } else if c == 'R' {
        5
    } else if c == '_' {
        6
    } else if c == 'i' {
        7
    } else if c == 'r' {
        8
    } else if c == '\x01' {
        9
    } else if c == '-' {
        10
    } else if c == '1' {
        11
    } else if c == 'A' {
        12
    } else if c == 'J' {
        13
    } else if c == 'S' {
        14
    } else if c == 'a' {
        15
    } else if c == 'j' {
        16
    } else if c == 's' {
        17
    } else if c == '\x02' {
        18
    } else if c == '\'' {
        19
    } else if c == '2' {
        20
    } else if c == 'B' {
        21
    } else if c == 'K' {
        22
    } else if c == 'T' {
        23
    } else if c == 'b' {
        24
    } else if c == 'k' {
        25
    } else if c == 't' {
        26
    } else if c == '\x03' {
        27
    } else if c == ',' {
        28
    } else if c == '3' {
        29
    } else if c == 'C' {
        30
    } else if c == 'L' {
        31
    } else if c == 'U' {
        32
    } else if c == 'c' {
        33
    } else if c == 'l' {
        34
    } else if c == 'u' {
        35
    } else if c == '\x04' {
        36
    } else if c == ';' {
        37
    } else if c == '4' {
        38
    } else if c == 'D' {
        39
    } else if c == 'M' {
        40
    } else if c == 'V' {
        41
    } else if c == 'd' {
        42
    } else if c == 'm' {
        43
    } else if c == 'v' {
        44
    } else if c == '\x05' {
        45
    } else if c == ':' {
        46
    } else if c == '5' {
        47
    } else if c == 'E' {
        48
    } else if c == 'N' {
        49
    } else if c == 'W' {
        50
    } else if c == 'e' {
        51
    } else if c == 'n' {
        52
    } else if c == 'w' {
        53
    } else if c == '\x06' {
        54
    } else if c == '.' {
        55
    } else if c == '6' {
        56
    } else if c == 'F' {
        57
    } else if c == 'O' {
        58
    } else if c == 'X' {
        59
    } else if c == 'f' {
        60
    } else if c == 'o' {
        61
    } else if c == 'x' {
        62
    } else if c == '\x07' {
        63
    } else if c == '!' {
        64
    } else if c == '7' {
        65
    } else if c == 'G' {
        66
    } else if c == 'P' {
        67
    } else if c == 'Y' {
        68
    } else if c == 'g' {
        69
    } else if c == 'p' {
        70
    } else if c == 'y' {
        71
    } else if c == '\x08' {
        72
    } else if c == '?' {
        73
    } else if c == '8' {
        74
    } else if c == 'H' {
        75
    } else if c == 'Q' {
        76
    } else if c == 'Z' {
        77
    } else if c == 'h' {
        78
    } else if c == 'q' {
        79
    } else if c == 'z' {
        80
    } else {
        -1
    }
}

/// The character of a TerSCII value `0..=80`.
pub open spec fn terscii_char(v: int) -> char {
    if v == 0 {
        '\x00'
    } else if v == 1 {
        ' '
    } else if v == 2 {
        '0'
    } else if v == 3 {
        '9'
    } else if v == 4 {
        'I'
    } else if v == 5 {
        'R'
    } else if v == 6 {
        '_'
    } else if v == 7 {
        'i'
    } else if v == 8 {
        'r'
    } else if v == 9 {
        '\x01'
    } else if v == 10 {
        '-'
    } else if v == 11 {
        '1'
    } else if v == 12 {
        'A'
    } else if v == 13 {
        'J'
    } else if v == 14 {
        'S'
    } else if v == 15 {
        'a'
    } else if v == 16 {
        'j'
    } else if v == 17 {
        's'
    } else if v == 18 {
        '\x02'
    } else if v == 19 {
        '\''
    } else if v == 20 {
        '2'
    } else if v == 21 {
        'B'
    } else if v == 22 {
        'K'
    } else if v == 23 {
        'T'
    } else if v == 24 {
        'b'
    } else if v == 25 {
        'k'
    } else if v == 26 {
        't'
    } else if v == 27 {
        '\x03'
    } else if v == 28 {
        ','
    } else if v == 29 {
        '3'
    } else if v == 30 {
        'C'
    } else if v == 31 {
        'L'
    } else if v == 32 {
        'U'
    } else if v == 33 {
        'c'
    } else if v == 34 {
        'l'
    } else if v == 35 {
        'u'
    } else if v == 36 {
        '\x04'
    } else if v == 37 {
        ';'
    } else if v == 38 {
        '4'
    } else if v == 39 {
        'D'
    } else if v == 40 {
        'M'
    } else if v == 41 {
        'V'
    } else if v == 42 {
        'd'
    } else if v == 43 {
        'm'
    } else if v == 44 {
        'v'
    } else if v == 45 {
        '\x05'
    } else if v == 46 {
        ':'
    } else if v == 47 {
        '5'
    } else if v == 48 {
        'E'
    } else if v == 49 {
        'N'
    } else if v == 50 {
        'W'
    } else if v == 51 {
        'e'
    } else if v == 52 {
        'n'
    } else if v == 53 {
        'w'
    } else if v == 54 {
        '\x06'
    } else if v == 55 {
        '.'
    } else if v == 56 {
        '6'
    } else if v == 57 {
        'F'
    } else if v == 58 {
        'O'
    } else if v == 59 {
        'X'
    } else if v == 60 {
        'f'
    } else if v == 61 {
        'o'
    } else if v == 62 {
        'x'
    } else if v == 63 {
        '\x07'
    } else if v == 64 {
        '!'
    } else if v == 65 {
        '7'
    } else if v == 66 {
        'G'
    } else if v == 67 {
        'P'
    } else if v == 68 {
        'Y'
    } else if v == 69 {
        'g'
    } else if v == 70 {
        'p'
    } else if v == 71 {
        'y'
    } else if v == 72 {
        '\x08'
    } else if v == 73 {
        '?'
    } else if v == 74 {
        '8'
    } else if v == 75 {
        'H'
    } else if v == 76 {
        'Q'
    } else if v == 77 {
        'Z'
    } else if v == 78 {
        'h'
    } else if v == 79 {
        'q'
    } else {
        'z'
    }
}

/// Every character of the table is read back from its value, and every value
/// `0..=80` is the value of its character.
pub proof fn lemma_terscii_roundtrip(c: char, v: int)
    ensures
        terscii_code(c) >= 0 ==> terscii_char(terscii_code(c)) == c,
        0 <= v < 81 ==> terscii_code(terscii_char(v)) == v,
        -1 <= terscii_code(c) < 81,
{
}

/// The encoding is the table: for every value `v` in `0..=80` the character
/// at position `v` of `TABLE` is the one TerSCII gives `v`, and its code is `v`.
pub proof fn lemma_terscii_table(v: int)
    requires
        0 <= v < 81,
    ensures
        TABLE@.len() == 81,
        terscii_char(v) == TABLE@[v],
        terscii_code(TABLE@[v]) == v,
{
    reveal_strlit("\x00 09IR_ir\x01-1AJSajs\x02'2BKTbkt\x03,3CLUclu\x04;4DMVdmv\x05:5ENWenw\x06.6FOXfox\x07!7GPYgpy\x08?8HQZhqz");
}

/// The TerSCII value of `c`, or -1.
fn code_of(c: char) -> (v: i8)
    ensures
        v == terscii_code(c),
{
    let v: i8 = match c {
        '\x00' => 0,
        ' ' => 1,
        '0' => 2,
        '9' => 3,
        'I' => 4,
        'R' => 5,
        '_' => 6,
        'i' => 7,
        'r' => 8,
        '\x01' => 9,
        '-' => 10,
        '1' => 11,
        'A' => 12,
        'J' => 13,
        'S' => 14,
        'a' => 15,
        'j' => 16,
        's' => 17,
        '\x02' => 18,
        '\'' => 19,
        '2' => 20,
        'B' => 21,
        'K' => 22,
        'T' => 23,
        'b' => 24,
        'k' => 25,
        't' => 26,
        '\x03' => 27,
        ',' => 28,
        '3' => 29,
        'C' => 30,
        'L' => 31,
        'U' => 32,
        'c' => 33,
        'l' => 34,
        'u' => 35,
        '\x04' => 36,
        ';' => 37,
        '4' => 38,
        'D' => 39,
        'M' => 40,
        'V' => 41,
        'd' => 42,
        'm' => 43,
        'v' => 44,
        '\x05' => 45,
        ':' => 46,
        '5' => 47,
        'E' => 48,
        'N' => 49,
        'W' => 50,
        'e' => 51,
        'n' => 52,
        'w' => 53,
        '\x06' => 54,
        '.' => 55,
        '6' => 56,
        'F' => 57,
        'O' => 58,
        'X' => 59,
        'f' => 60,
        'o' => 61,
        'x' => 62,
        '\x07' => 63,
        '!' => 64,
        '7' => 65,
        'G' => 66,
        'P' => 67,
        'Y' => 68,
        'g' => 69,
        'p' => 70,
        'y' => 71,
        '\x08' => 72,
        '?' => 73,
        '8' => 74,
        'H' => 75,
        'Q' => 76,
        'Z' => 77,
        'h' => 78,
        'q' => 79,
        'z' => 80,
        _ => -1,
    };
    v
}

/// The character of the TerSCII value `v`.
fn char_of(v: i64) -> (c: char)
    requires
        0 <= v < 81,
    ensures
        c == terscii_char(v as int),
{
    match v {
        0 => '\x00',
        1 => ' ',
        2 => '0',
        3 => '9',
        4 => 'I',
        5 => 'R',
        6 => '_',
        7 => 'i',
        8 => 'r',
        9 => '\x01',
        10 => '-',
        11 => '1',
        12 => 'A',
        13 => 'J',
        14 => 'S',
        15 => 'a',
        16 => 'j',
        17 => 's',
        18 => '\x02',
        19 => '\'',
        20 => '2',
        21 => 'B',
        22 => 'K',
        23 => 'T',
        24 => 'b',
        25 => 'k',
        26 => 't',
        27 => '\x03',
        28 => ',',
        29 => '3',
        30 => 'C',
        31 => 'L',
        32 => 'U',
        33 => 'c',
        34 => 'l',
        35 => 'u',
        36 => '\x04',
        37 => ';',
        38 => '4',
        39 => 'D',
        40 => 'M',
        41 => 'V',
        42 => 'd',
        43 => 'm',
        44 => 'v',
        45 => '\x05',
        46 => ':',
        47 => '5',
        48 => 'E',
        49 => 'N',
        50 => 'W',
        51 => 'e',
        52 => 'n',
        53 => 'w',
        54 => '\x06',
        55 => '.',
        56 => '6',
        57 => 'F',
        58 => 'O',
        59 => 'X',
        60 => 'f',
        61 => 'o',
        62 => 'x',
        63 => '\x07',
        64 => '!',
        65 => '7',
        66 => 'G',
        67 => 'P',
        68 => 'Y',
        69 => 'g',
        70 => 'p',
        71 => 'y',
        72 => '\x08',
        73 => '?',
        74 => '8',
        75 => 'H',
        76 => 'Q',
        77 => 'Z',
        78 => 'h',
        79 => 'q',
        _ => 'z',
    }
}

/// The TerSCII value of `c` as a `Ternary`, or `None` for a character outside the table.
pub fn encode(c: char) -> (r: Option<Ternary>)
    ensures
        r.is_some() <==> terscii_code(c) >= 0,
        r matches Some(t) ==> value(t@) == terscii_code(c) && is_trimmed(t@),
{
    let v = code_of(c);
    if v >= 0 {
        Some(Ternary::from_dec(v as i64))
    } else {
        None
    }
}

/// The character of the value of `t`, or `None` outside `0..=80`; the value
/// must fit an `i64`.
pub fn decode(t: &Ternary) -> (r: Option<char>)
    requires
        fits_i64(value(t@)),
    ensures
        r.is_some() <==> 0 <= value(t@) < 81,
        r matches Some(c) ==> c == terscii_char(value(t@)),
{
    let v = t.to_dec();
    if v >= 0 && v < 81 {
        Some(char_of(v))
    } else {
        None
    }
}

/// The TerSCII value of `c` as a five-trit tryte, or `None`.
pub fn encode_tryte(c: char) -> (r: Option<Tryte<5>>)
    ensures
        r.is_some() <==> terscii_code(c) >= 0,
        r matches Some(t) ==> value(t@) == terscii_code(c),
{
    let v = code_of(c);
    if v >= 0 {
        proof {
            lemma_terscii_roundtrip(c, 0);
            reveal_with_fuel(crate::model::pow3, 6);
            lemma_wrap_in_range(v as int, 5);
        }
        Some(Tryte::<5>::from_i64(v as i64))
    } else {
        None
    }
}

/// The character of the value of a five-trit tryte, or `None` outside `0..=80`.
pub fn decode_tryte(t: Tryte<5>) -> (r: Option<char>)
    ensures
        r.is_some() <==> 0 <= value(t@) < 81,
        r matches Some(c) ==> c == terscii_char(value(t@)),
{
    let v = t.to_i64();
    if v >= 0 && v < 81 {
        Some(char_of(v))
    } else {
        None
    }
}

/// A string of TerSCII trytes.
pub struct TersciiString(Vec<Tryte<5>>);

impl View for TersciiString {
    type V = Seq<Tryte<5>>;

    closed spec fn view(&self) -> Seq<Tryte<5>> {
        self.0@
    }
}

impl std::ops::Deref for TersciiString {
    type Target = [Tryte<5>];

    /// The trytes.
    fn deref(&self) -> (r: &[Tryte<5>])
        ensures
            r@ == self@,
    {
        self.0.as_slice()
    }
}

/// The TerSCII text of trytes: their digits, separated by spaces.
pub open spec fn terscii_text(ts: Seq<Tryte<5>>) -> Seq<char>
    decreases ts.len(),
{
    if ts.len() == 0 {
        Seq::empty()
    } else if ts.len() == 1 {
        ts[0]@.map_values(|d: crate::digit::Digit| d.to_char())
    } else {
        terscii_text(ts.drop_last()) + seq![' '] + ts.last()@.map_values(
            |d: crate::digit::Digit| d.to_char(),
        )
    }
}

impl TersciiString {
    /// The trytes.
    pub fn as_slice(&self) -> (r: &[Tryte<5>])
        ensures
            r@ == self@,
    {
        self.0.as_slice()
    }

    /// The number of trytes.
    pub fn len(&self) -> (n: usize)
        ensures
            n == self@.len(),
    {
        self.0.len()
    }

    /// The digits of the trytes written with `+`, `0` and `-`, separated by spaces.
    pub fn to_string(&self) -> (s: String)
        ensures
            s@ == terscii_text(self@),
    {
        let mut s = empty_string();
        let mut i: usize = 0;
        while i < self.0.len()
            invariant
                i <= self@.len(),
                self@ == self.0@,
                s@ == terscii_text(self@.take(i as int)),
            decreases self@.len() - i,
        {
            if i > 0 {
                push_char(&mut s, ' ');
            }
            let t = self.0[i];
            proof {
                t.lemma_len();
            }
            let d = t.to_digits();
            let ghost before = s@;
            let mut j: usize = 0;
            while j < d.len()
                invariant
                    j <= d@.len(),
                    s@ == before + d@.take(j as int).map_values(|x: crate::digit::Digit| x.to_char()),
                decreases d@.len() - j,
            {
                push_char(&mut s, d[j].to_char());
                j += 1;
                assert(s@ =~= before + d@.take(j as int).map_values(
                    |x: crate::digit::Digit| x.to_char(),
                ));
            }
            proof {
                assert(d@.take(d@.len() as int) =~= d@);
                let p = self@.take(i + 1);
                assert(p.drop_last() =~= self@.take(i as int));
                if i == 0 {
                    assert(before =~= Seq::<char>::empty());
                    assert(s@ =~= p[0]@.map_values(|x: crate::digit::Digit| x.to_char()));
                } else {
                    assert(s@ =~= terscii_text(p.drop_last()) + seq![' '] + p.last()@.map_values(
                        |x: crate::digit::Digit| x.to_char(),
                    ));
                }
            }
            i += 1;
        }
        assert(self@.take(self@.len() as int) =~= self@);
        s
    }
}

/// The TerSCII trytes of the characters of `s`, or `None` when one is outside the table.
pub fn encode_str(s: &str) -> (r: Option<TersciiString>)
    ensures
        r.is_some() <==> forall|i: int| 0 <= i < s@.len() ==> terscii_code(#[trigger] s@[i]) >= 0,
        r matches Some(ts) ==> ts@.len() == s@.len() && forall|i: int|
            0 <= i < s@.len() ==> value(#[trigger] ts@[i]@) == terscii_code(s@[i]),
{
    let n = s.unicode_len();
    let mut out: Vec<Tryte<5>> = Vec::new();
    let mut i: usize = 0;
    while i < n
        invariant
            i <= n,
            n == s@.len(),
            out@.len() == i,
            forall|j: int| 0 <= j < i ==> terscii_code(#[trigger] s@[j]) >= 0,
            forall|j: int| 0 <= j < i ==> value(#[trigger] out@[j]@) == terscii_code(s@[j]),
        decreases n - i,
    {
        let c = s.get_char(i);
        match encode_tryte(c) {
            Some(t) => {
                out.push(t);
            },
            None => {
                return None;
            },
        }
        i += 1;
    }
    Some(TersciiString(out))
}

/// The characters of the values of the trytes, or `None` when one is outside `0..=80`.
pub fn decode_str(trytes: &[Tryte<5>]) -> (r: Option<String>)
    ensures
        r.is_some() <==> forall|i: int| 0 <= i < trytes@.len() ==> 0 <= value(#[trigger] trytes@[i]@) < 81,
        r matches Some(s) ==> s@ == Seq::new(trytes@.len(), |i: int| terscii_char(value(trytes@[i]@))),
{
    let mut s = empty_string();
    let mut i: usize = 0;
    while i < trytes.len()
        invariant
            i <= trytes@.len(),
            forall|j: int| 0 <= j < i ==> 0 <= value(#[trigger] trytes@[j]@) < 81,
            s@ == Seq::new(i as nat, |j: int| terscii_char(value(trytes@[j]@))),
        decreases trytes@.len() - i,
    {
        match decode_tryte(trytes[i]) {
            Some(c) => {
                push_char(&mut s, c);
            },
            None => {
                return None;
            },
        }
        i += 1;
        assert(s@ =~= Seq::new(i as nat, |j: int| terscii_char(value(trytes@[j]@))));
    }
    Some(s)
}

} // verus!
