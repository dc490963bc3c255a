//! Conversions between digits, numbers and strings through `From`.
use vstd::prelude::*;
use crate::digit::Digit;
use crate::model::{is_trimmed, trim_spec, value};
use crate::bct::{BctTer32, IlBctTer32};
use crate::chunk::{DataTernary, chunk_digits, pad5};
use crate::jones::{BTer27, BTer9, UTer27, UTer9, uvalue};
use crate::ter40::{IlTer40, Ter40};
use crate::tryte::wrap;
use crate::ternary::{Ternary, byte_digit, pad_left};
use vstd::string::StringSliceAdditionalSpecFns;

verus! {

impl From<Digit> for char {
    /// The character of the digit: `-`, `0` or `+`.
    fn from(d: Digit) -> (c: char)
        ensures
            c == d.to_char(),
    {
        d.to_char()
    }
}

impl vstd::std_specs::convert::FromSpecImpl<Digit> for char {
    open spec fn obeys_from_spec() -> bool {
        false
    }

    open spec fn from_spec(d: Digit) -> char {
        arbitrary()
    }
}

impl From<Digit> for i8 {
    /// The value of the digit: -1, 0 or 1.
    fn from(d: Digit) -> (i: i8)
        ensures
            i == d.val(),
    {
        d.to_i8()
    }
}

impl vstd::std_specs::convert::FromSpecImpl<Digit> for i8 {
    open spec fn obeys_from_spec() -> bool {
        false
    }

    open spec fn from_spec(d: Digit) -> i8 {
        arbitrary()
    }
}

impl From<i64> for Ternary {
    /// The canonical digits of the number.
    fn from(v: i64) -> (t: Ternary)
        ensures
            value(t@) == v,
            is_trimmed(t@),
    {
        Ternary::from_dec(v)
    }
}

impl vstd::std_specs::convert::FromSpecImpl<i64> for Ternary {
    open spec fn obeys_from_spec() -> bool {
        false
    }

    open spec fn from_spec(v: i64) -> Ternary {
        arbitrary()
    }
}

impl From<Ternary> for String {
    /// The digits written with `-`, `0` and `+`.
    fn from(t: Ternary) -> (s: String)
        ensures
            s@ == t@.map_values(|d: Digit| d.to_char()),
    {
        t.to_string()
    }
}

impl vstd::std_specs::convert::FromSpecImpl<Ternary> for String {
    open spec fn obeys_from_spec() -> bool {
        false
    }

    open spec fn from_spec(t: Ternary) -> String {
        arbitrary()
    }
}

impl From<&str> for Ternary {
    /// The digits of the text, as `Ternary::parse` reads them.
    fn from(s: &str) -> (t: Ternary)
        ensures
            t@ == s.spec_bytes().map_values(|b: u8| byte_digit(b)),
    {
        Ternary::parse(s)
    }
}

impl vstd::std_specs::convert::FromSpecImpl<&str> for Ternary {
    open spec fn obeys_from_spec() -> bool {
        false
    }

    open spec fn from_spec(s: &str) -> Ternary {
        arbitrary()
    }
}

impl From<String> for Ternary {
    /// The digits of the text, as `Ternary::parse` reads them.
    fn from(s: String) -> (t: Ternary)
        ensures
            t@ == vstd::utf8::encode_utf8(s@).map_values(|b: u8| byte_digit(b)),
    {
        Ternary::parse(s.as_str())
    }
}

impl vstd::std_specs::convert::FromSpecImpl<String> for Ternary {
    open spec fn obeys_from_spec() -> bool {
        false
    }

    open spec fn from_spec(s: String) -> Ternary {
        arbitrary()
    }
}

impl From<Ternary> for DataTernary {
    /// Stores the digits in chunks of five.
    fn from(t: Ternary) -> (d: DataTernary)
        ensures
            chunk_digits(d@) == pad5(t@),
    {
        DataTernary::from_ternary(t)
    }
}

impl vstd::std_specs::convert::FromSpecImpl<Ternary> for DataTernary {
    open spec fn obeys_from_spec() -> bool {
        false
    }

    open spec fn from_spec(t: Ternary) -> DataTernary {
        arbitrary()
    }
}

impl From<DataTernary> for Ternary {
    /// The stored digits without leading zeros.
    fn from(d: DataTernary) -> (t: Ternary)
        ensures
            t@ == trim_spec(chunk_digits(d@)),
    {
        d.to_ternary()
    }
}

impl vstd::std_specs::convert::FromSpecImpl<DataTernary> for Ternary {
    open spec fn obeys_from_spec() -> bool {
        false
    }

    open spec fn from_spec(d: DataTernary) -> Ternary {
        arbitrary()
    }
}

impl From<i64> for Ter40 {
    /// The number `v`.
    fn from(v: i64) -> (t: Ter40)
        ensures
            t@ == v,
    {
        Ter40::from_dec(v)
    }
}

impl vstd::std_specs::convert::FromSpecImpl<i64> for Ter40 {
    open spec fn obeys_from_spec() -> bool {
        false
    }

    open spec fn from_spec(v: i64) -> Ter40 {
        arbitrary()
    }
}

impl From<Ter40> for i64 {
    /// The value.
    fn from(t: Ter40) -> (v: i64)
        ensures
            v == t@,
    {
        t.to_dec()
    }
}

impl vstd::std_specs::convert::FromSpecImpl<Ter40> for i64 {
    open spec fn obeys_from_spec() -> bool {
        false
    }

    open spec fn from_spec(t: Ter40) -> i64 {
        arbitrary()
    }
}

impl From<Ter40> for Ternary {
    /// The value as at least 40 digits.
    fn from(w: Ter40) -> (t: Ternary)
        ensures
            value(t@) == w@,
            t@.len() >= 40,
            t@.len() > 40 ==> is_trimmed(t@),
    {
        w.to_ternary()
    }
}

impl vstd::std_specs::convert::FromSpecImpl<Ter40> for Ternary {
    open spec fn obeys_from_spec() -> bool {
        false
    }

    open spec fn from_spec(w: Ter40) -> Ternary {
        arbitrary()
    }
}

impl From<IlTer40> for i64 {
    /// The value.
    fn from(t: IlTer40) -> (v: i64)
        ensures
            v == value(t@),
    {
        t.to_dec()
    }
}

impl vstd::std_specs::convert::FromSpecImpl<IlTer40> for i64 {
    open spec fn obeys_from_spec() -> bool {
        false
    }

    open spec fn from_spec(t: IlTer40) -> i64 {
        arbitrary()
    }
}

impl From<IlTer40> for Ter40 {
    /// The number with the same value.
    fn from(t: IlTer40) -> (w: Ter40)
        ensures
            w@ == value(t@),
    {
        Ter40::from_dec(t.to_dec())
    }
}

impl vstd::std_specs::convert::FromSpecImpl<IlTer40> for Ter40 {
    open spec fn obeys_from_spec() -> bool {
        false
    }

    open spec fn from_spec(t: IlTer40) -> Ter40 {
        arbitrary()
    }
}

impl From<i64> for BctTer32 {
    /// `v` wrapped into 32 trits.
    fn from(v: i64) -> (t: BctTer32)
        ensures
            value(t@) == wrap(v as int, 32),
    {
        BctTer32::from_dec(v)
    }
}

impl vstd::std_specs::convert::FromSpecImpl<i64> for BctTer32 {
    open spec fn obeys_from_spec() -> bool {
        false
    }

    open spec fn from_spec(v: i64) -> BctTer32 {
        arbitrary()
    }
}

impl From<BctTer32> for i64 {
    /// The value.
    fn from(t: BctTer32) -> (v: i64)
        ensures
            v == value(t@),
    {
        t.to_dec()
    }
}

impl vstd::std_specs::convert::FromSpecImpl<BctTer32> for i64 {
    open spec fn obeys_from_spec() -> bool {
        false
    }

    open spec fn from_spec(t: BctTer32) -> i64 {
        arbitrary()
    }
}

impl From<Ternary> for BctTer32 {
    /// The 32 least significant digits.
    fn from(t: Ternary) -> (b: BctTer32)
        ensures
            b@ == pad_left(t@.skip(t@.len() - (if t@.len() < 32 { t@.len() as int } else { 32 })), 32),
    {
        BctTer32::from_ternary(&t)
    }
}

impl vstd::std_specs::convert::FromSpecImpl<Ternary> for BctTer32 {
    open spec fn obeys_from_spec() -> bool {
        false
    }

    open spec fn from_spec(t: Ternary) -> BctTer32 {
        arbitrary()
    }
}

impl From<BctTer32> for Ternary {
    /// The 32 digits.
    fn from(b: BctTer32) -> (t: Ternary)
        ensures
            t@ == b@,
    {
        b.to_ternary()
    }
}

impl vstd::std_specs::convert::FromSpecImpl<BctTer32> for Ternary {
    open spec fn obeys_from_spec() -> bool {
        false
    }

    open spec fn from_spec(b: BctTer32) -> Ternary {
        arbitrary()
    }
}

impl From<i64> for IlBctTer32 {
    /// `v` wrapped into 32 trits.
    fn from(v: i64) -> (t: IlBctTer32)
        ensures
            value(t@) == wrap(v as int, 32),
    {
        IlBctTer32::from_dec(v)
    }
}

impl vstd::std_specs::convert::FromSpecImpl<i64> for IlBctTer32 {
    open spec fn obeys_from_spec() -> bool {
        false
    }

    open spec fn from_spec(v: i64) -> IlBctTer32 {
        arbitrary()
    }
}

impl From<IlBctTer32> for i64 {
    /// The value.
    fn from(t: IlBctTer32) -> (v: i64)
        ensures
            v == value(t@),
    {
        t.to_dec()
    }
}

impl vstd::std_specs::convert::FromSpecImpl<IlBctTer32> for i64 {
    open spec fn obeys_from_spec() -> bool {
        false
    }

    open spec fn from_spec(t: IlBctTer32) -> i64 {
        arbitrary()
    }
}

impl From<IlBctTer32> for Ternary {
    /// The 32 digits.
    fn from(w: IlBctTer32) -> (t: Ternary)
        ensures
            t@ == w@,
    {
        w.to_ternary()
    }
}

impl vstd::std_specs::convert::FromSpecImpl<IlBctTer32> for Ternary {
    open spec fn obeys_from_spec() -> bool {
        false
    }

    open spec fn from_spec(w: IlBctTer32) -> Ternary {
        arbitrary()
    }
}

impl From<u32> for UTer9 {
    /// `v` modulo `3^9`.
    fn from(v: u32) -> (t: UTer9)
        ensures
            uvalue(t@) == v % 19683,
    {
        UTer9::from_dec(v)
    }
}

impl vstd::std_specs::convert::FromSpecImpl<u32> for UTer9 {
    open spec fn obeys_from_spec() -> bool {
        false
    }

    open spec fn from_spec(v: u32) -> UTer9 {
        arbitrary()
    }
}

impl From<UTer9> for u32 {
    /// The value.
    fn from(t: UTer9) -> (v: u32)
        ensures
            v == uvalue(t@),
    {
        t.to_dec()
    }
}

impl vstd::std_specs::convert::FromSpecImpl<UTer9> for u32 {
    open spec fn obeys_from_spec() -> bool {
        false
    }

    open spec fn from_spec(t: UTer9) -> u32 {
        arbitrary()
    }
}

impl From<u64> for UTer27 {
    /// `v` modulo `3^27`.
    fn from(v: u64) -> (t: UTer27)
        ensures
            uvalue(t@) == v % 7625597484987,
    {
        UTer27::from_dec(v)
    }
}

impl vstd::std_specs::convert::FromSpecImpl<u64> for UTer27 {
    open spec fn obeys_from_spec() -> bool {
        false
    }

    open spec fn from_spec(v: u64) -> UTer27 {
        arbitrary()
    }
}

impl From<UTer27> for u64 {
    /// The value.
    fn from(t: UTer27) -> (v: u64)
        ensures
            v == uvalue(t@),
    {
        t.to_dec()
    }
}

impl vstd::std_specs::convert::FromSpecImpl<UTer27> for u64 {
    open spec fn obeys_from_spec() -> bool {
        false
    }

    open spec fn from_spec(t: UTer27) -> u64 {
        arbitrary()
    }
}

impl From<BTer9> for i32 {
    /// The value.
    fn from(t: BTer9) -> (v: i32)
        ensures
            v == value(t@),
    {
        t.to_dec()
    }
}

impl vstd::std_specs::convert::FromSpecImpl<BTer9> for i32 {
    open spec fn obeys_from_spec() -> bool {
        false
    }

    open spec fn from_spec(t: BTer9) -> i32 {
        arbitrary()
    }
}

impl From<BTer27> for i64 {
    /// The value.
    fn from(t: BTer27) -> (v: i64)
        ensures
            v == value(t@),
    {
        t.to_dec()
    }
}

impl vstd::std_specs::convert::FromSpecImpl<BTer27> for i64 {
    open spec fn obeys_from_spec() -> bool {
        false
    }

    open spec fn from_spec(t: BTer27) -> i64 {
        arbitrary()
    }
}

impl From<UTer9> for BTer9 {
    /// The unsigned value less the bias 9841.
    fn from(u: UTer9) -> (b: BTer9)
        ensures
            value(b@) == uvalue(u@) - 9841,
    {
        BTer9::from_dec(u.to_dec() as i32 - 9841)
    }
}

impl vstd::std_specs::convert::FromSpecImpl<UTer9> for BTer9 {
    open spec fn obeys_from_spec() -> bool {
        false
    }

    open spec fn from_spec(u: UTer9) -> BTer9 {
        arbitrary()
    }
}

impl From<BTer9> for UTer9 {
    /// The balanced value plus the bias 9841.
    fn from(b: BTer9) -> (u: UTer9)
        ensures
            uvalue(u@) == value(b@) + 9841,
    {
        UTer9::from_dec((b.to_dec() + 9841) as u32)
    }
}

impl vstd::std_specs::convert::FromSpecImpl<BTer9> for UTer9 {
    open spec fn obeys_from_spec() -> bool {
        false
    }

    open spec fn from_spec(b: BTer9) -> UTer9 {
        arbitrary()
    }
}

impl From<UTer27> for BTer27 {
    /// The unsigned value less the bias 3812798742493.
    fn from(u: UTer27) -> (b: BTer27)
        ensures
            value(b@) == uvalue(u@) - 3812798742493,
    {
        BTer27::from_dec(u.to_dec() as i64 - 3812798742493)
    }
}

impl vstd::std_specs::convert::FromSpecImpl<UTer27> for BTer27 {
    open spec fn obeys_from_spec() -> bool {
        false
    }

    open spec fn from_spec(u: UTer27) -> BTer27 {
        arbitrary()
    }
}

impl From<BTer27> for UTer27 {
    /// The balanced value plus the bias 3812798742493.
    fn from(b: BTer27) -> (u: UTer27)
        ensures
            uvalue(u@) == value(b@) + 3812798742493,
    {
        UTer27::from_dec((b.to_dec() + 3812798742493) as u64)
    }
}

impl vstd::std_specs::convert::FromSpecImpl<BTer27> for UTer27 {
    open spec fn obeys_from_spec() -> bool {
        false
    }

    open spec fn from_spec(b: BTer27) -> UTer27 {
        arbitrary()
    }
}

impl From<BTer9> for BTer27 {
    /// The same value in 27 trits.
    fn from(b: BTer9) -> (t: BTer27)
        ensures
            value(t@) == value(b@),
    {
        BTer27::from_dec(b.to_dec() as i64)
    }
}

impl vstd::std_specs::convert::FromSpecImpl<BTer9> for BTer27 {
    open spec fn obeys_from_spec() -> bool {
        false
    }

    open spec fn from_spec(b: BTer9) -> BTer27 {
        arbitrary()
    }
}

} // verus!
