//! Numerical ordering of `Ternary` values.
use vstd::prelude::*;
use std::cmp::Ordering;
use crate::model::value;
use crate::ternary::Ternary;

verus! {

/// The ordering of two integers.
pub open spec fn compare_int(a: int, b: int) -> Ordering {
    if a < b {
        Ordering::Less
    } else if a == b {
        Ordering::Equal
    } else {
        Ordering::Greater
    }
}

impl Ternary {
    /// Compares two numbers by value: digit by digit from the most significant,
    /// the shorter one left-padded with zeros.
    pub fn compare(&self, other: &Ternary) -> (o: Ordering)
        ensures
            o == compare_int(value(self@), value(other@)),
    {
        let s = self.compare_sign(other);
        if s < 0 {
            Ordering::Less
        } else if s == 0 {
            Ordering::Equal
        } else {
            Ordering::Greater
        }
    }
}

impl PartialOrd for Ternary {
    fn partial_cmp(&self, other: &Ternary) -> (o: Option<Ordering>)
        ensures
            o == Some(compare_int(value(self@), value(other@))),
    {
        Some(self.compare(other))
    }
}

impl vstd::std_specs::cmp::PartialOrdSpecImpl for Ternary {
    open spec fn obeys_partial_cmp_spec() -> bool {
        true
    }

    open spec fn partial_cmp_spec(&self, other: &Ternary) -> Option<Ordering> {
        Some(compare_int(value(self@), value(other@)))
    }
}

} // verus!
