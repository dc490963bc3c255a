//! Random digits and words.
//!
//! Entropy comes from the operating system, which this module does not touch:
//! the caller reads random bytes and hands them to the functions here, which
//! decide by rejection sampling whether the bytes give an unbiased value.
//! `SplitMix64` is a deterministic generator that needs no entropy after its
//! seed.
use vstd::prelude::*;
use crate::digit::{Digit, digit_of};
use crate::jones::{BTer27, BTer9, UTer27, UTer9, uvalue};
use crate::model::value;

verus! {

/// Bytes below this bound give a digit; the 252 values split into three
/// groups of 84.
pub const BYTE_CUTOFF: u8 = 252;

/// `3^9`, the number of values of a 9-trit word.
pub const RANGE9: u32 = 19683;

/// `3^27`, the number of values of a 27-trit word.
pub const RANGE27: u64 = 7625597484987;

/// The largest multiple of `3^9` up to `2^16`: two bytes below it are unbiased.
pub const CUTOFF9_BYTES: u32 = 59049;

/// The largest multiple of `3^27` up to `2^48`: six bytes below it are unbiased.
pub const CUTOFF27_BYTES: u64 = 274521509459532;

/// `u32::MAX` rounded down to a multiple of `3^9`.
pub const CUTOFF9_WORD: u32 = 4294948698;

/// `u64::MAX` rounded down to a multiple of `3^27`.
pub const CUTOFF27_WORD: u64 = 18446739724045227285;

/// The number of values of the random balanced 27-trit words,
/// `-3762798742493..=3762798742493`.
pub const BALANCED27_SPAN: u64 = 7525597484987;

/// The largest multiple of the balanced 27-trit span up to `2^48`.
pub const BALANCED27_BYTES_CUTOFF: u64 = 278447106944519;

/// `u64::MAX` rounded down to a multiple of the balanced 27-trit span.
pub const BALANCED27_WORD_CUTOFF: u64 = 18446737029602649413;

/// The digit that an accepted byte gives: `Neg`, `Zero`, `Pos` for the
/// residues 0, 1, 2 modulo 3.
pub open spec fn byte_digit(b: u8) -> Digit {
    digit_of(b % 3 - 1)
}

/// The digits that a run of bytes gives, in order: each byte below 252 gives
/// one, the others none.
pub open spec fn byte_digits(bytes: Seq<u8>) -> Seq<Digit>
    decreases bytes.len(),
{
    if bytes.len() == 0 {
        Seq::empty()
    } else {
        let rest = byte_digits(bytes.drop_last());
        if bytes.last() < 252 {
            rest.push(byte_digit(bytes.last()))
        } else {
            rest
        }
    }
}

/// The digits of a prefix of the bytes are a prefix of the digits of all of them.
pub proof fn lemma_byte_digits_prefix(bytes: Seq<u8>, j: int)
    requires
        0 <= j <= bytes.len(),
    ensures
        byte_digits(bytes.take(j)).len() <= byte_digits(bytes).len(),
        byte_digits(bytes).take(byte_digits(bytes.take(j)).len() as int) == byte_digits(bytes.take(j)),
    decreases bytes.len(),
{
    if j == bytes.len() {
        assert(bytes.take(j) =~= bytes);
        assert(byte_digits(bytes).take(byte_digits(bytes).len() as int) =~= byte_digits(bytes));
    } else {
        let init = bytes.drop_last();
        assert(bytes.take(j) =~= init.take(j));
        lemma_byte_digits_prefix(init, j);
        let l = byte_digits(init.take(j)).len() as int;
        assert(byte_digits(bytes).take(l) =~= byte_digits(init).take(l));
    }
}

/// The digit that one random byte gives, or `None` when the byte falls in the
/// biased tail `252..=255` and must be drawn again.
pub fn digit_from_byte(b: u8) -> (d: Option<Digit>)
    ensures
        d == (if b < 252 { Some(byte_digit(b)) } else { None::<Digit> }),
{
    if b < BYTE_CUTOFF {
        let r = b % 3;
        if r == 0 {
            Some(Digit::Neg)
        } else if r == 1 {
            Some(Digit::Zero)
        } else {
            Some(Digit::Pos)
        }
    } else {
        None
    }
}

/// Appends to `digits` the digits that `bytes` give, stopping as soon as
/// `digits` holds `n` of them. Returns whether it does.
pub fn fill_digits(digits: &mut Vec<Digit>, n: usize, bytes: &[u8]) -> (done: bool)
    requires
        old(digits).len() <= n,
    ensures
        ({
            let want = n - old(digits).len();
            let got = byte_digits(bytes@);
            &&& final(digits)@ == old(digits)@ + got.take(
                if got.len() < want { got.len() as int } else { want },
            )
            &&& done == (final(digits).len() == n)
        }),
{
    let ghost start = digits@;
    if digits.len() == n {
        assert(byte_digits(bytes@).take(0) =~= Seq::<Digit>::empty());
        assert(digits@ =~= start + byte_digits(bytes@).take(0));
        return true;
    }
    let mut i: usize = 0;
    while i < bytes.len()
        invariant
            i <= bytes.len(),
            start == old(digits)@,
            start.len() < n,
            digits@ == start + byte_digits(bytes@.take(i as int)),
            digits.len() < n,
        decreases bytes.len() - i,
    {
        let ghost before = digits@;
        let b = bytes[i];
        proof {
            assert(bytes@.take(i + 1).drop_last() =~= bytes@.take(i as int));
            assert(bytes@.take(i + 1).last() == b);
        }
        match digit_from_byte(b) {
            Some(d) => {
                digits.push(d);
                assert(digits@ =~= start + byte_digits(bytes@.take(i + 1)));
                if digits.len() == n {
                    proof {
                        lemma_byte_digits_prefix(bytes@, i + 1);
                        let got = byte_digits(bytes@);
                        let pre = byte_digits(bytes@.take(i + 1));
                        assert(pre.len() == n - start.len());
                        assert(got.take(pre.len() as int) == pre);
                        assert(!(got.len() < n - start.len()));
                        assert(digits@ == start + got.take(n - start.len()));
                    }
                    return true;
                }
            },
            None => {
                assert(digits@ =~= start + byte_digits(bytes@.take(i + 1)));
            },
        }
        i = i + 1;
    }
    proof {
        assert(bytes@.take(i as int) =~= bytes@);
        let got = byte_digits(bytes@);
        assert(got.take(got.len() as int) =~= got);
    }
    false
}

/// The value of two bytes read little-endian.
pub open spec fn le_value2(b: [u8; 2]) -> int {
    b@[0] + 256 * b@[1]
}

/// The value of the first six of eight bytes read little-endian: the low 48
/// bits of the little-endian word.
pub open spec fn le_value6(b: [u8; 8]) -> int {
    b@[0] + 256 * (b@[1] + 256 * (b@[2] + 256 * (b@[3] + 256 * (b@[4] + 256 * b@[5]))))
}

fn le_u32_of2(b: [u8; 2]) -> (v: u32)
    ensures
        v == le_value2(b),
{
    b[0] as u32 + (b[1] as u32) * 256
}

fn le_u64_of6(b: [u8; 8]) -> (v: u64)
    ensures
        v == le_value6(b),
        v < 0x1_0000_0000_0000,
{
    let v: u64 = b[0] as u64 + 256 * (b[1] as u64 + 256 * (b[2] as u64 + 256 * (b[3] as u64
        + 256 * (b[4] as u64 + 256 * b[5] as u64))));
    v
}

/// A 9-trit balanced word from two random bytes, uniform over `-9841..=9841`,
/// or `None` when the bytes fall in the biased tail and must be drawn again.
pub fn bter9_from_bytes(bytes: [u8; 2]) -> (t: Option<BTer9>)
    ensures
        t.is_some() == (le_value2(bytes) < 59049),
        t matches Some(w) ==> value(w@) == le_value2(bytes) % 19683 - 9841,
{
    let v = le_u32_of2(bytes);
    if v < CUTOFF9_BYTES {
        Some(BTer9::from_dec((v % RANGE9) as i32 - 9841))
    } else {
        None
    }
}

/// A 9-digit unsigned word from two random bytes, uniform over `0..19683`,
/// or `None` when the bytes fall in the biased tail.
pub fn uter9_from_bytes(bytes: [u8; 2]) -> (t: Option<UTer9>)
    ensures
        t.is_some() == (le_value2(bytes) < 59049),
        t matches Some(w) ==> uvalue(w@) == le_value2(bytes) % 19683,
{
    let v = le_u32_of2(bytes);
    if v < CUTOFF9_BYTES {
        Some(UTer9::from_dec(v % RANGE9))
    } else {
        None
    }
}

/// A 27-trit balanced word from the low six of eight random bytes, uniform
/// over `-3762798742493..=3762798742493`, or `None` when they fall in the
/// biased tail.
pub fn bter27_from_bytes(bytes: [u8; 8]) -> (t: Option<BTer27>)
    ensures
        t.is_some() == (le_value6(bytes) < 278447106944519),
        t matches Some(w) ==> value(w@) == le_value6(bytes) % 7525597484987 - 3762798742493,
        t matches Some(w) ==> -3762798742493 <= value(w@) <= 3762798742493,
{
    let v = le_u64_of6(bytes);
    if v < BALANCED27_BYTES_CUTOFF {
        Some(BTer27::from_dec((v % BALANCED27_SPAN) as i64 - 3762798742493))
    } else {
        None
    }
}

/// A 27-digit unsigned word from the low six of eight random bytes, uniform
/// over `0..3^27`, or `None` when they fall in the biased tail.
pub fn uter27_from_bytes(bytes: [u8; 8]) -> (t: Option<UTer27>)
    ensures
        t.is_some() == (le_value6(bytes) < 274521509459532),
        t matches Some(w) ==> uvalue(w@) == le_value6(bytes) % 7625597484987,
{
    let v = le_u64_of6(bytes);
    if v < CUTOFF27_BYTES {
        Some(UTer27::from_dec(v % RANGE27))
    } else {
        None
    }
}

/// The increment of the SplitMix64 state, the odd constant `2^64 / phi`.
pub const GOLDEN_GAMMA: u64 = 0x9e3779b97f4a7c15;

/// The state after one step: the state plus the golden gamma, modulo `2^64`.
pub open spec fn splitmix_advance(state: u64) -> u64 {
    ((state + 0x9e3779b97f4a7c15u64) % 0x1_0000_0000_0000_0000int) as u64
}

/// The output mixed from a state: two xor-shift-multiply rounds and a final
/// xor-shift, products taken modulo `2^64`.
#[verifier::opaque]
pub open spec fn splitmix_output(state: u64) -> u64 {
    let z1 = (((state ^ (state >> 30u64)) as nat * 0xbf58476d1ce4e5b9u64 as nat)
        % 0x1_0000_0000_0000_0000nat) as u64;
    let z2 = (((z1 ^ (z1 >> 27u64)) as nat * 0x94d049bb133111ebu64 as nat)
        % 0x1_0000_0000_0000_0000nat) as u64;
    z2 ^ (z2 >> 31u64)
}

/// The state after `k` steps.
pub open spec fn splitmix_advance_n(state: u64, k: nat) -> u64
    decreases k,
{
    if k == 0 {
        state
    } else {
        splitmix_advance(splitmix_advance_n(state, (k - 1) as nat))
    }
}

/// The SplitMix64 sequence in closed form: after `k` calls of `next_u64` from
/// state `s` the state is `s + k * gamma` modulo `2^64`, and the `k`-th call
/// returns the output mixed from that state. Two generators with the same
/// state (as `from_seed(0)` and `from_seed(1)`) give the same sequence.
pub proof fn lemma_splitmix_sequence(state: u64, k: nat)
    ensures
        splitmix_advance_n(state, k) == ((state + k * 0x9e3779b97f4a7c15u64) % 0x1_0000_0000_0000_0000int) as u64,
    decreases k,
{
    if k > 0 {
        let m = 0x1_0000_0000_0000_0000int;
        let g = 0x9e3779b97f4a7c15u64 as int;
        lemma_splitmix_sequence(state, (k - 1) as nat);
        let prev = (state + (k - 1) * g) % m;
        assert(0 <= prev < m) by {
            vstd::arithmetic::div_mod::lemma_mod_pos_bound(state + (k - 1) * g, m);
        }
        vstd::arithmetic::div_mod::lemma_add_mod_noop(state + (k - 1) * g, g, m);
        vstd::arithmetic::div_mod::lemma_small_mod(g as nat, m as nat);
        assert(state + (k - 1) * g + g == state + k * g) by (nonlinear_arith);
    } else {
        assert((state as int) % 0x1_0000_0000_0000_0000int == state) by {
            vstd::arithmetic::div_mod::lemma_small_mod(state as nat, 0x1_0000_0000_0000_0000nat);
        }
    }
}

/// Draws 32-bit outputs from `state` until one lies below `cutoff`, at most
/// `fuel + 1` of them; the state after the last draw and that draw.
pub open spec fn draw_below32(state: u64, cutoff: u32, fuel: nat) -> (u64, u32)
    decreases fuel,
{
    let next = splitmix_advance(state);
    let v = splitmix_output(next) as u32;
    if v < cutoff || fuel == 0 {
        (next, v)
    } else {
        draw_below32(next, cutoff, (fuel - 1) as nat)
    }
}

/// Draws 64-bit outputs from `state` until one lies below `cutoff`, at most
/// `fuel + 1` of them; the state after the last draw and that draw.
pub open spec fn draw_below64(state: u64, cutoff: u64, fuel: nat) -> (u64, u64)
    decreases fuel,
{
    let next = splitmix_advance(state);
    let v = splitmix_output(next);
    if v < cutoff || fuel == 0 {
        (next, v)
    } else {
        draw_below64(next, cutoff, (fuel - 1) as nat)
    }
}

/// The SplitMix64 pseudo-random generator: a 64-bit state advanced by a
/// constant, each output a mix of the state. Its period is `2^64`; it is not
/// cryptographically secure.
pub struct SplitMix64(u64);

impl SplitMix64 {
    /// The state.
    pub closed spec fn state(self) -> u64 {
        self.0
    }

    /// A generator with a fixed seed; seed 0 is replaced by 1.
    pub fn from_seed(seed: u64) -> (g: SplitMix64)
        ensures
            g.state() == (if seed == 0 { 1 } else { seed }),
    {
        SplitMix64(if seed == 0 { 1 } else { seed })
    }

    /// A generator seeded with entropy; seed 0 is replaced by the golden gamma.
    pub fn from_entropy(seed: u64) -> (g: SplitMix64)
        ensures
            g.state() == (if seed == 0 { 0x9e3779b97f4a7c15u64 } else { seed }),
    {
        SplitMix64(if seed == 0 { GOLDEN_GAMMA } else { seed })
    }

    /// The next 64 output bits.
    pub fn next_u64(&mut self) -> (r: u64)
        ensures
            final(self).state() == splitmix_advance(old(self).state()),
            r == splitmix_output(final(self).state()),
    {
        proof {
            reveal(splitmix_output);
        }
        self.0 = self.0.wrapping_add(GOLDEN_GAMMA);
        let mut z = self.0;
        z = (z ^ (z >> 30)).wrapping_mul(0xbf58476d1ce4e5b9);
        z = (z ^ (z >> 27)).wrapping_mul(0x94d049bb133111eb);
        z ^ (z >> 31)
    }

    /// The low 32 bits of the next output.
    pub fn next_u32(&mut self) -> (r: u32)
        ensures
            final(self).state() == splitmix_advance(old(self).state()),
            r == splitmix_output(final(self).state()) as u32,
    {
        self.next_u64() as u32
    }

    /// A 32-bit draw below `cutoff`, retried on rejection; after `u64::MAX`
    /// rejections in a row the last draw is kept.
    fn draw32(&mut self, cutoff: u32) -> (v: u32)
        ensures
            (final(self).state(), v) == draw_below32(old(self).state(), cutoff, u64::MAX as nat),
    {
        let ghost s0 = self.0;
        let mut attempts: u64 = u64::MAX;
        loop
            invariant
                s0 == old(self).0,
                draw_below32(s0, cutoff, u64::MAX as nat) == draw_below32(self.0, cutoff, attempts as nat),
            decreases attempts,
        {
            let v = self.next_u32();
            if v < cutoff || attempts == 0 {
                return v;
            }
            attempts = attempts - 1;
        }
    }

    /// A 64-bit draw below `cutoff`, retried on rejection; after `u64::MAX`
    /// rejections in a row the last draw is kept.
    fn draw64(&mut self, cutoff: u64) -> (v: u64)
        ensures
            (final(self).state(), v) == draw_below64(old(self).state(), cutoff, u64::MAX as nat),
    {
        let ghost s0 = self.0;
        let mut attempts: u64 = u64::MAX;
        loop
            invariant
                s0 == old(self).0,
                draw_below64(s0, cutoff, u64::MAX as nat) == draw_below64(self.0, cutoff, attempts as nat),
            decreases attempts,
        {
            let v = self.next_u64();
            if v < cutoff || attempts == 0 {
                return v;
            }
            attempts = attempts - 1;
        }
    }

    /// A 9-trit balanced word, uniform over `-9841..=9841`: the first 32-bit
    /// draw below the largest multiple of `3^9`, reduced modulo `3^9`.
    pub fn rand_bter9(&mut self) -> (t: BTer9)
        ensures
            ({
                let (s, v) = draw_below32(old(self).state(), 4294948698u32, u64::MAX as nat);
                &&& final(self).state() == s
                &&& value(t@) == v % 19683 - 9841
            }),
    {
        let v = self.draw32(CUTOFF9_WORD);
        BTer9::from_dec((v % RANGE9) as i32 - 9841)
    }

    /// A 9-digit unsigned word, uniform over `0..19683`.
    pub fn rand_uter9(&mut self) -> (t: UTer9)
        ensures
            ({
                let (s, v) = draw_below32(old(self).state(), 4294948698u32, u64::MAX as nat);
                &&& final(self).state() == s
                &&& uvalue(t@) == v % 19683
            }),
    {
        let v = self.draw32(CUTOFF9_WORD);
        UTer9::from_dec(v % RANGE9)
    }

    /// A 27-trit balanced word, uniform over `-3762798742493..=3762798742493`:
    /// the first 64-bit draw below the largest multiple of the span,
    /// reduced modulo the span.
    pub fn rand_bter27(&mut self) -> (t: BTer27)
        ensures
            ({
                let (s, v) = draw_below64(old(self).state(), 18446737029602649413u64, u64::MAX as nat);
                &&& final(self).state() == s
                &&& value(t@) == v % 7525597484987 - 3762798742493
                &&& -3762798742493 <= value(t@) <= 3762798742493
            }),
    {
        let v = self.draw64(BALANCED27_WORD_CUTOFF);
        BTer27::from_dec((v % BALANCED27_SPAN) as i64 - 3762798742493)
    }

    /// A 27-digit unsigned word, uniform over `0..3^27`.
    pub fn rand_uter27(&mut self) -> (t: UTer27)
        ensures
            ({
                let (s, v) = draw_below64(old(self).state(), 18446739724045227285u64, u64::MAX as nat);
                &&& final(self).state() == s
                &&& uvalue(t@) == v % 7625597484987
            }),
    {
        let v = self.draw64(CUTOFF27_WORD);
        UTer27::from_dec(v % RANGE27)
    }
}

} // verus!
