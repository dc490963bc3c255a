//! Compact storage: `TritsChunk` keeps five balanced trits as their value in
//! one byte (`-121..=121`); `DataTernary` keeps a number as a sequence of
//! chunks, most significant first, each worth a balanced base-243 digit.
use vstd::prelude::*;
use crate::digit::Digit;
use crate::model::{
    abs_int, is_trimmed, lemma_fixed_unique, lemma_value_bound, lemma_value_concat,
    lemma_value_leading_zeros, lemma_trim, lemma_trim_zeros_prefix, pow3, trim_spec, value, zeros,
};
use crate::ternary::{Ternary, fits_i64};
use crate::text::{empty_string, push_char};
use crate::tryte::{Tryte, fixed_digits, lemma_fixed_digits, lemma_wrap_in_range};
use vstd::string::StringSliceAdditionalSpecFns;

verus! {

/// `3^5 = 243`.
proof fn lemma_pow3_5()
    ensures
        pow3(5) == 243,
{
    reveal_with_fuel(pow3, 6);
}

/// A value of five trits is in `-121..=121`.
pub open spec fn chunk_range(v: int) -> bool {
    -121 <= v <= 121
}

/// The five digits of a chunk value are worth it.
proof fn lemma_chunk_digits(v: int)
    requires
        chunk_range(v),
    ensures
        fixed_digits(v, 5).len() == 5,
        value(fixed_digits(v, 5)) == v,
{
    lemma_pow3_5();
    lemma_fixed_digits(v, 5);
    lemma_wrap_in_range(v, 5);
}

/// Five digits are the five digits of their value.
proof fn lemma_five_digits(s: Seq<Digit>)
    requires
        s.len() == 5,
    ensures
        chunk_range(value(s)),
        fixed_digits(value(s), 5) == s,
{
    lemma_pow3_5();
    lemma_value_bound(s);
    lemma_chunk_digits(value(s));
    lemma_fixed_unique(fixed_digits(value(s), 5), s);
}

/// Five balanced trits stored as their value in one byte.
#[derive(Copy, Clone, Debug, PartialEq, Eq, PartialOrd, Ord, Hash, Default)]
pub struct TritsChunk(i8);

impl View for TritsChunk {
    type V = int;

    closed spec fn view(&self) -> int {
        self.0 as int
    }
}

impl TritsChunk {
    #[verifier::type_invariant]
    spec fn well_formed(self) -> bool {
        chunk_range(self.0 as int)
    }

    /// The chunk holding `from`, which must be in `-121..=121`.
    pub fn from_dec(from: i8) -> (t: TritsChunk)
        requires
            chunk_range(from as int),
        ensures
            t@ == from,
    {
        TritsChunk(from)
    }

    /// The stored value.
    pub fn to_dec(&self) -> (r: i8)
        ensures
            r == self@,
            chunk_range(r as int),
    {
        proof {
            use_type_invariant(self);
        }
        self.0
    }

    /// The five digits of a chunk value, most significant first.
    fn expand_digits(val: i8) -> (v: Vec<Digit>)
        requires
            chunk_range(val as int),
        ensures
            v@ == fixed_digits(val as int, 5),
    {
        let t = Tryte::<5>::from_i64(val as i64);
        proof {
            t.lemma_len();
            lemma_pow3_5();
            lemma_chunk_digits(val as int);
            lemma_wrap_in_range(val as int, 5);
            lemma_fixed_unique(t@, fixed_digits(val as int, 5));
        }
        t.to_digits()
    }

    /// The shortest form of the value.
    pub fn to_ternary(&self) -> (t: Ternary)
        ensures
            t@ == trim_spec(fixed_digits(self@, 5)),
            value(t@) == self@,
            is_trimmed(t@),
    {
        let v = self.to_dec();
        proof {
            lemma_chunk_digits(v as int);
        }
        Ternary::new(Self::expand_digits(v)).trim()
    }

    /// The five digits of the value.
    pub fn to_fixed_ternary(&self) -> (t: Ternary)
        ensures
            t@ == fixed_digits(self@, 5),
            value(t@) == self@,
    {
        let v = self.to_dec();
        proof {
            lemma_chunk_digits(v as int);
        }
        Ternary::new(Self::expand_digits(v))
    }

    /// The five digits of the value, most significant first.
    pub fn to_digits(&self) -> (d: Vec<Digit>)
        ensures
            d@ == fixed_digits(self@, 5),
            d@.len() == 5,
            value(d@) == self@,
    {
        let v = self.to_dec();
        proof {
            lemma_chunk_digits(v as int);
        }
        Self::expand_digits(v)
    }

    /// The chunk holding the value of at most five digits.
    pub fn from_ternary(ternary: Ternary) -> (t: TritsChunk)
        requires
            ternary@.len() <= 5,
        ensures
            t@ == value(ternary@),
    {
        proof {
            lemma_pow3_5();
            lemma_value_bound(ternary@);
            crate::model::lemma_pow3_monotone(ternary@.len(), 5);
        }
        TritsChunk(ternary.to_dec() as i8)
    }
}

/// The value of balanced base-243 digits, most significant first.
pub open spec fn base243(s: Seq<int>) -> int
    decreases s.len(),
{
    if s.len() == 0 {
        0
    } else {
        base243(s.drop_last()) * 243 + s.last()
    }
}

/// The digits of a sequence of chunk values: five per chunk, in order.
pub open spec fn chunk_digits(s: Seq<int>) -> Seq<Digit>
    decreases s.len(),
{
    if s.len() == 0 {
        Seq::empty()
    } else {
        chunk_digits(s.drop_last()) + fixed_digits(s.last(), 5)
    }
}

/// Five digits per chunk.
proof fn lemma_chunk_digits_len(s: Seq<int>)
    ensures
        chunk_digits(s).len() == 5 * s.len(),
    decreases s.len(),
{
    if s.len() > 0 {
        lemma_chunk_digits_len(s.drop_last());
        crate::tryte::lemma_fixed_digits(s.last(), 5);
    }
}

/// Every value is a chunk value.
pub open spec fn all_chunks(s: Seq<int>) -> bool {
    forall|i: int| 0 <= i < s.len() ==> chunk_range(#[trigger] s[i])
}

/// The digits `s` left-padded with zeros to a multiple of five.
pub open spec fn pad5(s: Seq<Digit>) -> Seq<Digit> {
    zeros(((5 - s.len() % 5) % 5) as nat) + s
}

/// The digits of chunk values are worth their base-243 value.
proof fn lemma_chunk_digits_value(s: Seq<int>)
    requires
        all_chunks(s),
    ensures
        chunk_digits(s).len() == 5 * s.len(),
        value(chunk_digits(s)) == base243(s),
    decreases s.len(),
{
    if s.len() > 0 {
        let p = s.drop_last();
        assert(all_chunks(p));
        lemma_chunk_digits_value(p);
        lemma_chunk_digits(s.last());
        lemma_value_concat(chunk_digits(p), fixed_digits(s.last(), 5));
        lemma_pow3_5();
    }
}

/// A number stored as five-trit chunks, most significant first.
#[derive(Debug, PartialEq, Eq, PartialOrd, Ord, Hash, Default)]
pub struct DataTernary {
    chunks: Vec<TritsChunk>,
}

impl View for DataTernary {
    type V = Seq<int>;

    /// The chunk values, most significant first.
    closed spec fn view(&self) -> Seq<int> {
        self.chunks@.map_values(|c: TritsChunk| c@)
    }
}

impl Clone for DataTernary {
    /// A copy with the same chunks.
    fn clone(&self) -> (r: DataTernary)
        ensures
            r@ == self@,
    {
        proof {
            use_type_invariant(self);
        }
        let chunks = self.chunks.clone();
        assert(chunks@ =~= self.chunks@);
        DataTernary { chunks }
    }
}

impl DataTernary {
    #[verifier::type_invariant]
    spec fn well_formed(self) -> bool {
        all_chunks(self@)
    }

    /// The number of chunks.
    pub fn chunk_count(&self) -> (n: usize)
        ensures
            n == self@.len(),
    {
        self.chunks.len()
    }
}

/// `243^n`.
pub open spec fn pow243(n: nat) -> int
    decreases n,
{
    if n == 0 {
        1
    } else {
        243 * pow243((n - 1) as nat)
    }
}

/// A base-243 digit put in front is worth its weight.
proof fn lemma_base243_prepend(c: int, s: Seq<int>)
    ensures
        base243(seq![c] + s) == c * pow243(s.len()) + base243(s),
    decreases s.len(),
{
    if s.len() == 0 {
        assert(seq![c] + s =~= seq![c]);
        assert(seq![c].drop_last() =~= Seq::<int>::empty());
        assert(base243(seq![c]) == base243(Seq::<int>::empty()) * 243 + c);
    } else {
        let p = s.drop_last();
        lemma_base243_prepend(c, p);
        assert((seq![c] + s).drop_last() =~= seq![c] + p);
        assert((seq![c] + s).last() == s.last());
        assert(base243(seq![c] + s) == base243(seq![c] + p) * 243 + s.last());
        assert(c * pow243(s.len()) == (c * pow243(p.len())) * 243) by (nonlinear_arith)
            requires
                pow243(s.len()) == 243 * pow243(p.len()),
        ;
    }
}

/// A prefix of chunk values is not worth more, in magnitude, than the whole.
proof fn lemma_base243_prefix(s: Seq<int>, i: int)
    requires
        all_chunks(s),
        0 <= i <= s.len(),
    ensures
        abs_int(base243(s.take(i))) <= abs_int(base243(s)),
    decreases s.len() - i,
{
    if i < s.len() {
        lemma_base243_prefix(s, i + 1);
        let q = s.take(i + 1);
        assert(q.drop_last() =~= s.take(i));
        assert(chunk_range(s[i]));
    } else {
        assert(s.take(i) =~= s);
    }
}

impl DataTernary {
    /// The chunks of the digits of `ternary`, left-padded with zeros to a
    /// multiple of five.
    pub fn from_ternary(ternary: Ternary) -> (t: DataTernary)
        ensures
            all_chunks(t@),
            t@.len() == (ternary@.len() + 4) / 5,
            chunk_digits(t@) == pad5(ternary@),
    {
        let src = ternary.to_digit_slice();
        let len = src.len();
        let pz = (5 - len % 5) % 5;
        let num = len / 5 + if len % 5 == 0 {
            0
        } else {
            1
        };
        let ghost padded = pad5(ternary@);
        let mut chunks: Vec<TritsChunk> = Vec::new();
        let mut k: usize = 0;
        proof {
            assert(padded.len() == 5 * num);
            assert(chunks@.map_values(|c: TritsChunk| c@) =~= Seq::<int>::empty());
            assert(padded.take(0) =~= Seq::<Digit>::empty());
        }
        while k < num
            invariant
                k <= num,
                len == src@.len(),
                src@ == ternary@,
                pz == (5 - len % 5) % 5,
                num == (len + 4) / 5,
                padded == pad5(ternary@),
                padded.len() == 5 * num,
                chunks@.len() == k,
                all_chunks(chunks@.map_values(|c: TritsChunk| c@)),
                chunk_digits(chunks@.map_values(|c: TritsChunk| c@)) == padded.take(5 * k),
            decreases num - k,
        {
            let mut v: i8 = 0;
            let mut j: usize = 0;
            let ghost w = padded.subrange(5 * k, 5 * k + 5);
            while j < 5
                invariant
                    j <= 5,
                    k < num,
                    len == src@.len(),
                    src@ == ternary@,
                    pz == (5 - len % 5) % 5,
                    padded == pad5(ternary@),
                    padded.len() == 5 * num,
                    w == padded.subrange(5 * k, 5 * k + 5),
                    v == value(w.take(j as int)),
                decreases 5 - j,
            {
                let pos = 5 * k + j;
                let d = if pos < pz {
                    Digit::Zero
                } else {
                    src[pos - pz]
                };
                proof {
                    assert(w[j as int] == d);
                    lemma_value_bound(w.take(j as int));
                    reveal_with_fuel(pow3, 6);
                    crate::model::lemma_pow3_monotone(j as nat, 4);
                    assert(w.take(j + 1).drop_last() =~= w.take(j as int));
                }
                v = v * 3 + d.to_i8();
                j += 1;
            }
            proof {
                assert(w.take(5) =~= w);
                lemma_five_digits(w);
            }
            let ghost old_view = chunks@.map_values(|c: TritsChunk| c@);
            chunks.push(TritsChunk(v));
            proof {
                let nv = chunks@.map_values(|c: TritsChunk| c@);
                assert(nv =~= old_view.push(v as int));
                assert(nv.drop_last() =~= old_view);
                assert(padded.take(5 * (k + 1)) =~= padded.take(5 * k) + w);
            }
            k += 1;
        }
        assert(padded.take(5 * num) =~= padded);
        DataTernary { chunks }
    }

    /// The digits of all chunks, five per chunk, leading zeros kept.
    pub fn to_fixed_ternary(&self) -> (t: Ternary)
        ensures
            t@ == chunk_digits(self@),
            t@.len() == 5 * self@.len(),
            value(t@) == base243(self@),
    {
        proof {
            use_type_invariant(self);
        }
        let mut digits: Vec<Digit> = Vec::new();
        let mut i: usize = 0;
        while i < self.chunks.len()
            invariant
                i <= self@.len(),
                self@.len() == self.chunks@.len(),
                self@ == self.chunks@.map_values(|c: TritsChunk| c@),
                all_chunks(self@),
                digits@ == chunk_digits(self@.take(i as int)),
            decreases self@.len() - i,
        {
            let c = self.chunks[i].to_dec();
            assert(c == self@[i as int]);
            proof {
                lemma_chunk_digits(c as int);
            }
            let d = TritsChunk::expand_digits(c);
            let mut j: usize = 0;
            let ghost before = digits@;
            while j < 5
                invariant
                    j <= 5,
                    d@.len() == 5,
                    digits@ == before + d@.take(j as int),
                decreases 5 - j,
            {
                digits.push(d[j]);
                j += 1;
                assert(digits@ =~= before + d@.take(j as int));
            }
            proof {
                assert(d@.take(5) =~= d@);
                assert(self@.take(i + 1).drop_last() =~= self@.take(i as int));
            }
            i += 1;
        }
        proof {
            assert(self@.take(self@.len() as int) =~= self@);
            lemma_chunk_digits_value(self@);
            lemma_chunk_digits_len(self@);
        }
        Ternary::new(digits)
    }

    /// The digits of all chunks, without the leading zeros; `[Zero]` when no
    /// non-zero digit is left.
    pub fn to_ternary(&self) -> (t: Ternary)
        ensures
            t@ == trim_spec(chunk_digits(self@)),
            value(t@) == base243(self@),
            is_trimmed(t@),
    {
        let f = self.to_fixed_ternary();
        proof {
            lemma_trim(chunk_digits(self@));
        }
        f.trim()
    }

    /// The digits of `to_ternary`.
    pub fn to_digits(&self) -> (d: Vec<Digit>)
        ensures
            d@ == trim_spec(chunk_digits(self@)),
    {
        self.to_ternary().to_digits()
    }

    /// The balanced base-243 chunks of `from`, most significant first: `[0]`
    /// for zero, else with a non-zero first chunk.
    pub fn from_dec(from: i64) -> (t: DataTernary)
        ensures
            all_chunks(t@),
            base243(t@) == from,
            from == 0 ==> t@ == seq![0int],
            from != 0 ==> t@.len() > 0 && t@[0] != 0,
    {
        if from == 0 {
            let mut chunks: Vec<TritsChunk> = Vec::new();
            chunks.push(TritsChunk(0));
            let t = DataTernary { chunks };
            proof {
                assert(t@ =~= seq![0int]);
                assert(seq![0int].drop_last() =~= Seq::<int>::empty());
                assert(base243(seq![0int]) == base243(Seq::<int>::empty()) * 243 + 0);
            }
            return t;
        }
        let negative = from < 0;
        let mut m: u64 = if negative {
            (0i128 - from as i128) as u64
        } else {
            from as u64
        };
        let mut chunks: Vec<TritsChunk> = Vec::new();
        let ghost sign: int = if negative { -1 } else { 1 };
        proof {
            assert(chunks@.map_values(|c: TritsChunk| c@) =~= Seq::<int>::empty());
        }
        while m > 0
            invariant
                m <= 0x8000_0000_0000_0000,
                sign == (if negative { -1int } else { 1int }),
                all_chunks(chunks@.map_values(|c: TritsChunk| c@)),
                from == sign * m * pow243(chunks@.len()) + base243(
                    chunks@.map_values(|c: TritsChunk| c@),
                ),
                m == 0 ==> chunks@.len() > 0 && chunks@[0]@ != 0,
            decreases m,
        {
            let rem = m % 243;
            let val: i64 = if rem <= 121 {
                rem as i64
            } else {
                rem as i64 - 243
            };
            let next: u64 = if rem <= 121 {
                m / 243
            } else {
                m / 243 + 1
            };
            let c: i8 = if negative {
                (-val) as i8
            } else {
                val as i8
            };
            let ghost old_view = chunks@.map_values(|c: TritsChunk| c@);
            chunks.insert(0, TritsChunk(c));
            proof {
                let nv = chunks@.map_values(|c: TritsChunk| c@);
                assert(nv =~= seq![c as int] + old_view);
                lemma_base243_prepend(c as int, old_view);
                let p = pow243(old_view.len());
                assert(m == 243 * next + val);
                assert(c == sign * val);
                assert(sign * m * p == sign * next * (243 * p) + c * p) by (nonlinear_arith)
                    requires
                        m == 243 * next + val,
                        c == sign * val,
                ;
                assert(pow243(nv.len()) == 243 * p);
                if next == 0 {
                    assert(val == m);
                }
            }
            m = next;
        }
        let t = DataTernary { chunks };
        proof {
            assert(sign * m == 0);
            let pw = pow243(chunks@.len());
            assert((sign * m) * pw == 0) by (nonlinear_arith)
                requires
                    sign * m == 0,
            ;
            assert(t@ == chunks@.map_values(|c: TritsChunk| c@));
        }
        t
    }

    /// The value, which must fit an `i64`.
    pub fn to_dec(&self) -> (r: i64)
        requires
            fits_i64(base243(self@)),
        ensures
            r == base243(self@),
    {
        proof {
            use_type_invariant(self);
        }
        let mut acc: i64 = 0;
        let mut i: usize = 0;
        while i < self.chunks.len()
            invariant
                i <= self@.len(),
                self@.len() == self.chunks@.len(),
                self@ == self.chunks@.map_values(|c: TritsChunk| c@),
                all_chunks(self@),
                fits_i64(base243(self@)),
                acc == base243(self@.take(i as int)),
            decreases self@.len() - i,
        {
            let c = self.chunks[i].to_dec();
            proof {
                assert(c == self@[i as int]);
                lemma_base243_prefix(self@, i + 1);
                assert(self@.take(i + 1).drop_last() =~= self@.take(i as int));
            }
            acc = (acc as i128 * 243 + c as i128) as i64;
            i += 1;
        }
        assert(self@.take(self@.len() as int) =~= self@);
        acc
    }

    /// The digits of all chunks written with `+`, `0` and `-`.
    pub fn to_string(&self) -> (s: String)
        ensures
            s@ == chunk_digits(self@).map_values(|d: Digit| d.to_char()),
    {
        proof {
            use_type_invariant(self);
        }
        let mut s = empty_string();
        let mut i: usize = 0;
        while i < self.chunks.len()
            invariant
                i <= self@.len(),
                self@.len() == self.chunks@.len(),
                self@ == self.chunks@.map_values(|c: TritsChunk| c@),
                all_chunks(self@),
                s@ == chunk_digits(self@.take(i as int)).map_values(|d: Digit| d.to_char()),
            decreases self@.len() - i,
        {
            let c = self.chunks[i].to_dec();
            assert(c == self@[i as int]);
            proof {
                lemma_chunk_digits(c as int);
            }
            let d = TritsChunk::expand_digits(c);
            let mut j: usize = 0;
            let ghost before = s@;
            while j < 5
                invariant
                    j <= 5,
                    d@.len() == 5,
                    s@ == before + d@.take(j as int).map_values(|x: Digit| x.to_char()),
                decreases 5 - j,
            {
                push_char(&mut s, d[j].to_char());
                j += 1;
                assert(s@ =~= before + d@.take(j as int).map_values(|x: Digit| x.to_char()));
            }
            proof {
                assert(d@.take(5) =~= d@);
                assert(self@.take(i + 1).drop_last() =~= self@.take(i as int));
                let a = chunk_digits(self@.take(i as int));
                assert((a + d@).map_values(|x: Digit| x.to_char()) =~= a.map_values(
                    |x: Digit| x.to_char(),
                ) + d@.map_values(|x: Digit| x.to_char()));
            }
            i += 1;
        }
        assert(self@.take(self@.len() as int) =~= self@);
        s
    }
}

/// A `DataTernary` of the digits of a balanced ternary text: `+` reads as
/// `Pos`, `-` as `Neg`, any other byte as `Zero`.
pub fn dter(from: &str) -> (t: DataTernary)
    requires
        crate::unbalanced::is_balanced_text(from.spec_bytes()),
    ensures
        chunk_digits(t@) == pad5(from.spec_bytes().map_values(|b: u8| crate::ternary::byte_digit(b))),
{
    DataTernary::from_ternary(crate::unbalanced::ter(from))
}

/// Storing digits in chunks and reading them back gives the digits trimmed:
/// `to_ternary` of `from_ternary(t)` is `t` without its leading zeros.
pub proof fn lemma_data_roundtrip(s: Seq<Digit>, chunks: Seq<int>)
    requires
        chunk_digits(chunks) == pad5(s),
    ensures
        trim_spec(chunk_digits(chunks)) == trim_spec(s),
{
    lemma_trim_zeros_prefix(((5 - s.len() % 5) % 5) as nat, s);
}

} // verus!
