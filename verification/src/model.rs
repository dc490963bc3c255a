//! The mathematical model of balanced ternary digit sequences.
//!
//! A sequence of digits is read most significant digit first, as the
//! `Ternary` type stores it: `value([d0, d1, ..., dn]) = d0*3^n + ... + dn`.
use vstd::prelude::*;
use crate::digit::Digit;

verus! {

/// `3^n`.
pub open spec fn pow3(n: nat) -> int
    decreases n,
{
    if n == 0 {
        1
    } else {
        3 * pow3((n - 1) as nat)
    }
}

/// The integer a sequence of digits stands for, most significant digit first.
pub open spec fn value(s: Seq<Digit>) -> int
    decreases s.len(),
{
    if s.len() == 0 {
        0
    } else {
        value(s.drop_last()) * 3 + s.last().val()
    }
}

/// The largest value `n` balanced digits can hold: `(3^n - 1) / 2`.
pub open spec fn max_value(n: nat) -> int {
    (pow3(n) - 1) / 2
}

/// A sequence of `n` `Zero` digits.
pub open spec fn zeros(n: nat) -> Seq<Digit> {
    Seq::new(n, |i: int| Digit::Zero)
}

/// The canonical form of a number: no leading `Zero` unless the number is zero,
/// which is the single digit `Zero`.
pub open spec fn is_trimmed(s: Seq<Digit>) -> bool {
    s.len() > 0 && (s[0] != Digit::Zero || s.len() == 1)
}

/// The sequence without its leading `Zero` digits; `[Zero]` when nothing else is left.
pub open spec fn trim_spec(s: Seq<Digit>) -> Seq<Digit>
    decreases s.len(),
{
    if s.len() == 0 {
        seq![Digit::Zero]
    } else if s[0] == Digit::Zero {
        trim_spec(s.drop_first())
    } else {
        s
    }
}

/// Every digit negated.
pub open spec fn negate_seq(s: Seq<Digit>) -> Seq<Digit> {
    s.map_values(|d: Digit| d.negated())
}

/// The first non-zero digit of the sequence, or `Zero` when there is none.
pub open spec fn first_nonzero(s: Seq<Digit>) -> Digit
    decreases s.len(),
{
    if s.len() == 0 {
        Digit::Zero
    } else if s[0] != Digit::Zero {
        s[0]
    } else {
        first_nonzero(s.drop_first())
    }
}

/// The sign of an integer as -1, 0 or 1.
pub open spec fn sign(v: int) -> int {
    if v > 0 {
        1
    } else if v < 0 {
        -1
    } else {
        0
    }
}

/// The absolute value of an integer.
pub open spec fn abs_int(v: int) -> int {
    if v < 0 {
        -v
    } else {
        v
    }
}

pub proof fn lemma_pow3_pos(n: nat)
    ensures
        pow3(n) >= 1,
    decreases n,
{
    if n > 0 {
        lemma_pow3_pos((n - 1) as nat);
    }
}

pub proof fn lemma_pow3_odd(n: nat)
    ensures
        pow3(n) % 2 == 1,
    decreases n,
{
    if n > 0 {
        lemma_pow3_odd((n - 1) as nat);
    }
}

pub proof fn lemma_pow3_add(a: nat, b: nat)
    ensures
        pow3(a + b) == pow3(a) * pow3(b),
    decreases b,
{
    if b > 0 {
        lemma_pow3_add(a, (b - 1) as nat);
        assert(pow3((a + b) as nat) == 3 * pow3((a + b - 1) as nat));
        vstd::arithmetic::mul::lemma_mul_is_associative(3, pow3(a), pow3((b - 1) as nat));
        vstd::arithmetic::mul::lemma_mul_is_commutative(3, pow3(a));
        vstd::arithmetic::mul::lemma_mul_is_associative(pow3(a), 3, pow3((b - 1) as nat));
    }
}

pub proof fn lemma_pow3_monotone(a: nat, b: nat)
    requires
        a <= b,
    ensures
        pow3(a) <= pow3(b),
    decreases b,
{
    if a < b {
        lemma_pow3_monotone(a, (b - 1) as nat);
        lemma_pow3_pos((b - 1) as nat);
    }
}

/// Appending a digit multiplies by three and adds the digit.
pub proof fn lemma_value_push(s: Seq<Digit>, d: Digit)
    ensures
        value(s.push(d)) == value(s) * 3 + d.val(),
{
    assert(s.push(d).drop_last() =~= s);
}

/// The value of a concatenation: the high part shifted by the length of the low part.
pub proof fn lemma_value_concat(a: Seq<Digit>, b: Seq<Digit>)
    ensures
        value(a + b) == value(a) * pow3(b.len()) + value(b),
    decreases b.len(),
{
    if b.len() == 0 {
        assert(a + b =~= a);
    } else {
        let b1 = b.drop_last();
        lemma_value_concat(a, b1);
        assert((a + b).drop_last() =~= a + b1);
        assert((a + b).last() == b.last());
        let p = pow3(b1.len());
        assert(pow3(b.len()) == 3 * p);
        assert(value(a + b) == (value(a) * p + value(b1)) * 3 + b.last().val());
        assert((value(a) * p) * 3 == value(a) * (3 * p)) by (nonlinear_arith);
    }
}

/// The value of a single digit followed by a sequence.
pub proof fn lemma_value_prepend(d: Digit, s: Seq<Digit>)
    ensures
        value(seq![d] + s) == d.val() * pow3(s.len()) + value(s),
{
    lemma_value_concat(seq![d], s);
    lemma_value_single(d);
}

/// Zeros are worth nothing.
pub proof fn lemma_value_zeros(n: nat)
    ensures
        value(zeros(n)) == 0,
    decreases n,
{
    if n > 0 {
        assert(zeros(n).drop_last() =~= zeros((n - 1) as nat));
        lemma_value_zeros((n - 1) as nat);
    }
}

/// Leading zeros do not change the value.
pub proof fn lemma_value_leading_zeros(n: nat, s: Seq<Digit>)
    ensures
        value(zeros(n) + s) == value(s),
{
    lemma_value_concat(zeros(n), s);
    lemma_value_zeros(n);
}

/// `n` balanced digits hold a value in `-max_value(n)..=max_value(n)`.
pub proof fn lemma_value_bound(s: Seq<Digit>)
    ensures
        2 * value(s) <= pow3(s.len()) - 1,
        2 * value(s) >= 1 - pow3(s.len()),
    decreases s.len(),
{
    if s.len() > 0 {
        lemma_value_bound(s.drop_last());
    }
}

/// A prefix is never larger in magnitude than the whole.
pub proof fn lemma_value_prefix_abs(s: Seq<Digit>)
    requires
        s.len() > 0,
    ensures
        abs_int(value(s.drop_last())) <= abs_int(value(s)),
{
}

/// Every prefix is bounded in magnitude by the whole.
pub proof fn lemma_value_take_abs(s: Seq<Digit>, k: int)
    requires
        0 <= k <= s.len(),
    ensures
        abs_int(value(s.take(k))) <= abs_int(value(s)),
    decreases s.len() - k,
{
    if k < s.len() {
        lemma_value_take_abs(s, k + 1);
        assert(s.take(k + 1).drop_last() =~= s.take(k));
        lemma_value_prefix_abs(s.take(k + 1));
    } else {
        assert(s.take(k) =~= s);
    }
}

/// Negating every digit negates the value.
pub proof fn lemma_value_negate(s: Seq<Digit>)
    ensures
        value(negate_seq(s)) == -value(s),
    decreases s.len(),
{
    if s.len() > 0 {
        assert(negate_seq(s).drop_last() =~= negate_seq(s.drop_last()));
        lemma_value_negate(s.drop_last());
    }
}

/// The leading non-zero digit decides the sign: a sequence starting with a
/// non-zero digit `d` of length `n` has `2*|value| >= 3^(n-1) + 1` and the sign of `d`.
pub proof fn lemma_value_leading(s: Seq<Digit>)
    requires
        s.len() > 0,
        s[0] != Digit::Zero,
    ensures
        sign(value(s)) == s[0].val(),
        2 * abs_int(value(s)) >= pow3((s.len() - 1) as nat) + 1,
{
    let rest = s.drop_first();
    assert(s =~= seq![s[0]] + rest);
    lemma_value_prepend(s[0], rest);
    lemma_value_bound(rest);
}

/// The sign of a value is the sign of its first non-zero digit.
pub proof fn lemma_value_sign(s: Seq<Digit>)
    ensures
        sign(value(s)) == first_nonzero(s).val(),
    decreases s.len(),
{
    if s.len() > 0 {
        if s[0] != Digit::Zero {
            lemma_value_leading(s);
        } else {
            let rest = s.drop_first();
            assert(s =~= seq![s[0]] + rest);
            lemma_value_prepend(s[0], rest);
            lemma_value_sign(rest);
        }
    }
}

/// Trimming keeps the value and gives the canonical form.
pub proof fn lemma_trim(s: Seq<Digit>)
    ensures
        value(trim_spec(s)) == value(s),
        is_trimmed(trim_spec(s)),
        trim_spec(s).len() <= if s.len() == 0 { 1 } else { s.len() },
    decreases s.len(),
{
    if s.len() > 0 {
        if s[0] == Digit::Zero {
            let rest = s.drop_first();
            assert(s =~= seq![s[0]] + rest);
            lemma_value_prepend(s[0], rest);
            lemma_trim(rest);
        }
    } else {
        lemma_value_single(Digit::Zero);
    }
}

/// A canonical sequence is its own trim.
pub proof fn lemma_trim_trimmed(s: Seq<Digit>)
    requires
        is_trimmed(s),
    ensures
        trim_spec(s) == s,
{
    if s[0] == Digit::Zero {
        assert(s.drop_first().len() == 0);
        assert(s =~= seq![Digit::Zero]);
        reveal_with_fuel(trim_spec, 2);
    }
}

/// Dropping leading zeros first does not change the trim.
pub proof fn lemma_trim_skip_zeros(s: Seq<Digit>, i: int)
    requires
        0 <= i <= s.len(),
        forall|j: int| 0 <= j < i ==> s[j] == Digit::Zero,
    ensures
        trim_spec(s) == trim_spec(s.skip(i)),
    decreases i,
{
    if i > 0 {
        assert(s.drop_first().skip(i - 1) =~= s.skip(i));
        lemma_trim_skip_zeros(s.drop_first(), i - 1);
    } else {
        assert(s.skip(0) =~= s);
    }
}

/// The first non-zero digit is found after a run of leading zeros.
pub proof fn lemma_first_nonzero_skip(s: Seq<Digit>, i: int)
    requires
        0 <= i <= s.len(),
        forall|j: int| 0 <= j < i ==> s[j] == Digit::Zero,
    ensures
        first_nonzero(s) == first_nonzero(s.skip(i)),
    decreases i,
{
    if i > 0 {
        assert(s.drop_first().skip(i - 1) =~= s.skip(i));
        lemma_first_nonzero_skip(s.drop_first(), i - 1);
    } else {
        assert(s.skip(0) =~= s);
    }
}

/// The value of a single digit.
pub proof fn lemma_value_single(d: Digit)
    ensures
        value(seq![d]) == d.val(),
{
    assert(seq![d].drop_last() =~= Seq::<Digit>::empty());
    reveal_with_fuel(value, 2);
}

/// Two canonical sequences with the same value are the same sequence: the
/// balanced ternary representation of an integer is unique.
pub proof fn lemma_canonical_unique(a: Seq<Digit>, b: Seq<Digit>)
    requires
        is_trimmed(a),
        is_trimmed(b),
        value(a) == value(b),
    ensures
        a == b,
    decreases a.len(),
{
    if a[0] == Digit::Zero || b[0] == Digit::Zero {
        if a[0] == Digit::Zero {
            lemma_value_single(a[0]);
            assert(a =~= seq![a[0]]);
            if b[0] != Digit::Zero {
                lemma_value_leading(b);
            }
            assert(b =~= seq![b[0]]);
            lemma_value_single(b[0]);
        } else {
            lemma_value_single(b[0]);
            assert(b =~= seq![b[0]]);
            lemma_value_leading(a);
        }
    } else {
        lemma_value_leading(a);
        lemma_value_leading(b);
        lemma_value_bound(a);
        lemma_value_bound(b);
        if a.len() < b.len() {
            lemma_pow3_monotone(a.len(), (b.len() - 1) as nat);
            assert(false);
        }
        if b.len() < a.len() {
            lemma_pow3_monotone(b.len(), (a.len() - 1) as nat);
            assert(false);
        }
        let v = value(a);
        let da = a.last().val();
        let db = b.last().val();
        assert((v - da) % 3 == 0);
        assert((v - db) % 3 == 0);
        assert(da == db);
        assert(a.last() == b.last());
        if a.len() > 1 {
            lemma_canonical_unique(a.drop_last(), b.drop_last());
            assert(a =~= a.drop_last().push(a.last()));
            assert(b =~= b.drop_last().push(b.last()));
        } else {
            assert(a =~= seq![a[0]]);
            assert(b =~= seq![b[0]]);
        }
    }
}

/// Changing one digit changes the value by the difference times its weight.
pub proof fn lemma_value_update(s: Seq<Digit>, i: int, e: Digit)
    requires
        0 <= i < s.len(),
    ensures
        value(s.update(i, e)) == value(s) + (e.val() - s[i].val()) * pow3((s.len() - 1 - i) as nat),
{
    let hi = s.take(i);
    let lo = s.skip(i + 1);
    assert(s =~= hi + (seq![s[i]] + lo));
    assert(s.update(i, e) =~= hi + (seq![e] + lo));
    lemma_value_concat(hi, seq![s[i]] + lo);
    lemma_value_concat(hi, seq![e] + lo);
    lemma_value_prepend(s[i], lo);
    lemma_value_prepend(e, lo);
    let p = pow3((s.len() - 1 - i) as nat);
    assert(e.val() * p - s[i].val() * p == (e.val() - s[i].val()) * p) by (nonlinear_arith);
}

/// Digit sequences of one length are equal when their values are.
pub proof fn lemma_fixed_unique(a: Seq<Digit>, b: Seq<Digit>)
    requires
        a.len() == b.len(),
        value(a) == value(b),
    ensures
        a == b,
    decreases a.len(),
{
    if a.len() == 0 {
        assert(a =~= b);
    } else {
        let x = a.last().val();
        let y = b.last().val();
        let va = value(a.drop_last());
        let vb = value(b.drop_last());
        assert(3 * (va - vb) == y - x);
        assert(va == vb);
        assert(a.last() == b.last());
        lemma_fixed_unique(a.drop_last(), b.drop_last());
        assert(a =~= a.drop_last().push(a.last()));
        assert(b =~= b.drop_last().push(b.last()));
    }
}

/// A trimmed sequence whose value fits `n >= 1` digits has at most `n` digits.
pub proof fn lemma_trimmed_len(s: Seq<Digit>, n: nat)
    requires
        is_trimmed(s),
        n >= 1,
        2 * abs_int(value(s)) <= pow3(n) - 1,
    ensures
        s.len() <= n,
{
    if s.len() > n {
        lemma_value_leading(s);
        lemma_pow3_monotone(n, (s.len() - 1) as nat);
    }
}

/// Leading zeros do not change the trim.
pub proof fn lemma_trim_zeros_prefix(n: nat, s: Seq<Digit>)
    ensures
        trim_spec(zeros(n) + s) == trim_spec(s),
{
    let t = zeros(n) + s;
    assert(t.skip(n as int) =~= s);
    lemma_trim_skip_zeros(t, n as int);
}

} // verus!


