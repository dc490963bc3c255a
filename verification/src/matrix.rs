//! Ternary vectors and matrices stored 64 trits to a word: each word is a
//! mask of `Pos` trits and a mask of `Neg` trits. Entries are read and
//! written as `i8` values `-1`, `0`, `1`.
use vstd::prelude::*;
use crate::packed::{bit64, lemma_bits64};

verus! {

/// The trit at bit `k` of a pair of 64-bit masks; a set `pos` bit reads as `1`.
pub open spec fn trit64(pos: u64, neg: u64, k: int) -> int {
    if bit64(pos, k as u64) {
        1
    } else if bit64(neg, k as u64) {
        -1
    } else {
        0
    }
}

/// The trit an `i8` entry stands for: `1`, `-1`, or `0` for any other value.
pub open spec fn entry(v: i8) -> int {
    if v == 1 {
        1
    } else if v == -1 {
        -1
    } else {
        0
    }
}

/// `f(0) + ... + f(n - 1)`.
pub open spec fn range_sum(f: spec_fn(int) -> int, n: nat) -> int
    decreases n,
{
    if n == 0 {
        0
    } else {
        range_sum(f, (n - 1) as nat) + f(n - 1)
    }
}

/// The dot product of two sequences of entries of equal length.
pub open spec fn dot_spec(x: Seq<int>, y: Seq<int>) -> int {
    range_sum(|i: int| x[i] * y[i], x.len())
}

/// Sums of functions that agree below `n` are equal.
proof fn lemma_range_sum_ext(f: spec_fn(int) -> int, g: spec_fn(int) -> int, n: nat)
    requires
        forall|i: int| 0 <= i < n ==> #[trigger] f(i) == g(i),
    ensures
        range_sum(f, n) == range_sum(g, n),
    decreases n,
{
    if n > 0 {
        lemma_range_sum_ext(f, g, (n - 1) as nat);
    }
}

/// Zero terms past `n` add nothing.
proof fn lemma_range_sum_pad(f: spec_fn(int) -> int, n: nat, m: nat)
    requires
        n <= m,
        forall|i: int| n <= i < m ==> #[trigger] f(i) == 0,
    ensures
        range_sum(f, m) == range_sum(f, n),
    decreases m - n,
{
    if n < m {
        lemma_range_sum_pad(f, n, (m - 1) as nat);
    }
}

/// A sum of `n` terms in `-1..=1` is at most `n` in magnitude.
proof fn lemma_range_sum_bound(f: spec_fn(int) -> int, n: nat)
    requires
        forall|i: int| 0 <= i < n ==> -1 <= #[trigger] f(i) <= 1,
    ensures
        -n <= range_sum(f, n) <= n,
    decreases n,
{
    if n > 0 {
        lemma_range_sum_bound(f, (n - 1) as nat);
    }
}

/// 64 balanced trits as a mask of `Pos` trits and a mask of `Neg` trits.
#[derive(Copy, Clone, Debug, PartialEq, Eq, Hash, Default)]
pub struct BctTer64 {
    pos: u64,
    neg: u64,
}

/// The sum of the products of the first `n` trits of two words.
pub open spec fn word_dot(a: BctTer64, b: BctTer64, n: nat) -> int {
    range_sum(|k: int| a.trit(k) * b.trit(k), n)
}

impl BctTer64 {
    /// The trit at bit `k`.
    pub closed spec fn trit(self, k: int) -> int {
        trit64(self.pos, self.neg, k)
    }

    /// The `Pos` mask, in specifications.
    pub closed spec fn pos_spec(self) -> u64 {
        self.pos
    }

    /// The `Neg` mask, in specifications.
    pub closed spec fn neg_spec(self) -> u64 {
        self.neg
    }

    /// The trits of a word are those of its masks.
    pub proof fn lemma_trit(self, k: int)
        ensures
            self.trit(k) == trit64(self.pos_spec(), self.neg_spec(), k),
            -1 <= self.trit(k) <= 1,
    {
    }

    /// All trits `Zero`.
    pub fn zero() -> (t: BctTer64)
        ensures
            t.pos_spec() == 0,
            t.neg_spec() == 0,
            forall|k: int| 0 <= k < 64 ==> #[trigger] t.trit(k) == 0,
    {
        let t = BctTer64 { pos: 0, neg: 0 };
        proof {
            assert forall|k: int| 0 <= k < 64 implies #[trigger] t.trit(k) == 0 by {
                lemma_bits64(0, 0, 0, k as u64);
            }
        }
        t
    }

    /// The trits of the given masks; no bit may be set in both.
    pub fn new(pos: u64, neg: u64) -> (t: BctTer64)
        requires
            pos & neg == 0,
        ensures
            t.pos_spec() == pos,
            t.neg_spec() == neg,
    {
        BctTer64 { pos, neg }
    }

    /// The mask of `Pos` trits.
    pub fn pos_mask(&self) -> (m: u64)
        ensures
            m == self.pos_spec(),
    {
        self.pos
    }

    /// The mask of `Neg` trits.
    pub fn neg_mask(&self) -> (m: u64)
        ensures
            m == self.neg_spec(),
    {
        self.neg
    }

    /// The sum of the products of the 64 trit pairs.
    pub fn bct_dot_word(self, other: BctTer64) -> (r: i32)
        ensures
            r == word_dot(self, other, 64),
    {
        let mut acc: i32 = 0;
        let mut k: u64 = 0;
        while k < 64
            invariant
                k <= 64,
                acc == word_dot(self, other, k as nat),
                -(k as int) <= acc <= k,
            decreases 64 - k,
        {
            proof {
                lemma_bits64(self.pos, 0, 0, k);
                lemma_bits64(self.neg, 0, 0, k);
                lemma_bits64(other.pos, 0, 0, k);
                lemma_bits64(other.neg, 0, 0, k);
            }
            let a: i32 = if self.pos & (1u64 << k) != 0 {
                1
            } else if self.neg & (1u64 << k) != 0 {
                -1
            } else {
                0
            };
            let b: i32 = if other.pos & (1u64 << k) != 0 {
                1
            } else if other.neg & (1u64 << k) != 0 {
                -1
            } else {
                0
            };
            assert(a == self.trit(k as int) && b == other.trit(k as int));
            let p: i32 = if a == 0 || b == 0 {
                0
            } else if a == b {
                1
            } else {
                -1
            };
            assert(p == a * b) by (nonlinear_arith)
                requires
                    -1 <= a <= 1,
                    -1 <= b <= 1,
                    p == (if a == 0 || b == 0 {
                        0
                    } else if a == b {
                        1
                    } else {
                        -1
                    }),
            ;
            acc = acc + p;
            k += 1;
        }
        acc
    }
}

/// The word with bit `b` set to the trit of `v`.
fn word_set(w: BctTer64, b: u32, v: i8) -> (r: BctTer64)
    requires
        b < 64,
        w.pos_spec() & w.neg_spec() == 0,
    ensures
        r.pos_spec() & r.neg_spec() == 0,
        forall|k: int| 0 <= k < 64 ==> #[trigger] r.trit(k) == if k == b { entry(v) } else { w.trit(k) },
{
    let mask = 1u64 << b;
    let pos = w.pos_mask() & !mask;
    let neg = w.neg_mask() & !mask;
    proof {
        lemma_set_word(w.pos_spec(), w.neg_spec(), b as u64);
        assert forall|k: int| 0 <= k < 64 implies #[trigger] trit64(pos | mask, neg, k) == if k == b {
            1
        } else {
            w.trit(k)
        } && trit64(pos, neg | mask, k) == if k == b {
            -1
        } else {
            w.trit(k)
        } && trit64(pos, neg, k) == if k == b {
            0
        } else {
            w.trit(k)
        } by {
            let kk = k as u64;
            lemma_bits64(w.pos_spec(), !mask, b as u64, kk);
            lemma_bits64(w.neg_spec(), !mask, b as u64, kk);
            lemma_bits64(mask, 0, b as u64, kk);
            lemma_bits64(pos, mask, b as u64, kk);
            lemma_bits64(neg, mask, b as u64, kk);
        }
    }
    let r = if v == 1 {
        BctTer64::new(pos | mask, neg)
    } else if v == -1 {
        BctTer64::new(pos, neg | mask)
    } else {
        BctTer64::new(pos, neg)
    };
    proof {
        assert forall|k: int| 0 <= k < 64 implies #[trigger] r.trit(k) == if k == b {
            entry(v)
        } else {
            w.trit(k)
        } by {
            assert(trit64(pos | mask, neg, k) == if k == b {
                1
            } else {
                w.trit(k)
            });
            assert(trit64(pos, neg | mask, k) == if k == b {
                -1
            } else {
                w.trit(k)
            });
            assert(trit64(pos, neg, k) == if k == b {
                0
            } else {
                w.trit(k)
            });
        }
    }
    r
}

/// Clearing a bit of both masks and setting it in one keeps them disjoint.
proof fn lemma_set_word(p: u64, n: u64, b: u64)
    by (bit_vector)
    requires
        p & n == 0,
        b < 64,
    ensures
        ((p & !(1u64 << b)) | (1u64 << b)) & (n & !(1u64 << b)) == 0,
        (p & !(1u64 << b)) & ((n & !(1u64 << b)) | (1u64 << b)) == 0,
        (p & !(1u64 << b)) & (n & !(1u64 << b)) == 0,
{
}

/// The trit at bit `b` as an `i8`.
fn word_get(w: BctTer64, b: u32) -> (r: i8)
    requires
        b < 64,
    ensures
        r == w.trit(b as int),
{
    let mask = 1u64 << b;
    proof {
        lemma_bits64(w.pos_spec(), 0, 0, b as u64);
        lemma_bits64(w.neg_spec(), 0, 0, b as u64);
    }
    if w.pos_mask() & mask != 0 {
        1
    } else if w.neg_mask() & mask != 0 {
        -1
    } else {
        0
    }
}

/// The number of words for `n` trits.
fn words_for(n: usize) -> (r: usize)
    requires
        n <= usize::MAX - 63,
    ensures
        r == (n + 63) / 64,
{
    (n + 63) / 64
}

/// The trit at position `i` of a word sequence.
pub open spec fn seq_trit(words: Seq<BctTer64>, i: int) -> int {
    words[i / 64].trit(i % 64)
}

/// The sum of the word dot products of the first `j` word pairs.
pub open spec fn words_dot(a: Seq<BctTer64>, b: Seq<BctTer64>, j: nat) -> int
    decreases j,
{
    if j == 0 {
        0
    } else {
        words_dot(a, b, (j - 1) as nat) + word_dot(a[j - 1], b[j - 1], 64)
    }
}

/// The word dot products of `j` word pairs add up to the sum over their `64 j` trit pairs.
proof fn lemma_words_dot(a: Seq<BctTer64>, b: Seq<BctTer64>, j: nat)
    ensures
        words_dot(a, b, j) == range_sum(|i: int| seq_trit(a, i) * seq_trit(b, i), 64 * j),
    decreases j,
{
    let f = |i: int| seq_trit(a, i) * seq_trit(b, i);
    if j > 0 {
        let w = (j - 1) as nat;
        lemma_words_dot(a, b, w);
        lemma_word_block(a, b, w, 64);
    }
}

/// Within one word, the partial word dot product is the sum over its trits.
proof fn lemma_word_block(a: Seq<BctTer64>, b: Seq<BctTer64>, w: nat, k: nat)
    requires
        k <= 64,
    ensures
        range_sum(|i: int| seq_trit(a, i) * seq_trit(b, i), 64 * w + k) == range_sum(
            |i: int| seq_trit(a, i) * seq_trit(b, i),
            64 * w,
        ) + word_dot(a[w as int], b[w as int], k),
    decreases k,
{
    if k > 0 {
        lemma_word_block(a, b, w, (k - 1) as nat);
        let i = 64 * w + k - 1;
        assert(i / 64 == w && i % 64 == k - 1);
    }
}

/// A vector of trits stored 64 to a word; the bits past the last trit are `Zero`.
pub struct TernaryVec {
    words: Vec<BctTer64>,
    len: usize,
}

impl View for TernaryVec {
    type V = Seq<int>;

    closed spec fn view(&self) -> Seq<int> {
        Seq::new(self.len as nat, |i: int| seq_trit(self.words@, i))
    }
}

impl TernaryVec {
    /// The invariant of a vector: enough words, zero past the last trit,
    /// disjoint masks.
    pub closed spec fn wf(&self) -> bool {
        &&& self.len <= usize::MAX - 63
        &&& self.words@.len() == (self.len + 63) / 64
        &&& forall|i: int| self.len <= i < 64 * self.words@.len() ==> #[trigger] seq_trit(self.words@, i) == 0
        &&& forall|w: int| 0 <= w < self.words@.len() ==> #[trigger] self.words@[w].pos_spec() & self.words@[w].neg_spec() == 0
    }

    /// `len` zero trits.
    pub fn zeros(len: usize) -> (v: TernaryVec)
        requires
            len <= usize::MAX - 63,
        ensures
            v.wf(),
            v@ == Seq::new(len as nat, |i: int| 0int),
    {
        let n = words_for(len);
        let mut words: Vec<BctTer64> = Vec::new();
        let mut j: usize = 0;
        while j < n
            invariant
                j <= n,
                words@.len() == j,
                forall|w: int| 0 <= w < j ==> #[trigger] words@[w] == (BctTer64 { pos: 0, neg: 0 }),
            decreases n - j,
        {
            words.push(BctTer64::zero());
            j += 1;
        }
        proof {
            assert forall|i: int| 0 <= i < 64 * n implies #[trigger] seq_trit(words@, i) == 0 by {
                lemma_bits64(0, 0, 0, (i % 64) as u64);
            }
            assert forall|w: int| 0 <= w < words@.len() implies #[trigger] words@[w].pos_spec()
                & words@[w].neg_spec() == 0 by {
                lemma_bits64(0, 0, 0, 0);
                lemma_zero_and();
            }
        }
        let v = TernaryVec { words, len };
        assert(v@ =~= Seq::new(len as nat, |i: int| 0int));
        v
    }

    /// The number of trits.
    pub fn len(&self) -> (n: usize)
        ensures
            n == self@.len(),
    {
        self.len
    }

    /// Whether there are no trits.
    pub fn is_empty(&self) -> (b: bool)
        ensures
            b == (self@.len() == 0),
    {
        self.len == 0
    }

    /// Sets trit `i` to the trit of `v`: `1`, `-1`, or `0` for any other value.
    pub fn set(&mut self, i: usize, v: i8)
        requires
            old(self).wf(),
            i < old(self)@.len(),
        ensures
            final(self).wf(),
            final(self)@ == old(self)@.update(i as int, entry(v)),
    {
        let w = i / 64;
        let b = (i % 64) as u32;
        let nw = word_set(self.words[w], b, v);
        let ghost old_words = self.words@;
        self.words.set(w, nw);
        proof {
            assert forall|k: int| 0 <= k < 64 * self.words@.len() && k != i implies #[trigger] seq_trit(
                self.words@,
                k,
            ) == seq_trit(old_words, k) by {
                if k / 64 == w {
                    assert(k % 64 != b);
                }
            }
            assert(self@ =~= old(self)@.update(i as int, entry(v)));
        }
    }

    /// Trit `i`.
    pub fn get(&self, i: usize) -> (r: i8)
        requires
            self.wf(),
            i < self@.len(),
        ensures
            r == self@[i as int],
    {
        word_get(self.words[i / 64], (i % 64) as u32)
    }

    /// The dot product with a vector of the same length.
    pub fn dot(&self, other: &TernaryVec) -> (r: i32)
        requires
            self.wf(),
            other.wf(),
            self@.len() == other@.len(),
            self@.len() < 0x7FFF_FFC0,
        ensures
            r == dot_spec(self@, other@),
    {
        dot(self, other)
    }
}

/// The zero word has disjoint masks.
proof fn lemma_zero_and()
    by (bit_vector)
    ensures
        0u64 & 0u64 == 0,
{
}

/// The dot product of two vectors of the same length.
pub fn dot(a: &TernaryVec, b: &TernaryVec) -> (r: i32)
    requires
        a.wf(),
        b.wf(),
        a@.len() == b@.len(),
        a@.len() < 0x7FFF_FFC0,
    ensures
        r == dot_spec(a@, b@),
{
    let ghost f = |i: int| seq_trit(a.words@, i) * seq_trit(b.words@, i);
    let n = a.words.len();
    let mut acc: i32 = 0;
    let mut j: usize = 0;
    while j < n
        invariant
            j <= n,
            n == a.words@.len(),
            n == b.words@.len(),
            a.len < 0x7FFF_FFC0,
            n == (a.len + 63) / 64,
            f == (|i: int| seq_trit(a.words@, i) * seq_trit(b.words@, i)),
            acc == words_dot(a.words@, b.words@, j as nat),
        decreases n - j,
    {
        proof {
            lemma_words_dot(a.words@, b.words@, (j + 1) as nat);
            assert forall|i: int| 0 <= i < 64 * (j + 1) implies -1 <= #[trigger] f(i) <= 1 by {
                a.words@[i / 64].lemma_trit(i % 64);
                b.words@[i / 64].lemma_trit(i % 64);
                let x = seq_trit(a.words@, i);
                let y = seq_trit(b.words@, i);
                assert(-1 <= x * y <= 1) by (nonlinear_arith)
                    requires
                        -1 <= x <= 1,
                        -1 <= y <= 1,
                ;
            }
            lemma_range_sum_bound(f, (64 * (j + 1)) as nat);
        }
        let d = a.words[j].bct_dot_word(b.words[j]);
        acc = acc + d;
        j += 1;
    }
    proof {
        lemma_words_dot(a.words@, b.words@, n as nat);
        lemma_range_sum_pad(f, a.len as nat, (64 * n) as nat);
        lemma_range_sum_ext(f, |i: int| a@[i] * b@[i], a.len as nat);
    }
    acc
}

/// The trit at row `r`, column `c` of matrix words with `s` words per row.
pub open spec fn mat_trit(data: Seq<BctTer64>, s: int, r: int, c: int) -> int {
    data[r * s + c / 64].trit(c % 64)
}

/// The words of row `r`.
pub open spec fn row_words(data: Seq<BctTer64>, s: int, r: int) -> Seq<BctTer64> {
    data.subrange(r * s, r * s + s)
}

/// Row `r` of `rows` rows of `s` words starts inside the data.
proof fn lemma_row_bounds(r: int, rows: int, s: int, w: int)
    requires
        0 <= r < rows,
        0 <= w <= s,
    ensures
        0 <= r * s + w <= rows * s,
        w < s ==> r * s + w < rows * s,
        r * s + s <= rows * s,
        0 <= r * s,
{
    assert(r * s + s <= rows * s) by (nonlinear_arith)
        requires
            r < rows,
            s >= 0,
    ;
    assert(0 <= r * s) by (nonlinear_arith)
        requires
            r >= 0,
            s >= 0,
    ;
}

/// A matrix of trits, each row stored in its own run of words; the bits past
/// the last column of a row are `Zero`.
pub struct TernaryMatrix {
    data: Vec<BctTer64>,
    rows: usize,
    cols: usize,
    row_stride: usize,
}

impl View for TernaryMatrix {
    type V = Seq<Seq<int>>;

    closed spec fn view(&self) -> Seq<Seq<int>> {
        Seq::new(
            self.rows as nat,
            |r: int|
                Seq::new(
                    self.cols as nat,
                    |c: int| mat_trit(self.data@, self.row_stride as int, r, c),
                ),
        )
    }
}

impl TernaryMatrix {
    /// The invariant of a matrix: its shape, zero past the last column, disjoint masks.
    pub closed spec fn wf(&self) -> bool {
        &&& self.cols <= usize::MAX - 63
        &&& self.row_stride == (self.cols + 63) / 64
        &&& self.data@.len() == self.rows * self.row_stride
        &&& self.rows * self.row_stride <= usize::MAX
        &&& forall|r: int, c: int|
            0 <= r < self.rows && self.cols <= c < 64 * self.row_stride ==> #[trigger] mat_trit(
                self.data@,
                self.row_stride as int,
                r,
                c,
            ) == 0
        &&& forall|w: int|
            0 <= w < self.data@.len() ==> #[trigger] self.data@[w].pos_spec()
                & self.data@[w].neg_spec() == 0
    }

    /// A `rows` by `cols` matrix of zeros.
    pub fn zeros(rows: usize, cols: usize) -> (m: TernaryMatrix)
        requires
            cols <= usize::MAX - 63,
            rows * ((cols + 63) / 64) <= usize::MAX,
        ensures
            m.wf(),
            m.cols_spec() == cols,
            m@ == Seq::new(rows as nat, |r: int| Seq::new(cols as nat, |c: int| 0int)),
    {
        let row_stride = words_for(cols);
        let n = rows * row_stride;
        let mut data: Vec<BctTer64> = Vec::new();
        let mut j: usize = 0;
        while j < n
            invariant
                j <= n,
                data@.len() == j,
                forall|w: int| 0 <= w < j ==> #[trigger] data@[w] == (BctTer64 { pos: 0, neg: 0 }),
            decreases n - j,
        {
            data.push(BctTer64::zero());
            j += 1;
        }
        let m = TernaryMatrix { data, rows, cols, row_stride };
        proof {
            lemma_zero_and();
            assert forall|r: int, c: int|
                0 <= r < rows && 0 <= c < 64 * row_stride implies #[trigger] mat_trit(
                data@,
                row_stride as int,
                r,
                c,
            ) == 0 by {
                lemma_row_bounds(r, rows as int, row_stride as int, c / 64);
                lemma_bits64(0, 0, 0, (c % 64) as u64);
            }
            assert forall|r: int| 0 <= r < rows implies #[trigger] m@[r] =~= Seq::new(
                cols as nat,
                |c: int| 0int,
            ) by {
                assert forall|c: int| 0 <= c < cols implies #[trigger] m@[r][c] == 0 by {
                    assert(mat_trit(data@, row_stride as int, r, c) == 0);
                }
            }
            assert(m@ =~= Seq::new(rows as nat, |r: int| Seq::new(cols as nat, |c: int| 0int)));
        }
        m
    }

    /// The number of rows.
    pub fn rows(&self) -> (n: usize)
        ensures
            n == self@.len(),
    {
        self.rows
    }

    /// The number of columns, in specifications.
    pub closed spec fn cols_spec(&self) -> nat {
        self.cols as nat
    }

    /// The number of columns.
    pub fn cols(&self) -> (n: usize)
        ensures
            n == self.cols_spec(),
            forall|r: int| 0 <= r < self@.len() ==> #[trigger] self@[r].len() == n,
    {
        self.cols
    }

    /// Sets the entry at `row`, `col` to the trit of `v`.
    pub fn set(&mut self, row: usize, col: usize, v: i8)
        requires
            old(self).wf(),
            row < old(self)@.len(),
            col < old(self)@[row as int].len(),
        ensures
            final(self).wf(),
            final(self).cols_spec() == old(self).cols_spec(),
            final(self)@ == old(self)@.update(
                row as int,
                old(self)@[row as int].update(col as int, entry(v)),
            ),
    {
        let s = self.row_stride;
        proof {
            lemma_row_bounds(row as int, self.rows as int, s as int, (col / 64) as int);
        }
        let idx = row * s + col / 64;
        let nw = word_set(self.data[idx], (col % 64) as u32, v);
        let ghost old_data = self.data@;
        self.data.set(idx, nw);
        proof {
            assert forall|r: int, c: int|
                0 <= r < self.rows && 0 <= c < 64 * s && !(r == row && c == col) implies #[trigger] mat_trit(
                self.data@,
                s as int,
                r,
                c,
            ) == mat_trit(old_data, s as int, r, c) by {
                lemma_row_bounds(r, self.rows as int, s as int, c / 64);
                if r * s + c / 64 == idx {
                    if r != row {
                        assert(r * s + c / 64 != row * s + col / 64) by (nonlinear_arith)
                            requires
                                r != row,
                                0 <= c / 64 < s,
                                0 <= col / 64 < s,
                        ;
                    }
                    assert(c % 64 != col % 64);
                }
            }
            assert forall|r: int| 0 <= r < self.rows implies #[trigger] self@[r] =~= (if r == row {
                old(self)@[row as int].update(col as int, entry(v))
            } else {
                old(self)@[r]
            }) by {
                assert forall|c: int| 0 <= c < self.cols implies #[trigger] self@[r][c] == (if r
                    == row {
                    old(self)@[row as int].update(col as int, entry(v))
                } else {
                    old(self)@[r]
                })[c] by {
                    if r == row && c == col {
                        assert(self.data@[idx as int] == nw);
                    }
                }
            }
            assert(self@ =~= old(self)@.update(
                row as int,
                old(self)@[row as int].update(col as int, entry(v)),
            ));
        }
    }

    /// The entry at `row`, `col`.
    pub fn get(&self, row: usize, col: usize) -> (r: i8)
        requires
            self.wf(),
            row < self@.len(),
            col < self@[row as int].len(),
        ensures
            r == self@[row as int][col as int],
    {
        proof {
            lemma_row_bounds(row as int, self.rows as int, self.row_stride as int, (col / 64) as int);
        }
        let idx = row * self.row_stride + col / 64;
        word_get(self.data[idx], (col % 64) as u32)
    }

    /// Writes the product of the matrix with `x` into `out`, one entry per row.
    pub fn matvec_into(&self, x: &TernaryVec, out: &mut [i32])
        requires
            self.wf(),
            x.wf(),
            x@.len() == self.cols_spec(),
            old(out)@.len() == self@.len(),
            x@.len() < 0x7FFF_FFC0,
        ensures
            final(out)@.len() == self@.len(),
            forall|r: int| 0 <= r < self@.len() ==> #[trigger] final(out)@[r] == dot_spec(self@[r], x@),
    {
        let stride = self.row_stride;
        let mut r: usize = 0;
        while r < self.rows
            invariant
                self.wf(),
                x.wf(),
                x@.len() == self.cols,
                x.words@.len() == stride,
                stride == self.row_stride,
                x@.len() < 0x7FFF_FFC0,
                r <= self.rows,
                out@.len() == self.rows,
                forall|q: int| 0 <= q < r ==> #[trigger] out@[q] == dot_spec(self@[q], x@),
            decreases self.rows - r,
        {
            proof {
                lemma_row_bounds(r as int, self.rows as int, stride as int, stride as int);
            }
            let base = r * stride;
            let ghost rw = row_words(self.data@, stride as int, r as int);
            let ghost f = |i: int| seq_trit(rw, i) * seq_trit(x.words@, i);
            let mut acc: i32 = 0;
            let mut w: usize = 0;
            while w < stride
                invariant
                    self.wf(),
                    x.wf(),
                    x@.len() == self.cols,
                    x.words@.len() == stride,
                    stride == self.row_stride,
                    x@.len() < 0x7FFF_FFC0,
                    r < self.rows,
                    base == r * stride,
                    base + stride <= self.data@.len(),
                    rw == row_words(self.data@, stride as int, r as int),
                    f == (|i: int| seq_trit(rw, i) * seq_trit(x.words@, i)),
                    w <= stride,
                    acc == words_dot(rw, x.words@, w as nat),
                decreases stride - w,
            {
                proof {
                    lemma_words_dot(rw, x.words@, (w + 1) as nat);
                    assert forall|i: int| 0 <= i < 64 * (w + 1) implies -1 <= #[trigger] f(i) <= 1 by {
                        rw[i / 64].lemma_trit(i % 64);
                        x.words@[i / 64].lemma_trit(i % 64);
                        let a = seq_trit(rw, i);
                        let b = seq_trit(x.words@, i);
                        assert(-1 <= a * b <= 1) by (nonlinear_arith)
                            requires
                                -1 <= a <= 1,
                                -1 <= b <= 1,
                        ;
                    }
                    lemma_range_sum_bound(f, (64 * (w + 1)) as nat);
                    assert(rw[w as int] == self.data@[base + w]);
                }
                let d = self.data[base + w].bct_dot_word(x.words[w]);
                acc = acc + d;
                w += 1;
            }
            proof {
                lemma_words_dot(rw, x.words@, stride as nat);
                assert forall|c: int| self.cols <= c < 64 * stride implies #[trigger] f(c) == 0 by {
                    assert(seq_trit(rw, c) == mat_trit(self.data@, stride as int, r as int, c));
                }
                lemma_range_sum_pad(f, self.cols as nat, (64 * stride) as nat);
                assert forall|c: int| 0 <= c < self.cols implies #[trigger] f(c) == self@[r as int][c]
                    * x@[c] by {
                    assert(seq_trit(rw, c) == mat_trit(self.data@, stride as int, r as int, c));
                }
                lemma_range_sum_ext(f, |c: int| self@[r as int][c] * x@[c], self.cols as nat);
            }
            out[r] = acc;
            r += 1;
        }
    }

    /// The product of the matrix with `x`, one entry per row.
    pub fn matvec(&self, x: &TernaryVec) -> (y: Vec<i32>)
        requires
            self.wf(),
            x.wf(),
            x@.len() == self.cols_spec(),
            x@.len() < 0x7FFF_FFC0,
        ensures
            y@.len() == self@.len(),
            forall|r: int| 0 <= r < self@.len() ==> #[trigger] y@[r] == dot_spec(self@[r], x@),
    {
        let mut out = vec![0i32; self.rows];
        self.matvec_into(x, out.as_mut_slice());
        out
    }
}

} // verus!
