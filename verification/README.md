# balanced_ternary

A balanced ternary library (digits `-1`, `0`, `+1`) whose behaviour is stated
in Verus contracts and proved.

- `src/model.rs` — the mathematical model: the value of a digit sequence, the
  canonical (trimmed) form, and the facts about them.
- `src/digit.rs` — `Digit` and the three-valued logics.
- `src/ternary.rs`, `operations.rs`, `methods.rs`, `ordering.rs`,
  `unbalanced.rs`, `hept.rs`, `conversions.rs` — the arbitrary-precision
  `Ternary`: conversions, arithmetic, digit-wise operations, ordering,
  unbalanced and heptavintimal text.
- `src/tryte.rs` — `Tryte<N>`, a fixed number of trits with wrapping,
  checked and saturating arithmetic.
- `src/packed.rs`, `bct.rs`, `ter40.rs`, `jones.rs`, `chunk.rs` — packed
  storage: split and interleaved binary-coded ternary words, Jones's unsigned
  and balanced words with their carry-trick addition, 40-trit words and
  5-trit chunks.
- `src/terscii.rs` — the TERSCII character encoding.
- `src/matrix.rs` — ternary vectors and matrices with dot products.
- `src/getrandom.rs` — rejection sampling of random bytes and the SplitMix64
  generator.
- `app/` — reading entropy from the operating system for the random
  functions.
- `tests/` — the test suite.
