# big_number

Decimal fixed-point numbers of any size, `BigFixed<const SCALE: u32>`: a value is an integer
mantissa over `10^SCALE`. The arithmetic rests on an unsigned integer of 64-bit limbs
(`BigUintCore`) and a signed integer beside it (`BigIntCore`).

The library under `src/` is verified with Verus. Each operation states, over mathematical
integers, the mantissa it returns: sums exactly, products and quotients rounded as the
rounding mode says, integer parts, roots, powers, rescaling, and the text that is written
and read back. Logarithms, the exponential and the trigonometric functions are evaluated by
series at a working scale widened by guard digits and rounded once to the public scale
(the base-ten logarithm applies the context's mode at the working scale and keeps the
nearest digits at the public scale);
their contracts give that evaluation step by step (`src/steps.rs`) and the inputs on which
each is defined, and tests hold the results against high-precision references.

- `src/uint.rs`, `src/limbs.rs`, `src/bits.rs`: the unsigned integer and its limb arithmetic.
- `src/signed.rs`, `src/order.rs`: the signed integer, and equality and order by value.
- `src/rounding.rs`, `src/digits.rs`: rounding modes and the rounding of quotients and roots.
- `src/fixed.rs`, `src/format.rs`, `src/parse.rs`, `src/error.rs`, `src/text.rs`: the
  fixed-point type, its text and its parser.
- `src/eval.rs`, `src/steps.rs`, `src/series.rs`, `src/functions.rs`: iterative evaluation.
- `src/constants.rs`: pi and the logarithm of ten are at least one unit at every scale, so
  the sine, the cosine and the base-ten logarithm are defined wherever their series run.
- `src/laws.rs`: properties that relate several operations.
- `app/`: `Display` and `std::error::Error` for copies of the library's types.
