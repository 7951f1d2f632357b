# fixnum

Fixed-point numbers with explicit rounding, verified with Verus.

A `FixedPoint<I, P>` stores a signed integer (`i16`, `i32`, `i64` or `i128`, the *layout*)
that stands for the number times `10^P`, where `P` is a number of decimal places (`U0` to
`U18`, as far as `10^P` fits the layout: `U4` for `i16`, `U9` for `i32`).
Every operation says in its contract what it computes and when it fails: checked and
saturating addition, subtraction and multiplication; multiplication and division rounded
towards `Floor`, `Ceil` or the `Nearest` value; square roots; rounding to integers and to
powers of ten; conversions from integers and decimal mantissa/exponent pairs; parsing and
printing decimal text.

## Layout

- `src/` — the verified library.
  - `lib.rs` — `FixedPoint`, the `Precision` trait and its markers.
  - `math.rs` — the mathematical model: powers of ten, signs, the rounding divisions.
  - `ops.rs`, `ops/sqrt.rs` — the operation traits, their integer instances, and integer
    square roots of promoted values.
  - `layout.rs` — the integer layouts and their twice-as-wide promotions.
  - `fixed.rs` — the operations on fixed-point numbers.
  - `string.rs` — parsing and printing decimal text.
  - `i256_polyfill.rs` — the 256-bit promotion of `i128`, on the `i256` crate.
  - `i256.rs`, `fixed_point_128/i256.rs` — signed 256-bit numbers in two's complement.
  - `no_std.rs` — a cursor over a byte buffer.
  - `macros.rs` — operands of mixed operations.
  - `laws.rs` — properties that relate several operations.
- `tests/` — tests of the library.
- `app/` — what stands outside the library: `Display`, `f64` conversions, `serde`.

## Outside crates

- `i256` provides the 256-bit arithmetic. The unsigned 256-bit type `U256` under `I256`
  does its arithmetic with the `i256` crate's `u256`: a type that the `uint` crate builds
  with its `construct_uint!` macro cannot stand in the verified library, whose source is
  checked by Verus and may not hold an outside crate's macro.
- `itoa` formats the digits of integers.
- `serde` serializes numbers in `app/`.
