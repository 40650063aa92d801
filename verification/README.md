# fin_decimal

Fixed-point decimal arithmetic for financial and tax computations, verified
with [Verus](https://github.com/verus-lang/verus).

A decimal is a fixed-width signed integer that counts its smallest units, so
addition and subtraction are native integer operations, and multiplication and
division round the exact double-width intermediate once.

| Backing | Type                 | Aliases (4 / 8 fractional digits) |
|---------|----------------------|-----------------------------------|
| `i64`   | `Decimal<DIGITS>`    | `Amount64` / `Rate64`             |
| `i128`  | `Decimal128<DIGITS>` | `Amount128` / `Rate128`           |
| 256-bit | `Decimal256<DIGITS>` | `Amount256` / `Rate256`           |

```rust
use core::str::FromStr;
use fin_decimal::{Amount64, Rounding};

let price = Amount64::from_str("19.99").unwrap();
let rate = Amount64::from_str("0.0825").unwrap();
let tax = price.mul_rounded(rate, Rounding::HalfEven);
assert_eq!(tax.to_string(), "1.6492");
assert_eq!(price.checked_mul(Amount64::max_value()), None);
```

## Layout

* `src/` is the verified library.
  * `value`, `pow10`, `word_div`, `limbs`, `knuth`, `arith`: numbers as limbs of
    64 bits, down to reciprocal division and Knuth's algorithm D.
  * `rounding`: the rounding modes, as functions on integers.
  * `text`, `parse`, `render`: what decimal text denotes, reading and writing it.
  * `parts`, `bytes`, `error`, `i256`: mantissa and exponent, byte orders, errors
    and the 256-bit backing integer.
  * `decimal64`, `decimal128`, `decimal256` and `ops64`, `ops128`, `ops256`: the
    decimal types and their operators.
  * `laws`: what holds across operations, such as that text is read back as the
    value it was written from.
* `app/` wraps the types with the traits of formatters, serializers and floats.
* `tests/` runs the library.

Operators and methods that would overflow or divide by zero state so in their
preconditions; `checked_add`, `checked_sub`, `checked_mul` and `checked_div`
return `None` instead. Conversions with `From` have no preconditions: an integer
too large for an `i64` backed decimal wraps, where `from_i64` is an error.
