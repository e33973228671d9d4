//! Exact fixed-point numbers, and the decimal notation they are read from.
//!
//! A value is a whole number of ten-thousandths. Order and sums are those of
//! the integers, so the smallest and the largest value of a stream do not
//! depend on rounding.

use crate::bytes::{first_index_of, lemma_first_index_of};
use crate::error::Error;
use std::cmp::Ordering;
use vstd::prelude::*;

verus! {

/// The number of digits kept after the decimal point.
pub const FRACTION_DIGITS: usize = 4;

/// The number of units in one: ten to the power of `FRACTION_DIGITS`.
pub const SCALE: i64 = 10_000;

/// The largest magnitude, in units, that a literal may denote.
pub const MAX_MAGNITUDE: i64 = 9_223_372_036_854_775_807;

/// The largest whole part whose units cannot exceed `MAX_MAGNITUDE` by more
/// than a fraction.
pub const MAX_WHOLE: u64 = 922_337_203_685_477;

/// The byte `+`.
pub const PLUS: u8 = 0x2B;

/// The byte `-`.
pub const MINUS: u8 = 0x2D;

/// The byte `.`.
pub const POINT: u8 = 0x2E;

/// The byte `0`.
pub const ZERO: u8 = 0x30;

/// The byte `9`.
pub const NINE: u8 = 0x39;

/// A fixed-point number: `scaled` units of one ten-thousandth.
#[derive(Clone, Copy, Debug, PartialEq, Eq, Structural)]
pub struct Decimal {
    pub scaled: i64,
}

/// The byte is a decimal digit.
pub open spec fn is_digit(b: u8) -> bool {
    ZERO <= b <= NINE
}

/// The number that a digit denotes; 0 for any other byte.
pub open spec fn digit_value(b: u8) -> nat {
    if is_digit(b) {
        (b - ZERO) as nat
    } else {
        0
    }
}

/// Every byte of `s` is a decimal digit.
pub open spec fn all_digits(s: Seq<u8>) -> bool {
    forall|i: int| 0 <= i < s.len() ==> is_digit(s[i])
}

/// The number that a string of decimal digits denotes; 0 for the empty one.
pub open spec fn digits_value(s: Seq<u8>) -> nat
    decreases s.len(),
{
    if s.len() == 0 {
        0
    } else {
        digits_value(s.drop_last()) * 10 + digit_value(s.last())
    }
}

/// Ten to the power of `n`.
pub open spec fn pow10(n: nat) -> nat
    decreases n,
{
    if n == 0 {
        1
    } else {
        10 * pow10((n - 1) as nat)
    }
}

/// The literal begins with a sign.
pub open spec fn has_sign(s: Seq<u8>) -> bool {
    s.len() > 0 && (s[0] == PLUS || s[0] == MINUS)
}

/// The literal begins with a minus sign.
pub open spec fn is_negative(s: Seq<u8>) -> bool {
    s.len() > 0 && s[0] == MINUS
}

/// The literal without its sign.
pub open spec fn unsigned_part(s: Seq<u8>) -> Seq<u8> {
    if has_sign(s) {
        s.skip(1)
    } else {
        s
    }
}

/// The index of the first decimal point; the length where there is none.
pub open spec fn point_index(u: Seq<u8>) -> int {
    first_index_of(u, POINT)
}

/// What stands before the first decimal point.
pub open spec fn integer_digits(s: Seq<u8>) -> Seq<u8> {
    unsigned_part(s).take(point_index(unsigned_part(s)))
}

/// What stands after the first decimal point.
pub open spec fn fraction_digits(s: Seq<u8>) -> Seq<u8> {
    let u = unsigned_part(s);
    if point_index(u) < u.len() {
        u.skip(point_index(u) + 1)
    } else {
        Seq::empty()
    }
}

/// A decimal literal: an optional sign, digits, and optionally a point and
/// more digits, with a digit on at least one side of the point.
pub open spec fn is_literal(s: Seq<u8>) -> bool {
    &&& all_digits(integer_digits(s))
    &&& all_digits(fraction_digits(s))
    &&& integer_digits(s).len() + fraction_digits(s).len() > 0
}

/// The magnitude of a literal with at most `FRACTION_DIGITS` fraction digits,
/// in units.
pub open spec fn magnitude(s: Seq<u8>) -> nat {
    digits_value(integer_digits(s)) * (SCALE as nat) + digits_value(fraction_digits(s)) * pow10(
        (FRACTION_DIGITS - fraction_digits(s).len()) as nat,
    )
}

/// The literals that denote a value of the fixed-point type exactly.
pub open spec fn representable(s: Seq<u8>) -> bool {
    &&& is_literal(s)
    &&& fraction_digits(s).len() <= FRACTION_DIGITS
    &&& magnitude(s) <= MAX_MAGNITUDE
}

/// The value of a representable literal, in units.
pub open spec fn literal_value(s: Seq<u8>) -> int {
    if is_negative(s) {
        -(magnitude(s) as int)
    } else {
        magnitude(s) as int
    }
}

/// The powers of ten up to the scale.
pub proof fn lemma_pow10_values()
    ensures
        pow10(0) == 1,
        pow10(1) == 10,
        pow10(2) == 100,
        pow10(3) == 1_000,
        pow10(4) == 10_000,
{
    reveal_with_fuel(pow10, 5);
}

/// More digits never denote less.
pub proof fn lemma_digits_value_grows(s: Seq<u8>, k: int)
    requires
        0 <= k <= s.len(),
    ensures
        digits_value(s.take(k)) <= digits_value(s),
    decreases s.len(),
{
    if k == s.len() {
        assert(s.take(k) =~= s);
    } else {
        let front = s.drop_last();
        lemma_digits_value_grows(front, k);
        assert(front.take(k) =~= s.take(k));
    }
}

/// The first byte at or after `from` that is no digit; the length where all
/// are.
fn digits_end(bytes: &[u8], from: usize) -> (at: usize)
    requires
        from <= bytes@.len(),
    ensures
        from <= at <= bytes@.len(),
        all_digits(bytes@.subrange(from as int, at as int)),
        at < bytes@.len() ==> !is_digit(bytes@[at as int]),
{
    let mut at: usize = from;
    while at < bytes.len() && ZERO <= bytes[at] && bytes[at] <= NINE
        invariant
            from <= at <= bytes@.len(),
            all_digits(bytes@.subrange(from as int, at as int)),
        decreases bytes@.len() - at,
    {
        at += 1;
    }
    at
}

/// The value of the digits in `from..to`, unless it is above `limit`.
fn whole_value(bytes: &[u8], from: usize, to: usize, limit: u64) -> (res: Option<u64>)
    requires
        from <= to <= bytes@.len(),
        all_digits(bytes@.subrange(from as int, to as int)),
        limit <= MAX_WHOLE,
    ensures
        digits_value(bytes@.subrange(from as int, to as int)) <= limit ==> res == Some(
            digits_value(bytes@.subrange(from as int, to as int)) as u64,
        ),
        digits_value(bytes@.subrange(from as int, to as int)) > limit ==> res is None,
{
    let ghost digits = bytes@.subrange(from as int, to as int);
    let mut acc: u64 = 0;
    let mut i: usize = from;
    while i < to
        invariant
            from <= i <= to <= bytes@.len(),
            digits == bytes@.subrange(from as int, to as int),
            all_digits(digits),
            limit <= MAX_WHOLE,
            acc == digits_value(digits.take(i - from)),
            acc <= limit,
        decreases to - i,
    {
        proof {
            assert(digits.take(i + 1 - from).drop_last() =~= digits.take(i - from));
            assert(digits.take(i + 1 - from).last() == bytes@[i as int]);
            assert(is_digit(digits[i - from]));
        }
        acc = acc * 10 + (bytes[i] - ZERO) as u64;
        if acc > limit {
            proof {
                lemma_digits_value_grows(digits, i + 1 - from);
            }
            return None;
        }
        i += 1;
    }
    proof {
        assert(digits.take(to - from) =~= digits);
    }
    Some(acc)
}

/// The value of the fraction digits in `from..to`, in units.
fn fraction_units(bytes: &[u8], from: usize, to: usize) -> (units: u64)
    requires
        from <= to <= bytes@.len(),
        to - from <= FRACTION_DIGITS,
        all_digits(bytes@.subrange(from as int, to as int)),
    ensures
        units == digits_value(bytes@.subrange(from as int, to as int)) * pow10(
            (FRACTION_DIGITS - (to - from)) as nat,
        ),
        units < SCALE,
{
    let ghost digits = bytes@.subrange(from as int, to as int);
    let mut acc: u64 = 0;
    let mut i: usize = from;
    proof {
        lemma_pow10_values();
    }
    while i < to
        invariant
            from <= i <= to <= bytes@.len(),
            to - from <= FRACTION_DIGITS,
            digits == bytes@.subrange(from as int, to as int),
            all_digits(digits),
            acc == digits_value(digits.take(i - from)),
            acc < pow10((i - from) as nat),
            pow10((i - from) as nat) <= 10_000,
        decreases to - i,
    {
        proof {
            assert(digits.take(i + 1 - from).drop_last() =~= digits.take(i - from));
            assert(digits.take(i + 1 - from).last() == bytes@[i as int]);
            assert(is_digit(digits[i - from]));
            lemma_pow10_values();
        }
        acc = acc * 10 + (bytes[i] - ZERO) as u64;
        i += 1;
    }
    proof {
        assert(digits.take(to - from) =~= digits);
    }
    let mut width: usize = to - from;
    let ghost value = digits_value(digits);
    proof {
        lemma_pow10_values();
        assert(value * pow10(0) == value);
    }
    while width < FRACTION_DIGITS
        invariant
            to - from <= width <= FRACTION_DIGITS,
            acc == value * pow10((width - (to - from)) as nat),
            acc < pow10(width as nat),
            pow10(width as nat) <= 10_000,
        decreases FRACTION_DIGITS - width,
    {
        proof {
            lemma_pow10_values();
            let p = pow10((width - (to - from)) as nat);
            assert(pow10((width + 1 - (to - from)) as nat) == 10 * p);
            assert(value * p * 10 == value * (10 * p)) by (nonlinear_arith);
        }
        acc = acc * 10;
        width += 1;
    }
    proof {
        lemma_pow10_values();
    }
    acc
}

impl Decimal {
    /// The value in units of one ten-thousandth.
    pub open spec fn value(self) -> int {
        self.scaled as int
    }

    /// Reads a decimal literal. Succeeds exactly on the literals that the type
    /// holds without loss: at most `FRACTION_DIGITS` digits after the point
    /// and a magnitude of at most `MAX_MAGNITUDE` units.
    pub fn parse(field: &[u8]) -> (res: Result<Decimal, Error>)
        ensures
            representable(field@) ==> res == Ok::<Decimal, Error>(
                Decimal { scaled: literal_value(field@) as i64 },
            ),
            !representable(field@) ==> res == Err::<Decimal, Error>(Error::InvalidNumber),
    {
        let n = field.len();
        let signed = n > 0 && (field[0] == PLUS || field[0] == MINUS);
        let negative = n > 0 && field[0] == MINUS;
        let start: usize = if signed {
            1
        } else {
            0
        };
        let ghost u = unsigned_part(field@);
        proof {
            assert(u =~= field@.skip(start as int));
            lemma_first_index_of(u, POINT);
        }
        let int_end = digits_end(field, start);
        proof {
            assert(forall|j: int|
                0 <= j < int_end - start ==> u[j] == field@.subrange(
                    start as int,
                    int_end as int,
                )[j]);
        }
        if int_end < n && field[int_end] != POINT {
            proof {
                let p = point_index(u);
                if p <= int_end - start {
                    assert(u[p] == POINT);
                    if p < int_end - start {
                        assert(is_digit(field@.subrange(start as int, int_end as int)[p]));
                    }
                }
                assert(integer_digits(field@)[int_end - start] == u[int_end - start]);
            }
            return Err(Error::InvalidNumber);
        }
        proof {
            let p = point_index(u);
            if p < int_end - start {
                assert(is_digit(field@.subrange(start as int, int_end as int)[p]));
                assert(u[p] == field@.subrange(start as int, int_end as int)[p]);
            }
            if p > int_end - start {
                assert(u[int_end - start] == field@[int_end as int]);
            }
            assert(p == int_end - start);
            assert(integer_digits(field@) =~= field@.subrange(start as int, int_end as int));
        }
        let frac_start: usize = if int_end < n {
            int_end + 1
        } else {
            n
        };
        proof {
            assert(fraction_digits(field@) =~= field@.subrange(frac_start as int, n as int));
        }
        let frac_end = digits_end(field, frac_start);
        if frac_end < n {
            proof {
                assert(fraction_digits(field@)[frac_end - frac_start] == field@[frac_end as int]);
            }
            return Err(Error::InvalidNumber);
        }
        if int_end - start == 0 && n - frac_start == 0 {
            return Err(Error::InvalidNumber);
        }
        if n - frac_start > FRACTION_DIGITS {
            return Err(Error::InvalidNumber);
        }
        let whole = match whole_value(field, start, int_end, MAX_WHOLE) {
            Some(w) => w,
            None => {
                return Err(Error::InvalidNumber);
            },
        };
        let units = fraction_units(field, frac_start, n);
        let total: u64 = whole * 10_000 + units;
        if total > 9_223_372_036_854_775_807 {
            return Err(Error::InvalidNumber);
        }
        let scaled: i64 = if negative {
            -(total as i64)
        } else {
            total as i64
        };
        Ok(Decimal { scaled })
    }

    /// Orders two values as the integers order their units.
    pub fn compare(&self, other: &Decimal) -> (o: Ordering)
        ensures
            o == Ordering::Less <==> self.value() < other.value(),
            o == Ordering::Equal <==> self.value() == other.value(),
            o == Ordering::Greater <==> self.value() > other.value(),
    {
        if self.scaled < other.scaled {
            Ordering::Less
        } else if self.scaled == other.scaled {
            Ordering::Equal
        } else {
            Ordering::Greater
        }
    }
}

} // verus!
