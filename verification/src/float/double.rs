//! Double-precision arithmetic on bit patterns.
use vstd::prelude::*;
use super::arith::{
    add_data, convert_datum, converted, divide_data, integer_data, integral, integral_datum, less,
    less_data, lemma_double_format, multiply_data, of_integer, product, quotient, sum, truncate_datum,
    truncated, Datum, Direction, Format,
};
use super::single::F32;

verus! {

/// A double-precision floating-point number, held as its bit pattern.
#[derive(Clone, Copy, Debug, PartialEq, Eq, Structural)]
pub struct F64 {
    pub bits: u64,
}

/// The double-precision format.
pub open spec fn double_format() -> Format {
    Format { precision: 53, first: 0x10_0000_0000_0000, infinity: 0x7ff0_0000_0000_0000, scale: 1074 }
}

pub(super) fn format() -> (f: Format)
    ensures
        f == double_format(),
        f.wf(),
{
    proof {
        lemma_double_format();
    }
    Format { precision: 53, first: 0x10_0000_0000_0000, infinity: 0x7ff0_0000_0000_0000, scale: 1074 }
}

impl F64 {
    /// The sign and the number that the bit pattern holds.
    pub open spec fn datum(self) -> Datum {
        if self.bits >= 0x8000_0000_0000_0000 {
            Datum { negative: true, number: (self.bits - 0x8000_0000_0000_0000) as u64 }
        } else {
            Datum { negative: false, number: self.bits as u64 }
        }
    }

    /// The bit pattern of a sign and a number.
    pub open spec fn of_datum(d: Datum) -> F64 {
        if d.negative {
            F64 { bits: (d.number + 0x8000_0000_0000_0000) as u64 }
        } else {
            F64 { bits: d.number as u64 }
        }
    }

    /// The value in units of `2^-1074`.
    pub open spec fn value(self) -> int {
        self.datum().value(double_format())
    }

    fn unpack(self) -> (d: Datum)
        ensures
            d == self.datum(),
    {
        if self.bits >= 0x8000_0000_0000_0000 {
            Datum { negative: true, number: (self.bits - 0x8000_0000_0000_0000) }
        } else {
            Datum { negative: false, number: self.bits }
        }
    }

    pub(super) fn pack(d: Datum) -> (x: F64)
        requires
            d.number < 0x8000_0000_0000_0000,
        ensures
            x == F64::of_datum(d),
    {
        if d.negative {
            F64 { bits: d.number + 0x8000_0000_0000_0000 }
        } else {
            F64 { bits: d.number }
        }
    }

    #[verifier::allow_in_spec]
    pub fn from_bits(bits: u64) -> F64
        returns
            (F64 { bits }),
    {
        F64 { bits }
    }

    #[verifier::allow_in_spec]
    pub fn to_bits(self) -> u64
        returns
            self.bits,
    {
        self.bits
    }

    #[verifier::opaque]
    pub open spec fn sum(self, other: F64) -> F64 {
        F64::of_datum(sum(double_format(), self.datum(), other.datum()))
    }

    /// The sum, rounded.
    #[verifier::allow_in_spec]
    pub fn plus(self, other: F64) -> F64
        returns
            self.sum(other),
    {
        proof {
            reveal(F64::sum);
        }
        F64::pack(add_data(format(), self.unpack(), other.unpack()))
    }

    /// The difference, rounded.
    #[verifier::allow_in_spec]
    pub fn minus(self, other: F64) -> F64
        returns
            self.sum(other.negated()),
    {
        self.plus(other.opposite())
    }

    #[verifier::opaque]
    pub open spec fn product(self, other: F64) -> F64 {
        F64::of_datum(product(double_format(), self.datum(), other.datum()))
    }

    /// The product, rounded.
    #[verifier::allow_in_spec]
    pub fn times(self, other: F64) -> F64
        returns
            self.product(other),
    {
        proof {
            reveal(F64::product);
        }
        F64::pack(multiply_data(format(), self.unpack(), other.unpack()))
    }

    #[verifier::opaque]
    pub open spec fn quotient(self, other: F64) -> F64 {
        F64::of_datum(quotient(double_format(), self.datum(), other.datum()))
    }

    /// The quotient, rounded.
    #[verifier::allow_in_spec]
    pub fn over(self, other: F64) -> F64
        returns
            self.quotient(other),
    {
        proof {
            reveal(F64::quotient);
        }
        F64::pack(divide_data(format(), self.unpack(), other.unpack()))
    }

    #[verifier::opaque]
    pub open spec fn negated(self) -> F64 {
        if self.bits >= 0x8000_0000_0000_0000 {
            F64 { bits: (self.bits - 0x8000_0000_0000_0000) as u64 }
        } else {
            F64 { bits: (self.bits + 0x8000_0000_0000_0000) as u64 }
        }
    }

    /// The number with its sign reversed.
    #[verifier::allow_in_spec]
    pub fn opposite(self) -> F64
        returns
            self.negated(),
    {
        proof {
            reveal(F64::negated);
        }
        if self.bits >= 0x8000_0000_0000_0000 {
            F64 { bits: self.bits - 0x8000_0000_0000_0000 }
        } else {
            F64 { bits: self.bits + 0x8000_0000_0000_0000 }
        }
    }

    #[verifier::opaque]
    pub open spec fn unsigned(self) -> F64 {
        if self.bits >= 0x8000_0000_0000_0000 {
            F64 { bits: (self.bits - 0x8000_0000_0000_0000) as u64 }
        } else {
            self
        }
    }

    /// The absolute value.
    #[verifier::allow_in_spec]
    pub fn abs(self) -> F64
        returns
            self.unsigned(),
    {
        proof {
            reveal(F64::unsigned);
        }
        if self.bits >= 0x8000_0000_0000_0000 {
            F64 { bits: self.bits - 0x8000_0000_0000_0000 }
        } else {
            self
        }
    }

    #[verifier::opaque]
    pub open spec fn less(self, other: F64) -> bool {
        less(double_format(), self.datum(), other.datum())
    }

    /// Whether this is less than `other`.
    #[verifier::allow_in_spec]
    pub fn lt(self, other: F64) -> bool
        returns
            self.less(other),
    {
        proof {
            reveal(F64::less);
        }
        less_data(format(), self.unpack(), other.unpack())
    }

    /// Whether this is greater than `other`.
    #[verifier::allow_in_spec]
    pub fn gt(self, other: F64) -> bool
        returns
            other.less(self),
    {
        other.lt(self)
    }

    #[verifier::opaque]
    pub open spec fn not_a_number(self) -> bool {
        self.datum().is_nan(double_format())
    }

    /// Whether this is not a number.
    #[verifier::allow_in_spec]
    pub fn is_nan(self) -> bool
        returns
            self.not_a_number(),
    {
        proof {
            reveal(F64::not_a_number);
        }
        self.unpack().number > 0x7ff0_0000_0000_0000
    }

    #[verifier::opaque]
    pub open spec fn finite(self) -> bool {
        self.datum().is_finite(double_format())
    }

    /// Whether this is neither an infinity nor not a number.
    #[verifier::allow_in_spec]
    pub fn is_finite(self) -> bool
        returns
            self.finite(),
    {
        proof {
            reveal(F64::finite);
        }
        self.unpack().number < 0x7ff0_0000_0000_0000
    }

    pub open spec fn at_most(self, other: F64) -> bool {
        !self.not_a_number() && !other.not_a_number() && !other.less(self)
    }

    /// Whether this is less than or equal to `other`.
    #[verifier::allow_in_spec]
    pub fn le(self, other: F64) -> bool
        returns
            self.at_most(other),
    {
        !self.is_nan() && !other.is_nan() && !other.lt(self)
    }

    /// Whether this is greater than or equal to `other`.
    #[verifier::allow_in_spec]
    pub fn ge(self, other: F64) -> bool
        returns
            other.at_most(self),
    {
        other.le(self)
    }

    /// Whether both are the same number, zeros of either sign being one.
    #[verifier::allow_in_spec]
    pub fn equals(self, other: F64) -> bool
        returns
            self.at_most(other) && other.at_most(self),
    {
        self.le(other) && other.le(self)
    }

    /// The larger of the two, or the other one of something not a number.
    #[verifier::allow_in_spec]
    pub fn max(self, other: F64) -> F64
        returns
            (if self.less(other) || self.not_a_number() {
                other
            } else {
                self
            }),
    {
        if self.lt(other) || self.is_nan() {
            other
        } else {
            self
        }
    }

    /// The smaller of the two, or the other one of something not a number.
    #[verifier::allow_in_spec]
    pub fn min(self, other: F64) -> F64
        returns
            (if other.less(self) || self.not_a_number() {
                other
            } else {
                self
            }),
    {
        if other.lt(self) || self.is_nan() {
            other
        } else {
            self
        }
    }

    pub open spec fn clamped(self, low: F64, high: F64) -> F64 {
        let x = if self.less(low) {
            low
        } else {
            self
        };
        if high.less(x) {
            high
        } else {
            x
        }
    }

    /// Brought between `low` and `high`.
    #[verifier::allow_in_spec]
    pub fn clamp(self, low: F64, high: F64) -> F64
        returns
            self.clamped(low, high),
    {
        let x: F64 = if self.lt(low) {
            low
        } else {
            self
        };
        if high.lt(x) {
            high
        } else {
            x
        }
    }

    #[verifier::opaque]
    pub open spec fn integral(self, direction: Direction) -> F64 {
        F64::of_datum(integral(double_format(), self.datum(), direction))
    }

    /// The largest integer that is not greater.
    #[verifier::allow_in_spec]
    pub fn floor(self) -> F64
        returns
            self.integral(Direction::Down),
    {
        proof {
            reveal(F64::integral);
        }
        F64::pack(integral_datum(format(), self.unpack(), Direction::Down))
    }

    /// The smallest integer that is not less.
    #[verifier::allow_in_spec]
    pub fn ceil(self) -> F64
        returns
            self.integral(Direction::Up),
    {
        proof {
            reveal(F64::integral);
        }
        F64::pack(integral_datum(format(), self.unpack(), Direction::Up))
    }

    /// The closest integer, a half away from zero.
    #[verifier::allow_in_spec]
    pub fn round(self) -> F64
        returns
            self.integral(Direction::HalfAway),
    {
        proof {
            reveal(F64::integral);
        }
        F64::pack(integral_datum(format(), self.unpack(), Direction::HalfAway))
    }

    /// The integer part, brought between `lo` and `hi`; zero if this is not a
    /// number.
    #[verifier::opaque]
    pub open spec fn integer_part(self, lo: int, hi: int) -> int {
        truncated(double_format(), self.datum(), lo, hi)
    }

    /// The integer part within the range of `usize`.
    pub fn to_usize(self) -> (n: usize)
        ensures
            n == self.integer_part(0, usize::MAX as int),
    {
        proof {
            reveal(F64::integer_part);
        }
        truncate_datum(format(), self.unpack(), 0, usize::MAX as u64) as usize
    }

    /// The integer part within the range of `u32`.
    pub fn to_u32(self) -> (n: u32)
        ensures
            n == self.integer_part(0, u32::MAX as int),
    {
        proof {
            reveal(F64::integer_part);
        }
        truncate_datum(format(), self.unpack(), 0, u32::MAX as u64) as u32
    }

    /// The integer part within the range of `i32`.
    pub fn to_i32(self) -> (n: i32)
        ensures
            n == self.integer_part(i32::MIN as int, i32::MAX as int),
    {
        proof {
            reveal(F64::integer_part);
        }
        truncate_datum(format(), self.unpack(), 0x8000_0000, 0x7fff_ffff) as i32
    }

    /// The integer part within the range of `isize`.
    pub fn to_isize(self) -> (n: isize)
        ensures
            n == self.integer_part(isize::MIN as int, isize::MAX as int),
    {
        proof {
            reveal(F64::integer_part);
        }
        truncate_datum(format(), self.unpack(), isize::MAX as u64 + 1, isize::MAX as u64) as isize
    }

    /// The integer part within the range of `i64`.
    pub fn to_i64(self) -> (n: i64)
        ensures
            n == self.integer_part(i64::MIN as int, i64::MAX as int),
    {
        proof {
            reveal(F64::integer_part);
        }
        truncate_datum(format(), self.unpack(), 0x8000_0000_0000_0000, 0x7fff_ffff_ffff_ffff)
            as i64
    }

    /// The number closest to the integer `n`.
    #[verifier::opaque]
    pub open spec fn nearest_to(n: int) -> F64 {
        F64::of_datum(of_integer(double_format(), n))
    }

    /// The number closest to `n`.
    pub fn of_u64(n: u64) -> (x: F64)
        ensures
            x == F64::nearest_to(n as int),
    {
        proof {
            reveal(F64::nearest_to);
        }
        F64::pack(integer_data(format(), false, n))
    }

    /// The number closest to `n`.
    pub fn of_usize(n: usize) -> (x: F64)
        ensures
            x == F64::nearest_to(n as int),
    {
        F64::of_u64(n as u64)
    }

    /// The number closest to `n`.
    pub fn of_i32(n: i32) -> (x: F64)
        ensures
            x == F64::nearest_to(n as int),
    {
        F64::of_i64(n as i64)
    }

    /// The number closest to `n`.
    pub fn of_i64(n: i64) -> (x: F64)
        ensures
            x == F64::nearest_to(n as int),
    {
        proof {
            reveal(F64::nearest_to);
        }
        if n >= 0 {
            F64::pack(integer_data(format(), false, n as u64))
        } else {
            let opposite: u64 = (-(n + 1)) as u64 + 1;
            F64::pack(integer_data(format(), true, opposite))
        }
    }

    /// The number closest to `n / d`, for integers that the format holds.
    #[verifier::allow_in_spec]
    pub fn ratio(n: i32, d: i32) -> F64
        returns
            F64::nearest_to(n as int).quotient(F64::nearest_to(d as int)),
    {
        F64::of_i32(n).over(F64::of_i32(d))
    }

    /// The small integer `n`.
    #[verifier::allow_in_spec]
    pub fn whole(n: i32) -> F64
        returns
            F64::nearest_to(n as int),
    {
        F64::of_i32(n)
    }

    /// Positive zero.
    #[verifier::allow_in_spec]
    pub fn zero() -> F64
        returns
            (F64 { bits: 0 }),
    {
        F64 { bits: 0 }
    }

    /// Minus infinity.
    #[verifier::allow_in_spec]
    pub fn minus_infinity() -> F64
        returns
            (F64 { bits: 0xfff0_0000_0000_0000 }),
    {
        F64 { bits: 0xfff0_0000_0000_0000 }
    }

    #[verifier::opaque]
    pub open spec fn as_single(self) -> F32 {
        F32::of_datum(converted(double_format(), super::single::single_format(), self.datum()))
    }

    /// The same value in single precision, rounded.
    #[verifier::allow_in_spec]
    pub fn to_single(self) -> F32
        returns
            self.as_single(),
    {
        proof {
            reveal(F64::as_single);
        }
        F32::pack(convert_datum(format(), super::single::format(), self.unpack()))
    }
}

} // verus!
