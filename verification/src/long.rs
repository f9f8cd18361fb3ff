//! Arbitrary-precision integers.
//!
//! A [`Long`] stores its value as two's-complement bytes in little-endian
//! order; its view is the mathematical integer that those bytes denote. The
//! arithmetic itself is done by `num_bigint::BigInt`.

use vstd::prelude::*;
use vstd::arithmetic::div_mod::{
    lemma_fundamental_div_mod, lemma_fundamental_div_mod_converse, lemma_mod_pos_bound,
};
use vstd::arithmetic::power2::pow2;
use crate::names::decimal;
use num_bigint::BigInt;
use num_traits::ToPrimitive;

verus! {

/// The integer whose two's-complement representation, in little-endian byte
/// order, is `bytes`. The empty sequence denotes zero.
pub open spec fn signed_le(bytes: Seq<u8>) -> int
    decreases bytes.len(),
{
    if bytes.len() == 0 {
        0
    } else if bytes.len() == 1 {
        if bytes[0] >= 128 {
            bytes[0] as int - 256
        } else {
            bytes[0] as int
        }
    } else {
        bytes[0] as int + 256 * signed_le(bytes.skip(1))
    }
}

/// The quotient of `a` by `b`, rounded toward zero.
pub open spec fn truncated_quotient(a: int, b: int) -> int
    recommends
        b != 0,
{
    if a >= 0 && b > 0 {
        a / b
    } else if a >= 0 {
        -(a / (-b))
    } else if b > 0 {
        -((-a) / b)
    } else {
        (-a) / (-b)
    }
}

/// The quotient of `a` by `b`, rounded toward negative infinity.
pub open spec fn floor_quotient(a: int, b: int) -> int
    recommends
        b != 0,
{
    if b > 0 {
        a / b
    } else {
        (-a) / (-b)
    }
}

/// The quotient rounded toward negative infinity is the quotient rounded
/// toward zero, or one less where the remainder has not the sign of the
/// divisor.
pub proof fn lemma_floor_quotient(a: int, b: int)
    requires
        b != 0,
    ensures
        ({
            let q = truncated_quotient(a, b);
            let r = a - q * b;
            floor_quotient(a, b) == if r != 0 && ((r < 0) != (b < 0)) {
                q - 1
            } else {
                q
            }
        }),
{
    let q = truncated_quotient(a, b);
    let r = a - q * b;
    let d = if b > 0 {
        b
    } else {
        -b
    };
    let x = if b > 0 {
        a
    } else {
        -a
    };
    let m = if a >= 0 {
        a
    } else {
        -a
    };
    // The magnitude of `a` is that of `q` times `d`, and a rest below `d`.
    let p = m / d;
    let rest = m % d;
    lemma_fundamental_div_mod(m, d);
    lemma_mod_pos_bound(m, d);
    assert(m == d * p + rest);
    assert(0 <= rest < d);
    let back = if b > 0 {
        r
    } else {
        -r
    };
    assert(x == q * d + back) by (nonlinear_arith)
        requires
            r == a - q * b,
            b != 0,
            d == (if b > 0 {
                b
            } else {
                -b
            }),
            x == (if b > 0 {
                a
            } else {
                -a
            }),
            back == (if b > 0 {
                r
            } else {
                -r
            }),
    ;
    assert(q == (if (a >= 0) == (b > 0) {
        p
    } else {
        -p
    }));
    assert(back == (if a >= 0 {
        if b > 0 {
            rest
        } else {
            -rest
        }
    } else {
        if b > 0 {
            -rest
        } else {
            rest
        }
    })) by (nonlinear_arith)
        requires
            m == d * p + rest,
            x == q * d + back,
            q == (if (a >= 0) == (b > 0) {
                p
            } else {
                -p
            }),
            m == (if a >= 0 {
                a
            } else {
                -a
            }),
            x == (if b > 0 {
                a
            } else {
                -a
            }),
    ;
    if back >= 0 {
        lemma_fundamental_div_mod_converse(x, d, q, back);
    } else {
        assert(x == (q - 1) * d + (back + d)) by (nonlinear_arith)
            requires
                x == q * d + back,
        ;
        lemma_fundamental_div_mod_converse(x, d, q - 1, back + d);
    }
}

/// An integer written in decimal: its digits, after a minus sign if it is
/// negative.
pub open spec fn signed_decimal(a: int) -> Seq<u8> {
    if a < 0 {
        seq![45u8] + decimal((-a) as nat)
    } else {
        decimal(a as nat)
    }
}

/// A bitwise operator.
#[derive(Clone, Copy, Debug, PartialEq, Eq, Structural)]
pub enum BitOp {
    And,
    Or,
    Xor,
}

/// The result of a bitwise operator on two bits.
pub open spec fn bit_of(op: BitOp, x: bool, y: bool) -> bool {
    match op {
        BitOp::And => x && y,
        BitOp::Or => x || y,
        BitOp::Xor => x != y,
    }
}

/// The absolute value of an integer.
pub open spec fn magnitude(a: int) -> int {
    if a < 0 {
        -a
    } else {
        a
    }
}

/// The result of a bitwise operator on two integers in two's complement
/// of unbounded width: the lowest bit of the result is that of the lowest
/// bits of the operands, and the higher bits are those of the operands
/// shifted right by one. An integer that is 0 or -1 has all its bits equal.
pub open spec fn bitwise(op: BitOp, a: int, b: int) -> int
    decreases magnitude(a) + magnitude(b),
{
    if (a == 0 || a == -1) && (b == 0 || b == -1) {
        if bit_of(op, a == -1, b == -1) {
            -1
        } else {
            0
        }
    } else {
        2 * bitwise(op, a / 2, b / 2) + if bit_of(op, a % 2 == 1, b % 2 == 1) {
            1int
        } else {
            0int
        }
    }
}

/// An integer of arbitrary size.
#[derive(Debug)]
pub struct Long {
    bytes: Vec<u8>,
}

impl View for Long {
    type V = int;

    closed spec fn view(&self) -> int {
        signed_le(self.bytes@)
    }
}

/// Calls `BigInt::from(i64)` and `BigInt::to_signed_bytes_le`.
///
/// Trusted: the bytes returned are the two's-complement little-endian
/// representation of `v`.
#[verifier::external_body]
fn bigint_from_i64(v: i64) -> (r: Long)
    ensures
        r@ == v,
{
    Long { bytes: BigInt::from(v).to_signed_bytes_le() }
}

/// Calls `ToPrimitive::to_i64` on the `BigInt` read from `a`.
///
/// Trusted: the result is the value when it lies in the range of `i64`, and
/// `None` otherwise.
#[verifier::external_body]
fn bigint_to_i64(a: &Long) -> (r: Option<i64>)
    ensures
        r == (if i64::MIN <= a@ <= i64::MAX {
            Some(a@ as i64)
        } else {
            None
        }),
{
    BigInt::from_signed_bytes_le(&a.bytes).to_i64()
}

/// Calls `ToPrimitive::to_u8` on the `BigInt` read from `a`.
///
/// Trusted: the result is the value when it lies in `0..=255`, and `None`
/// otherwise.
#[verifier::external_body]
fn bigint_to_u8(a: &Long) -> (r: Option<u8>)
    ensures
        r == (if 0 <= a@ <= u8::MAX {
            Some(a@ as u8)
        } else {
            None
        }),
{
    BigInt::from_signed_bytes_le(&a.bytes).to_u8()
}

/// Calls `ToPrimitive::to_usize` on the `BigInt` read from `a`.
///
/// Trusted: the result is the value when it lies in the range of `usize`,
/// and `None` otherwise.
#[verifier::external_body]
fn bigint_to_usize(a: &Long) -> (r: Option<usize>)
    ensures
        r == (if 0 <= a@ <= usize::MAX {
            Some(a@ as usize)
        } else {
            None
        }),
{
    BigInt::from_signed_bytes_le(&a.bytes).to_usize()
}

/// Compares the `BigInt`s read from `a` and `b` with `==`.
///
/// Trusted: `BigInt` equality is equality of the integers.
#[verifier::external_body]
fn bigint_eq(a: &Long, b: &Long) -> (r: bool)
    ensures
        r == (a@ == b@),
{
    BigInt::from_signed_bytes_le(&a.bytes) == BigInt::from_signed_bytes_le(&b.bytes)
}

/// Compares the `BigInt`s read from `a` and `b` with `<`.
///
/// Trusted: `BigInt` ordering is the ordering of the integers.
#[verifier::external_body]
fn bigint_lt(a: &Long, b: &Long) -> (r: bool)
    ensures
        r == (a@ < b@),
{
    BigInt::from_signed_bytes_le(&a.bytes) < BigInt::from_signed_bytes_le(&b.bytes)
}

/// Adds the `BigInt`s read from `a` and `b`.
///
/// Trusted: `BigInt` addition is exact.
#[verifier::external_body]
fn bigint_sum(a: &Long, b: &Long) -> (r: Long)
    ensures
        r@ == a@ + b@,
{
    let x = BigInt::from_signed_bytes_le(&a.bytes);
    let y = BigInt::from_signed_bytes_le(&b.bytes);
    Long { bytes: (x + y).to_signed_bytes_le() }
}

/// Subtracts the `BigInt` read from `b` from the one read from `a`.
///
/// Trusted: `BigInt` subtraction is exact.
#[verifier::external_body]
fn bigint_difference(a: &Long, b: &Long) -> (r: Long)
    ensures
        r@ == a@ - b@,
{
    let x = BigInt::from_signed_bytes_le(&a.bytes);
    let y = BigInt::from_signed_bytes_le(&b.bytes);
    Long { bytes: (x - y).to_signed_bytes_le() }
}

/// Multiplies the `BigInt`s read from `a` and `b`.
///
/// Trusted: `BigInt` multiplication is exact.
#[verifier::external_body]
fn bigint_product(a: &Long, b: &Long) -> (r: Long)
    ensures
        r@ == a@ * b@,
{
    let x = BigInt::from_signed_bytes_le(&a.bytes);
    let y = BigInt::from_signed_bytes_le(&b.bytes);
    Long { bytes: (x * y).to_signed_bytes_le() }
}

/// Divides the `BigInt` read from `a` by the one read from `b`.
///
/// Trusted: `BigInt` division rounds toward zero; it panics on a zero
/// divisor, which the precondition excludes.
#[verifier::external_body]
fn bigint_quotient(a: &Long, b: &Long) -> (r: Long)
    requires
        b@ != 0,
    ensures
        r@ == truncated_quotient(a@, b@),
{
    let x = BigInt::from_signed_bytes_le(&a.bytes);
    let y = BigInt::from_signed_bytes_le(&b.bytes);
    Long { bytes: (x / y).to_signed_bytes_le() }
}

/// Applies `&` to the `BigInt`s read from `a` and `b`.
///
/// Trusted: `BigInt` computes the bitwise AND in two's complement.
#[verifier::external_body]
fn bigint_and(a: &Long, b: &Long) -> (r: Long)
    ensures
        r@ == bitwise(BitOp::And, a@, b@),
{
    let x = BigInt::from_signed_bytes_le(&a.bytes);
    let y = BigInt::from_signed_bytes_le(&b.bytes);
    Long { bytes: (x & y).to_signed_bytes_le() }
}

/// Applies `|` to the `BigInt`s read from `a` and `b`.
///
/// Trusted: `BigInt` computes the bitwise OR in two's complement.
#[verifier::external_body]
fn bigint_or(a: &Long, b: &Long) -> (r: Long)
    ensures
        r@ == bitwise(BitOp::Or, a@, b@),
{
    let x = BigInt::from_signed_bytes_le(&a.bytes);
    let y = BigInt::from_signed_bytes_le(&b.bytes);
    Long { bytes: (x | y).to_signed_bytes_le() }
}

/// Applies `^` to the `BigInt`s read from `a` and `b`.
///
/// Trusted: `BigInt` computes the bitwise XOR in two's complement.
#[verifier::external_body]
fn bigint_xor(a: &Long, b: &Long) -> (r: Long)
    ensures
        r@ == bitwise(BitOp::Xor, a@, b@),
{
    let x = BigInt::from_signed_bytes_le(&a.bytes);
    let y = BigInt::from_signed_bytes_le(&b.bytes);
    Long { bytes: (x ^ y).to_signed_bytes_le() }
}

/// Shifts the `BigInt` read from `a` left by `n` bits.
///
/// Trusted: a left shift multiplies by two to the power `n`.
#[verifier::external_body]
fn bigint_shl(a: &Long, n: usize) -> (r: Long)
    ensures
        r@ == a@ * pow2(n as nat),
{
    Long { bytes: (BigInt::from_signed_bytes_le(&a.bytes) << n).to_signed_bytes_le() }
}

/// Shifts the `BigInt` read from `a` right by `n` bits.
///
/// Trusted: a right shift divides by two to the power `n` and rounds toward
/// negative infinity.
#[verifier::external_body]
fn bigint_shr(a: &Long, n: usize) -> (r: Long)
    ensures
        r@ == a@ / (pow2(n as nat) as int),
{
    Long { bytes: (BigInt::from_signed_bytes_le(&a.bytes) >> n).to_signed_bytes_le() }
}

/// Calls `BigInt::to_str_radix` with radix 10 on the `BigInt` read from
/// `a`.
///
/// Trusted: the string holds the decimal digits of the magnitude, most
/// significant first and without leading zeros, after a minus sign if the
/// integer is negative; zero is written as `0`.
#[verifier::external_body]
fn bigint_to_decimal(a: &Long) -> (r: Vec<u8>)
    ensures
        r@ == signed_decimal(a@),
{
    BigInt::from_signed_bytes_le(&a.bytes).to_str_radix(10).into_bytes()
}

impl Clone for Long {
    fn clone(&self) -> (r: Long)
        ensures
            r@ == self@,
    {
        Long { bytes: self.bytes.clone() }
    }
}

impl Long {
    /// The integer with the given two's-complement little-endian bytes.
    pub fn from_signed_bytes_le(bytes: Vec<u8>) -> (r: Long)
        ensures
            r@ == signed_le(bytes@),
    {
        Long { bytes }
    }

    /// The integer `b`.
    pub fn from_u8(b: u8) -> (r: Long)
        ensures
            r@ == b,
    {
        let mut bytes: Vec<u8> = Vec::new();
        bytes.push(b);
        bytes.push(0);
        proof {
            reveal_with_fuel(signed_le, 3);
            assert(bytes@.skip(1) =~= seq![0u8]);
        }
        Long { bytes }
    }

    /// The integer `v`.
    pub fn from_i64(v: i64) -> (r: Long)
        ensures
            r@ == v,
    {
        bigint_from_i64(v)
    }

    /// This integer as an `i64`, when it fits.
    pub fn to_i64(&self) -> (r: Option<i64>)
        ensures
            r == (if i64::MIN <= self@ <= i64::MAX {
                Some(self@ as i64)
            } else {
                None
            }),
    {
        bigint_to_i64(self)
    }

    /// This integer as a `u8`, when it fits.
    pub fn to_u8(&self) -> (r: Option<u8>)
        ensures
            r == (if 0 <= self@ <= u8::MAX {
                Some(self@ as u8)
            } else {
                None
            }),
    {
        bigint_to_u8(self)
    }

    /// This integer as a `usize`, when it fits.
    pub fn to_usize(&self) -> (r: Option<usize>)
        ensures
            r == (if 0 <= self@ <= usize::MAX {
                Some(self@ as usize)
            } else {
                None
            }),
    {
        bigint_to_usize(self)
    }

    /// Whether this integer is zero.
    pub fn is_zero(&self) -> (r: bool)
        ensures
            r == (self@ == 0),
    {
        let zero = Long::from_u8(0);
        bigint_eq(self, &zero)
    }

    /// Whether the two integers are equal.
    pub fn equals(&self, other: &Long) -> (r: bool)
        ensures
            r == (self@ == other@),
    {
        bigint_eq(self, other)
    }

    /// Whether this integer is smaller than `other`.
    pub fn less_than(&self, other: &Long) -> (r: bool)
        ensures
            r == (self@ < other@),
    {
        bigint_lt(self, other)
    }

    /// The sum of the two integers.
    pub fn sum(&self, other: &Long) -> (r: Long)
        ensures
            r@ == self@ + other@,
    {
        bigint_sum(self, other)
    }

    /// This integer minus `other`.
    pub fn difference(&self, other: &Long) -> (r: Long)
        ensures
            r@ == self@ - other@,
    {
        bigint_difference(self, other)
    }

    /// The product of the two integers.
    pub fn product(&self, other: &Long) -> (r: Long)
        ensures
            r@ == self@ * other@,
    {
        bigint_product(self, other)
    }

    /// This integer divided by `other`, rounded toward zero; `None` when
    /// `other` is zero.
    pub fn quotient(&self, other: &Long) -> (r: Option<Long>)
        ensures
            other@ == 0 <==> r is None,
            r matches Some(q) ==> q@ == truncated_quotient(self@, other@),
    {
        if other.is_zero() {
            None
        } else {
            Some(bigint_quotient(self, other))
        }
    }

    /// This integer divided by `other`, rounded toward negative infinity;
    /// `None` when `other` is zero.
    pub fn floor_quotient(&self, other: &Long) -> (r: Option<Long>)
        ensures
            other@ == 0 <==> r is None,
            r matches Some(q) ==> q@ == floor_quotient(self@, other@),
    {
        if other.is_zero() {
            return None;
        }
        let q = bigint_quotient(self, other);
        let rest = bigint_difference(self, &bigint_product(&q, other));
        let zero = Long::from_u8(0);
        proof {
            lemma_floor_quotient(self@, other@);
        }
        if !rest.is_zero() && (rest.less_than(&zero) != other.less_than(&zero)) {
            let one = Long::from_u8(1);
            Some(bigint_difference(&q, &one))
        } else {
            Some(q)
        }
    }

    /// This integer written in decimal.
    pub fn to_decimal(&self) -> (r: Vec<u8>)
        ensures
            r@ == signed_decimal(self@),
    {
        bigint_to_decimal(self)
    }

    /// The bitwise AND of the two integers.
    pub fn bit_and(&self, other: &Long) -> (r: Long)
        ensures
            r@ == bitwise(BitOp::And, self@, other@),
    {
        bigint_and(self, other)
    }

    /// The bitwise OR of the two integers.
    pub fn bit_or(&self, other: &Long) -> (r: Long)
        ensures
            r@ == bitwise(BitOp::Or, self@, other@),
    {
        bigint_or(self, other)
    }

    /// The bitwise XOR of the two integers.
    pub fn bit_xor(&self, other: &Long) -> (r: Long)
        ensures
            r@ == bitwise(BitOp::Xor, self@, other@),
    {
        bigint_xor(self, other)
    }

    /// This integer shifted left by `n` bits.
    pub fn shift_left(&self, n: usize) -> (r: Long)
        ensures
            r@ == self@ * pow2(n as nat),
    {
        bigint_shl(self, n)
    }

    /// This integer shifted right by `n` bits, rounding toward negative
    /// infinity.
    pub fn shift_right(&self, n: usize) -> (r: Long)
        ensures
            r@ == self@ / (pow2(n as nat) as int),
    {
        bigint_shr(self, n)
    }
}

} // verus!
