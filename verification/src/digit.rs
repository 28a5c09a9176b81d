//! Digit codec: one packed byte holds two decimal digits, one per nybble.
//! The high nybble holds the lower-order digit of the pair, the low nybble
//! the next higher-order digit.

use vstd::prelude::*;

verus! {

/// The decimal digit stored in the byte's high nybble: the lower-order digit
/// of the pair.
pub open spec fn nybble_high(b: u8) -> nat {
    (b / 16) as nat
}

/// The decimal digit stored in the byte's low nybble: the higher-order digit
/// of the pair.
pub open spec fn nybble_low(b: u8) -> nat {
    (b % 16) as nat
}

/// A packed byte is valid when both of its nybbles hold decimal digits.
pub open spec fn byte_ok(b: u8) -> bool {
    nybble_high(b) <= 9 && nybble_low(b) <= 9
}

/// The numeric value of the two-digit pair held by one packed byte.
pub open spec fn byte_val(b: u8) -> nat {
    nybble_high(b) + 10 * nybble_low(b)
}

/// A stored nybble does not hold a decimal digit: internal-invariant
/// corruption, never reachable through the documented constructors.
#[derive(Clone, Copy, Debug, PartialEq, Eq, Structural)]
pub enum InfinintError {
    InvalidDigit,
}

/// Accepts a nybble value as a decimal digit, or rejects it.
pub fn decimal_digit_nybble(n: u8) -> (r: Result<u8, InfinintError>)
    ensures
        n <= 9 ==> r == Ok::<u8, InfinintError>(n),
        n > 9 ==> r == Err::<u8, InfinintError>(InfinintError::InvalidDigit),
{
    if n < 10 {
        Ok(n)
    } else {
        Err(InfinintError::InvalidDigit)
    }
}

/// Decodes the lower-order digit of the pair (the high nybble).
pub fn decimal_digit_high(n: u8) -> (r: Result<u8, InfinintError>)
    ensures
        nybble_high(n) <= 9 ==> r == Ok::<u8, InfinintError>((n / 16) as u8),
        nybble_high(n) > 9 ==> r == Err::<u8, InfinintError>(InfinintError::InvalidDigit),
{
    decimal_digit_nybble(n / 16)
}

/// Decodes the higher-order digit of the pair (the low nybble).
pub fn decimal_digit_low(n: u8) -> (r: Result<u8, InfinintError>)
    ensures
        nybble_low(n) <= 9 ==> r == Ok::<u8, InfinintError>((n % 16) as u8),
        nybble_low(n) > 9 ==> r == Err::<u8, InfinintError>(InfinintError::InvalidDigit),
{
    decimal_digit_nybble(n % 16)
}

/// Decodes a packed byte into its digit pair `(lower-order, higher-order)`,
/// failing with `InvalidDigit` when either nybble is 10 or more.
pub fn decimal_digits(n: u8) -> (r: Result<(u8, u8), InfinintError>)
    ensures
        byte_ok(n) ==> r == Ok::<(u8, u8), InfinintError>(((n / 16) as u8, (n % 16) as u8)),
        byte_ok(n) ==> (r matches Ok(p) && p.0 == nybble_high(n) && p.1 == nybble_low(n) && p.0
            * 16 + p.1 == n && byte_val(n) == p.0 + 10 * p.1),
        !byte_ok(n) ==> r == Err::<(u8, u8), InfinintError>(InfinintError::InvalidDigit),
{
    proof {
        assert(n == (n / 16) * 16 + (n % 16)) by (nonlinear_arith);
        assert(0 <= n / 16 <= 15 && 0 <= n % 16 <= 15) by (nonlinear_arith);
    }
    let high = match decimal_digit_high(n) {
        Ok(d) => d,
        Err(e) => {
            return Err(e);
        },
    };
    let low = match decimal_digit_low(n) {
        Ok(d) => d,
        Err(e) => {
            return Err(e);
        },
    };
    Ok((high, low))
}

/// One decimal digit position of an addition: result digit and carry out.
pub fn decimal_add_with_carry(n: u8, m: u8, carry: u8) -> (r: (u8, u8))
    requires
        n <= 9,
        m <= 9,
        carry <= 1,
    ensures
        r.0 <= 9,
        r.1 <= 1,
        r.0 + 10 * r.1 == n + m + carry,
{
    let result = n + m + carry;
    let carry_out = result / 10;
    let result = result % 10;
    (result, carry_out)
}

/// One decimal digit position of a subtraction: result digit and borrow out.
pub fn decimal_subtract_with_carry(n: u8, m: u8, carry: u8) -> (r: (u8, u8))
    requires
        n <= 9,
        m <= 9,
        carry <= 1,
    ensures
        r.0 <= 9,
        r.1 <= 1,
        r.0 as int == n - m - carry + 10 * r.1,
{
    let (result, carry_out) = if n >= m + carry {
        (n - m - carry, 0)
    } else {
        ((n + 10) - m - carry, 1)
    };
    (result, carry_out)
}

} // verus!
