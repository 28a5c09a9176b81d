//! A semi-infinite-precision decimal integer type, stored compactly: one
//! nybble per decimal digit, two digits packed per byte, sign kept separately
//! from the magnitude.

pub mod digit;
pub mod display;
pub mod magnitude;

use vstd::prelude::*;
use crate::magnitude::{
    mag_ok, mag_val, canonical, op_digits, cmp_digits, digits_vec_from_int, DigitOp,
    lemma_zero_canonical, lemma_canonical_unique, lemma_canonical_len_lt, lemma_mag_val_push,
    lemma_mag_val_empty,
};
use crate::digit::byte_ok;

verus! {

/// A semi-infinite-precision integer: a sign flag and a little-endian
/// sequence of packed decimal digit pairs.
#[derive(Debug, PartialEq, Eq)]
pub struct Infinint {
    pub negative: bool,
    pub digits_vec: Vec<u8>,
}

impl View for Infinint {
    type V = int;

    /// The integer a value denotes.
    open spec fn view(&self) -> int {
        if self.negative {
            -(mag_val(self.digits_vec@) as int)
        } else {
            mag_val(self.digits_vec@) as int
        }
    }
}

/// v, negated when the flag is set.
pub open spec fn signed_val(v: int, negate: bool) -> int {
    if negate {
        -v
    } else {
        v
    }
}

/// The stored sign combined with a transient negate flag.
pub open spec fn effective_negative(x: &Infinint, negate: bool) -> bool {
    x.negative != negate
}

pub open spec fn sign_mismatch(n: &Infinint, m: &Infinint, negate_n: bool, negate_m: bool) -> int {
    (if effective_negative(n, negate_n) {
        1int
    } else {
        0int
    }) + (if effective_negative(m, negate_m) {
        1int
    } else {
        0int
    })
}

pub open spec fn swap_pending(n: &Infinint, m: &Infinint) -> int {
    if mag_val(n.digits_vec@) < mag_val(m.digits_vec@) {
        1int
    } else {
        0int
    }
}

/// Under an effective sign, the signed value is the magnitude or its negation.
proof fn lemma_effective(x: &Infinint, negate: bool)
    ensures
        effective_negative(x, negate) ==> signed_val(x@, negate) == -(mag_val(x.digits_vec@) as int),
        !effective_negative(x, negate) ==> signed_val(x@, negate) == mag_val(x.digits_vec@) as int,
{
}

impl Infinint {
    /// Well-formed: every nybble a decimal digit, canonical magnitude, and
    /// the sign of zero normalized to non-negative.
    pub open spec fn wf(&self) -> bool {
        &&& mag_ok(self.digits_vec@)
        &&& canonical(self.digits_vec@)
        &&& (mag_val(self.digits_vec@) == 0 ==> !self.negative)
    }

    /// Initializes a new Infinint with the value zero.
    pub fn new() -> (r: Infinint)
        ensures
            r.wf(),
            r@ == 0,
            !r.negative,
            r.digits_vec@ =~= seq![0u8],
    {
        let mut digits_vec: Vec<u8> = Vec::new();
        digits_vec.push(0);
        proof {
            lemma_mag_val_empty(Seq::<u8>::empty());
            lemma_mag_val_push(Seq::<u8>::empty(), 0);
            assert(crate::digit::byte_val(0) == 0);
            assert(byte_ok(0));
        }
        Infinint { negative: false, digits_vec }
    }

    /// Reports whether the value is strictly negative.
    pub fn negative(&self) -> (r: bool)
        ensures
            r == self.negative,
            self.wf() ==> (r <==> self@ < 0),
    {
        self.negative
    }

    /// Returns the decimal digits of the value, least significant first, the
    /// padding zero of an odd digit count stripped.
    pub fn digits(&self) -> (r: Vec<u8>)
        requires
            self.wf(),
        ensures
            r@ == crate::magnitude::spec_digits(self.digits_vec@),
    {
        let ghost s = self.digits_vec@;
        let mut digits: Vec<u8> = Vec::new();
        let mut i: usize = 0;
        while i < self.digits_vec.len()
            invariant
                mag_ok(s),
                s == self.digits_vec@,
                i <= s.len(),
                digits@.len() == 2 * i,
                forall|k: int|
                    0 <= k < digits@.len() ==> digits@[k] == crate::magnitude::mag_digits(s)[k],
            decreases s.len() - i,
        {
            let byte = self.digits_vec[i];
            proof {
                assert(byte_ok(s[i as int]));
            }
            let digit_pair = match crate::digit::decimal_digits(byte) {
                Ok(p) => p,
                Err(_) => { (0, 0) },
            };
            digits.push(digit_pair.0);
            digits.push(digit_pair.1);
            proof {
                vstd::arithmetic::div_mod::lemma_fundamental_div_mod_converse(
                    2 * (i as int),
                    2,
                    i as int,
                    0,
                );
                vstd::arithmetic::div_mod::lemma_fundamental_div_mod_converse(
                    2 * (i as int) + 1,
                    2,
                    i as int,
                    1,
                );
                assert(crate::magnitude::mag_digits(s)[2 * (i as int)] == digit_pair.0);
                assert(crate::magnitude::mag_digits(s)[2 * (i as int) + 1] == digit_pair.1);
            }
            i = i + 1;
        }
        proof {
            assert(digits@ =~= crate::magnitude::mag_digits(s));
        }
        if digits.len() > 0 {
            let last_index = digits.len() - 1;
            if digits[last_index] == 0 {
                let ghost d0 = digits@;
                let _ = digits.pop();
                proof {
                    assert(digits@ =~= d0.drop_last());
                }
            }
        }
        digits
    }

    /// The canonical representation of an unsigned 128-bit integer.
    pub fn from_u128(n: u128) -> (r: Infinint)
        ensures
            r.wf(),
            r@ == n,
    {
        Infinint { negative: false, digits_vec: digits_vec_from_int(n) }
    }

    /// The canonical representation of a signed 128-bit integer.
    pub fn from_i128(n: i128) -> (r: Infinint)
        ensures
            r.wf(),
            r@ == n,
    {
        if n >= 0 {
            let digits_vec = digits_vec_from_int(n as u128);
            Infinint { negative: false, digits_vec }
        } else {
            let neg_part: i128 = -(n + 1);
            let magnitude: u128 = (neg_part as u128) + 1;
            assert(magnitude == -(n as int));
            let digits_vec = digits_vec_from_int(magnitude);
            Infinint { negative: true, digits_vec }
        }
    }

    /// Compares two values whose signs are first adjusted by the negate
    /// flags, as the integers they denote.
    pub fn infinint_cmp(n: &Infinint, m: &Infinint, negate_n: bool, negate_m: bool) -> (r:
        core::cmp::Ordering)
        requires
            n.wf(),
            m.wf(),
            effective_negative(n, negate_n) ==> signed_val(n@, negate_n) < 0,
            effective_negative(m, negate_m) ==> signed_val(m@, negate_m) < 0,
        ensures
            r == core::cmp::Ordering::Less <==> signed_val(n@, negate_n) < signed_val(
                m@,
                negate_m,
            ),
            r == core::cmp::Ordering::Equal <==> signed_val(n@, negate_n) == signed_val(
                m@,
                negate_m,
            ),
            r == core::cmp::Ordering::Greater <==> signed_val(n@, negate_n) > signed_val(
                m@,
                negate_m,
            ),
    {
        let n_negative = if negate_n == false {
            n.negative
        } else {
            !n.negative
        };
        let m_negative = if negate_m == false {
            m.negative
        } else {
            !m.negative
        };
        proof {
            lemma_effective(n, negate_n);
            lemma_effective(m, negate_m);
        }
        if n_negative && !m_negative {
            core::cmp::Ordering::Less
        } else if !n_negative && m_negative {
            core::cmp::Ordering::Greater
        } else {
            let mag_ordering = if n.digits_vec.len() < m.digits_vec.len() {
                proof {
                    lemma_canonical_len_lt(n.digits_vec@, m.digits_vec@);
                }
                core::cmp::Ordering::Less
            } else if n.digits_vec.len() > m.digits_vec.len() {
                proof {
                    lemma_canonical_len_lt(m.digits_vec@, n.digits_vec@);
                }
                core::cmp::Ordering::Greater
            } else {
                cmp_digits(&n.digits_vec, &m.digits_vec)
            };
            if n_negative {
                match mag_ordering {
                    core::cmp::Ordering::Less => core::cmp::Ordering::Greater,
                    core::cmp::Ordering::Equal => core::cmp::Ordering::Equal,
                    core::cmp::Ordering::Greater => core::cmp::Ordering::Less,
                }
            } else {
                mag_ordering
            }
        }
    }

    /// Signed addition, routed by effective signs: opposite signs become a
    /// subtraction of magnitudes, matching signs add magnitudes directly.
    pub fn infinint_add(
        n: &Infinint,
        m: &Infinint,
        negate_n: bool,
        negate_m: bool,
        negate_result: bool,
    ) -> (r: Infinint)
        requires
            n.wf(),
            m.wf(),
        ensures
            r.wf(),
            r@ == signed_val(signed_val(n@, negate_n) + signed_val(m@, negate_m), negate_result),
        decreases sign_mismatch(n, m, negate_n, negate_m), swap_pending(n, m),
    {
        let n_negative = if negate_n == false {
            n.negative
        } else {
            !n.negative
        };
        let m_negative = if negate_m == false {
            m.negative
        } else {
            !m.negative
        };
        if !n_negative && m_negative {
            return Infinint::infinint_subtract(n, m, negate_n, !negate_m, negate_result);
        } else if n_negative && !m_negative {
            return Infinint::infinint_subtract(m, n, negate_m, !negate_n, negate_result);
        }
        proof {
            lemma_effective(n, negate_n);
            lemma_effective(m, negate_m);
        }
        let result_digits_vec = op_digits(&n.digits_vec, &m.digits_vec, DigitOp::Add);
        let is_zero = result_digits_vec.len() == 1 && result_digits_vec[0] == 0;
        proof {
            lemma_zero_canonical(result_digits_vec@);
            if is_zero {
                assert(result_digits_vec@ =~= seq![0u8]);
            }
        }
        let result_negative = if is_zero {
            false
        } else if negate_result == false {
            n_negative
        } else {
            !n_negative
        };
        Infinint { negative: result_negative, digits_vec: result_digits_vec }
    }

    /// Signed subtraction, routed by effective signs; for two non-negative
    /// operands the larger magnitude is put first and the result sign
    /// adjusted, so the digit pass never borrows past the end.
    pub fn infinint_subtract(
        n: &Infinint,
        m: &Infinint,
        negate_n: bool,
        negate_m: bool,
        negate_result: bool,
    ) -> (r: Infinint)
        requires
            n.wf(),
            m.wf(),
        ensures
            r.wf(),
            r@ == signed_val(signed_val(n@, negate_n) - signed_val(m@, negate_m), negate_result),
        decreases sign_mismatch(n, m, negate_n, negate_m), swap_pending(n, m),
    {
        let n_negative = if negate_n == false {
            n.negative
        } else {
            !n.negative
        };
        let m_negative = if negate_m == false {
            m.negative
        } else {
            !m.negative
        };
        proof {
            lemma_effective(n, negate_n);
            lemma_effective(m, negate_m);
        }
        if !n_negative && m_negative {
            return Infinint::infinint_add(n, m, negate_n, !negate_m, negate_result);
        } else if n_negative && !m_negative {
            return Infinint::infinint_add(n, m, !negate_n, negate_m, !negate_result);
        } else if n_negative && m_negative {
            return Infinint::infinint_subtract(m, n, !negate_m, !negate_n, negate_result);
        }
        match Infinint::infinint_cmp(n, m, negate_n, negate_m) {
            core::cmp::Ordering::Less => {
                return Infinint::infinint_subtract(m, n, negate_m, negate_n, !negate_result);
            },
            core::cmp::Ordering::Equal => {
                return Infinint::new();
            },
            core::cmp::Ordering::Greater => {},
        }
        let result_digits_vec = op_digits(&n.digits_vec, &m.digits_vec, DigitOp::Subtract);
        let result_negative = if negate_result == false {
            false
        } else {
            true
        };
        Infinint { negative: result_negative, digits_vec: result_digits_vec }
    }

    /// Returns self + other.
    pub fn add(&self, other: &Infinint) -> (r: Infinint)
        requires
            self.wf(),
            other.wf(),
        ensures
            r.wf(),
            r@ == self@ + other@,
    {
        Infinint::infinint_add(self, other, false, false, false)
    }

    /// Returns self - other.
    pub fn sub(&self, other: &Infinint) -> (r: Infinint)
        requires
            self.wf(),
            other.wf(),
        ensures
            r.wf(),
            r@ == self@ - other@,
    {
        Infinint::infinint_subtract(self, other, false, false, false)
    }

    /// Returns the negation: the same magnitude under the flipped sign, with
    /// zero kept non-negative.
    pub fn neg(&self) -> (r: Infinint)
        requires
            self.wf(),
        ensures
            r.wf(),
            r@ == -self@,
    {
        let is_zero = self.digits_vec.len() == 1 && self.digits_vec[0] == 0;
        proof {
            lemma_zero_canonical(self.digits_vec@);
            if is_zero {
                assert(self.digits_vec@ =~= seq![0u8]);
            }
        }
        let digits_vec = self.digits_vec.clone();
        if is_zero {
            Infinint { negative: false, digits_vec }
        } else {
            Infinint { negative: !self.negative, digits_vec }
        }
    }

    /// Orders two well-formed values as the integers they denote.
    pub fn cmp(&self, other: &Infinint) -> (r: core::cmp::Ordering)
        requires
            self.wf(),
            other.wf(),
        ensures
            r == core::cmp::Ordering::Less <==> self@ < other@,
            r == core::cmp::Ordering::Equal <==> self@ == other@,
            r == core::cmp::Ordering::Greater <==> self@ > other@,
    {
        Infinint::infinint_cmp(self, other, false, false)
    }

    /// Value equality: two well-formed values are equal when they denote the
    /// same integer.
    pub fn eq(&self, other: &Infinint) -> (r: bool)
        requires
            self.wf(),
            other.wf(),
        ensures
            r == (self@ == other@),
    {
        match self.cmp(other) {
            core::cmp::Ordering::Equal => true,
            _ => false,
        }
    }
}

impl From<u128> for Infinint {
    fn from(n: u128) -> (r: Infinint) {
        Infinint::from_u128(n)
    }
}

impl vstd::std_specs::convert::FromSpecImpl<u128> for Infinint {
    open spec fn obeys_from_spec() -> bool {
        false
    }

    open spec fn from_spec(v: u128) -> Infinint {
        arbitrary()
    }
}

impl From<i128> for Infinint {
    fn from(n: i128) -> (r: Infinint) {
        Infinint::from_i128(n)
    }
}

impl vstd::std_specs::convert::FromSpecImpl<i128> for Infinint {
    open spec fn obeys_from_spec() -> bool {
        false
    }

    open spec fn from_spec(v: i128) -> Infinint {
        arbitrary()
    }
}

impl From<usize> for Infinint {
    fn from(n: usize) -> (r: Infinint) {
        Infinint::from_u128(n as u128)
    }
}

impl vstd::std_specs::convert::FromSpecImpl<usize> for Infinint {
    open spec fn obeys_from_spec() -> bool {
        false
    }

    open spec fn from_spec(v: usize) -> Infinint {
        arbitrary()
    }
}

impl From<isize> for Infinint {
    fn from(n: isize) -> (r: Infinint) {
        Infinint::from_i128(n as i128)
    }
}

impl vstd::std_specs::convert::FromSpecImpl<isize> for Infinint {
    open spec fn obeys_from_spec() -> bool {
        false
    }

    open spec fn from_spec(v: isize) -> Infinint {
        arbitrary()
    }
}

impl From<u64> for Infinint {
    fn from(n: u64) -> (r: Infinint) {
        Infinint::from_u128(n as u128)
    }
}

impl vstd::std_specs::convert::FromSpecImpl<u64> for Infinint {
    open spec fn obeys_from_spec() -> bool {
        false
    }

    open spec fn from_spec(v: u64) -> Infinint {
        arbitrary()
    }
}

impl From<i64> for Infinint {
    fn from(n: i64) -> (r: Infinint) {
        Infinint::from_i128(n as i128)
    }
}

impl vstd::std_specs::convert::FromSpecImpl<i64> for Infinint {
    open spec fn obeys_from_spec() -> bool {
        false
    }

    open spec fn from_spec(v: i64) -> Infinint {
        arbitrary()
    }
}

impl From<u32> for Infinint {
    fn from(n: u32) -> (r: Infinint) {
        Infinint::from_u128(n as u128)
    }
}

impl vstd::std_specs::convert::FromSpecImpl<u32> for Infinint {
    open spec fn obeys_from_spec() -> bool {
        false
    }

    open spec fn from_spec(v: u32) -> Infinint {
        arbitrary()
    }
}

impl From<i32> for Infinint {
    fn from(n: i32) -> (r: Infinint) {
        Infinint::from_i128(n as i128)
    }
}

impl vstd::std_specs::convert::FromSpecImpl<i32> for Infinint {
    open spec fn obeys_from_spec() -> bool {
        false
    }

    open spec fn from_spec(v: i32) -> Infinint {
        arbitrary()
    }
}

impl From<u16> for Infinint {
    fn from(n: u16) -> (r: Infinint) {
        Infinint::from_u128(n as u128)
    }
}

impl vstd::std_specs::convert::FromSpecImpl<u16> for Infinint {
    open spec fn obeys_from_spec() -> bool {
        false
    }

    open spec fn from_spec(v: u16) -> Infinint {
        arbitrary()
    }
}

impl From<i16> for Infinint {
    fn from(n: i16) -> (r: Infinint) {
        Infinint::from_i128(n as i128)
    }
}

impl vstd::std_specs::convert::FromSpecImpl<i16> for Infinint {
    open spec fn obeys_from_spec() -> bool {
        false
    }

    open spec fn from_spec(v: i16) -> Infinint {
        arbitrary()
    }
}

impl From<u8> for Infinint {
    fn from(n: u8) -> (r: Infinint) {
        Infinint::from_u128(n as u128)
    }
}

impl vstd::std_specs::convert::FromSpecImpl<u8> for Infinint {
    open spec fn obeys_from_spec() -> bool {
        false
    }

    open spec fn from_spec(v: u8) -> Infinint {
        arbitrary()
    }
}

impl From<i8> for Infinint {
    fn from(n: i8) -> (r: Infinint) {
        Infinint::from_i128(n as i128)
    }
}

impl vstd::std_specs::convert::FromSpecImpl<i8> for Infinint {
    open spec fn obeys_from_spec() -> bool {
        false
    }

    open spec fn from_spec(v: i8) -> Infinint {
        arbitrary()
    }
}

/// Canonical representations are unique: two well-formed values denoting the
/// same integer have the same sign flag and the same magnitude bytes.
pub proof fn lemma_value_unique(a: &Infinint, b: &Infinint)
    requires
        a.wf(),
        b.wf(),
        a@ == b@,
    ensures
        a.negative == b.negative,
        a.digits_vec@ == b.digits_vec@,
{
    lemma_canonical_unique(a.digits_vec@, b.digits_vec@);
}

/// Addition agrees with integer addition: the sum of the representations of
/// x and y is the canonical representation of x + y.
pub proof fn lemma_add_matches_int(
    x: int,
    y: int,
    a: &Infinint,
    b: &Infinint,
    sum: &Infinint,
    expected: &Infinint,
)
    requires
        a.wf(),
        b.wf(),
        sum.wf(),
        expected.wf(),
        a@ == x,
        b@ == y,
        sum@ == a@ + b@,
        expected@ == x + y,
    ensures
        sum.negative == expected.negative,
        sum.digits_vec@ == expected.digits_vec@,
{
    lemma_value_unique(sum, expected);
}

/// Subtraction agrees with integer subtraction: the difference of the
/// representations of x and y is the canonical representation of x - y.
pub proof fn lemma_sub_matches_int(
    x: int,
    y: int,
    a: &Infinint,
    b: &Infinint,
    difference: &Infinint,
    expected: &Infinint,
)
    requires
        a.wf(),
        b.wf(),
        difference.wf(),
        expected.wf(),
        a@ == x,
        b@ == y,
        difference@ == a@ - b@,
        expected@ == x - y,
    ensures
        difference.negative == expected.negative,
        difference.digits_vec@ == expected.digits_vec@,
{
    lemma_value_unique(difference, expected);
}

/// A well-formed value denoting zero is the canonical zero: non-negative,
/// with the single magnitude byte 0.
pub proof fn lemma_zero_unique(a: &Infinint)
    requires
        a.wf(),
        a@ == 0,
    ensures
        !a.negative,
        a.digits_vec@ == seq![0u8],
{
    lemma_zero_canonical(a.digits_vec@);
    assert(mag_val(a.digits_vec@) == 0);
}

/// Negation is an involution: negating twice gives back the original value,
/// sign flag and magnitude bytes alike.
pub proof fn lemma_neg_involution(v: &Infinint, w: &Infinint, u: &Infinint)
    requires
        v.wf(),
        w.wf(),
        u.wf(),
        w@ == -v@,
        u@ == -w@,
    ensures
        u.negative == v.negative,
        u.digits_vec@ == v.digits_vec@,
{
    lemma_value_unique(u, v);
}

} // verus!

