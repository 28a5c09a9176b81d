//! Magnitude sequences: little-endian sequences of packed digit-pair bytes,
//! their numeric value, canonical form, comparison, and the digit-vector
//! arithmetic pass shared by addition and subtraction.

use vstd::prelude::*;
use vstd::arithmetic::div_mod::{lemma_fundamental_div_mod, lemma_fundamental_div_mod_converse};
use vstd::arithmetic::mul::lemma_mul_inequality;
use crate::digit::{
    byte_ok, byte_val, decimal_digits, decimal_add_with_carry, decimal_subtract_with_carry,
};

verus! {

/// 100^n: the weight of the digit pair stored at byte position n.
pub open spec fn pow100(n: nat) -> nat
    decreases n,
{
    if n == 0 {
        1
    } else {
        100 * pow100((n - 1) as nat)
    }
}

/// Every byte of the sequence packs two decimal digits.
pub open spec fn mag_ok(s: Seq<u8>) -> bool {
    forall|i: int| 0 <= i < s.len() ==> byte_ok(#[trigger] s[i])
}

/// The number denoted by a little-endian magnitude sequence.
pub open spec fn mag_val(s: Seq<u8>) -> nat
    decreases s.len(),
{
    if s.len() == 0 {
        0
    } else {
        mag_val(s.drop_last()) + pow100((s.len() - 1) as nat) * byte_val(s.last())
    }
}

/// Canonical form: at least one byte, and no superfluous most-significant
/// zero byte (the value zero is the single byte 0).
pub open spec fn canonical(s: Seq<u8>) -> bool {
    s.len() >= 1 && (s.len() > 1 ==> s.last() != 0)
}

pub proof fn lemma_pow100_pos(n: nat)
    ensures
        pow100(n) >= 1,
    decreases n,
{
    if n > 0 {
        lemma_pow100_pos((n - 1) as nat);
    }
}

pub proof fn lemma_pow100_le(i: nat, j: nat)
    requires
        i <= j,
    ensures
        pow100(i) <= pow100(j),
    decreases j,
{
    if i < j {
        lemma_pow100_le(i, (j - 1) as nat);
        lemma_pow100_pos((j - 1) as nat);
    }
}

/// The defining equation of `mag_val`, available as a lemma.
pub proof fn lemma_mag_val_unfold(s: Seq<u8>)
    requires
        s.len() > 0,
    ensures
        mag_val(s) == mag_val(s.drop_last()) + pow100((s.len() - 1) as nat) * byte_val(s.last()),
{
}

pub proof fn lemma_mag_val_empty(s: Seq<u8>)
    requires
        s.len() == 0,
    ensures
        mag_val(s) == 0,
{
}

/// Appending a byte adds its digit-pair value at the next weight.
pub proof fn lemma_mag_val_push(s: Seq<u8>, b: u8)
    ensures
        mag_val(s.push(b)) == mag_val(s) + pow100(s.len()) * byte_val(b),
{
    assert(s.push(b).drop_last() =~= s);
}

/// Dropping a most-significant zero byte keeps the value.
pub proof fn lemma_mag_val_drop_zero(s: Seq<u8>)
    requires
        s.len() > 0,
        s.last() == 0,
    ensures
        mag_val(s.drop_last()) == mag_val(s),
{
    assert(byte_val(0) == 0);
}

/// A magnitude of n valid bytes is below 100^n.
pub proof fn lemma_mag_val_bound(s: Seq<u8>)
    requires
        mag_ok(s),
    ensures
        mag_val(s) < pow100(s.len()),
    decreases s.len(),
{
    if s.len() > 0 {
        assert(mag_ok(s.drop_last()));
        lemma_mag_val_bound(s.drop_last());
        lemma_pow100_pos((s.len() - 1) as nat);
        assert(byte_val(s.last()) <= 99);
        lemma_mul_inequality(byte_val(s.last()) as int, 99, pow100((s.len() - 1) as nat) as int);
        assert(pow100((s.len() - 1) as nat) * byte_val(s.last()) == byte_val(s.last()) * pow100(
            (s.len() - 1) as nat,
        )) by (nonlinear_arith);
    }
}

/// The value can also be read off from the least-significant byte.
pub proof fn lemma_mag_val_first(s: Seq<u8>)
    requires
        s.len() > 0,
    ensures
        mag_val(s) == byte_val(s[0]) + 100 * mag_val(s.drop_first()),
    decreases s.len(),
{
    lemma_mag_val_unfold(s);
    if s.len() == 1 {
        lemma_mag_val_empty(s.drop_last());
        lemma_mag_val_empty(s.drop_first());
        assert(mag_val(s) == mag_val(s.drop_last()) + pow100((s.len() - 1) as nat) * byte_val(
            s.last(),
        ));
        assert((s.len() - 1) as nat == 0);
        assert(pow100(0) == 1);
        assert(mag_val(s) == 1 * byte_val(s.last()));
        assert(mag_val(s) == byte_val(s.last()));
    } else {
        let dl = s.drop_last();
        lemma_mag_val_first(dl);
        assert(dl[0] == s[0]);
        let df = s.drop_first();
        assert(dl.drop_first() =~= df.drop_last());
        assert(df.last() == s.last());
        lemma_mag_val_unfold(df);
        assert(pow100((s.len() - 1) as nat) == 100 * pow100((s.len() - 2) as nat));
        let p = pow100((s.len() - 2) as nat) as int;
        let b = byte_val(s.last()) as int;
        assert((100 * p) * b == 100 * (p * b)) by (nonlinear_arith);
    }
}

/// A nonzero valid byte denotes a nonzero digit pair, and conversely.
pub proof fn lemma_byte_val_zero(b: u8)
    requires
        byte_ok(b),
    ensures
        byte_val(b) == 0 <==> b == 0,
{
    lemma_fundamental_div_mod(b as int, 16);
}

/// A canonical magnitude denotes zero exactly when it is the single zero byte.
pub proof fn lemma_zero_canonical(s: Seq<u8>)
    requires
        mag_ok(s),
        canonical(s),
    ensures
        mag_val(s) == 0 <==> s =~= seq![0u8],
{
    lemma_mag_val_unfold(s);
    if s.len() == 1 {
        lemma_mag_val_empty(s.drop_last());
        lemma_byte_val_zero(s[0]);
        assert(mag_val(s) == mag_val(s.drop_last()) + pow100((s.len() - 1) as nat) * byte_val(
            s.last(),
        ));
        assert((s.len() - 1) as nat == 0);
        assert(pow100(0) == 1);
        assert(mag_val(s) == 1 * byte_val(s.last()));
        assert(mag_val(s) == byte_val(s[0]));
        if s[0] == 0 {
            assert(s =~= seq![0u8]);
        }
        if s =~= seq![0u8] {
            assert(s[0] == 0);
        }
    } else {
        lemma_byte_val_zero(s.last());
        lemma_pow100_pos((s.len() - 1) as nat);
        assert(pow100((s.len() - 1) as nat) * byte_val(s.last()) >= 1) by (nonlinear_arith)
            requires
                pow100((s.len() - 1) as nat) >= 1,
                byte_val(s.last()) >= 1,
        ;
    }
}

/// Of two canonical magnitudes, the one with more bytes denotes the larger
/// number.
pub proof fn lemma_canonical_len_lt(s: Seq<u8>, t: Seq<u8>)
    requires
        mag_ok(s),
        mag_ok(t),
        canonical(s),
        canonical(t),
        s.len() < t.len(),
    ensures
        mag_val(s) < mag_val(t),
{
    lemma_mag_val_bound(s);
    lemma_pow100_le(s.len(), (t.len() - 1) as nat);
    lemma_byte_val_zero(t.last());
    assert(t.last() != 0);
    lemma_mul_inequality(1, byte_val(t.last()) as int, pow100((t.len() - 1) as nat) as int);
    assert(pow100((t.len() - 1) as nat) * byte_val(t.last()) == byte_val(t.last()) * pow100(
        (t.len() - 1) as nat,
    )) by (nonlinear_arith);
}

/// Two canonical magnitudes denoting the same number are identical.
pub proof fn lemma_canonical_unique(s: Seq<u8>, t: Seq<u8>)
    requires
        mag_ok(s),
        mag_ok(t),
        canonical(s),
        canonical(t),
        mag_val(s) == mag_val(t),
    ensures
        s =~= t,
    decreases s.len(),
{
    if s.len() < t.len() {
        lemma_canonical_len_lt(s, t);
    } else if t.len() < s.len() {
        lemma_canonical_len_lt(t, s);
    } else {
        lemma_mag_val_first(s);
        lemma_mag_val_first(t);
        assert(byte_val(s[0]) <= 99);
        assert(byte_val(t[0]) <= 99);
        assert(byte_val(s[0]) == byte_val(t[0]) && mag_val(s.drop_first()) == mag_val(
            t.drop_first(),
        )) by {
            let a = byte_val(s[0]) as int;
            let b = byte_val(t[0]) as int;
            let v1 = mag_val(s.drop_first()) as int;
            let v2 = mag_val(t.drop_first()) as int;
            assert(a + 100 * v1 == b + 100 * v2);
            assert(a == b && v1 == v2) by (nonlinear_arith)
                requires
                    a + 100 * v1 == b + 100 * v2,
                    0 <= a <= 99,
                    0 <= b <= 99,
                    0 <= v1,
                    0 <= v2,
            ;
        }
        lemma_fundamental_div_mod(s[0] as int, 16);
        lemma_fundamental_div_mod(t[0] as int, 16);
        assert(s[0] == t[0]);
        if s.len() == 1 {
            assert(s =~= t);
        } else {
            let sd = s.drop_first();
            let td = t.drop_first();
            assert(mag_ok(sd) && mag_ok(td));
            assert(sd.last() == s.last() && td.last() == t.last());
            assert(canonical(sd) && canonical(td));
            lemma_canonical_unique(sd, td);
            assert forall|i: int| 0 <= i < s.len() implies s[i] == t[i] by {
                if i > 0 {
                    assert(s[i] == sd[i - 1]);
                    assert(t[i] == td[i - 1]);
                }
            }
            assert(s =~= t);
        }
    }
}

/// The value of the first i bytes (the whole sequence when i exceeds it).
pub open spec fn prefix_val(s: Seq<u8>, i: int) -> nat {
    if i <= s.len() {
        mag_val(s.take(i))
    } else {
        mag_val(s)
    }
}

/// The byte at position i, reading positions past the end as zero padding.
pub open spec fn byte_at(s: Seq<u8>, i: int) -> u8 {
    if 0 <= i < s.len() {
        s[i]
    } else {
        0
    }
}

pub proof fn lemma_prefix_val_step(s: Seq<u8>, i: int)
    requires
        0 <= i,
    ensures
        prefix_val(s, i + 1) == prefix_val(s, i) + pow100(i as nat) * byte_val(byte_at(s, i)),
{
    if i < s.len() {
        let u = s.take(i + 1);
        lemma_mag_val_unfold(u);
        assert(u.drop_last() =~= s.take(i));
        assert(u.last() == s[i]);
        assert(mag_val(u) == mag_val(s.take(i)) + pow100(i as nat) * byte_val(s[i]));
    } else {
        assert(byte_val(0) == 0);
        assert(pow100(i as nat) * byte_val(0u8) == 0) by (nonlinear_arith)
            requires
                byte_val(0u8) == 0,
        ;
        if i == s.len() {
            assert(s.take(i) =~= s);
        }
    }
}

pub proof fn lemma_prefix_val_all(s: Seq<u8>, i: int)
    requires
        i >= s.len(),
    ensures
        prefix_val(s, i) == mag_val(s),
{
    if i <= s.len() {
        assert(s.take(i) =~= s);
    }
}

/// Splits a magnitude's value at byte position i.
pub proof fn lemma_mag_val_split(s: Seq<u8>, i: int)
    requires
        0 <= i <= s.len(),
    ensures
        mag_val(s) == mag_val(s.take(i)) + pow100(i as nat) * mag_val(s.skip(i)),
    decreases s.len() - i,
{
    if i == s.len() {
        assert(s.take(i) =~= s);
        lemma_mag_val_empty(s.skip(i));
        assert(pow100(i as nat) * mag_val(s.skip(i)) == 0) by (nonlinear_arith)
            requires
                mag_val(s.skip(i)) == 0,
        ;
    } else {
        lemma_mag_val_split(s, i + 1);
        let u = s.take(i + 1);
        lemma_mag_val_unfold(u);
        assert(u.drop_last() =~= s.take(i));
        assert(u.last() == s[i]);
        let sk = s.skip(i);
        assert(sk.len() > 0 && sk[0] == s[i]);
        assert(sk.drop_first() =~= s.skip(i + 1));
        lemma_mag_val_first(sk);
        let p = pow100(i as nat) as int;
        let b = byte_val(s[i]) as int;
        let rest = mag_val(s.skip(i + 1)) as int;
        assert(pow100((i + 1) as nat) == 100 * pow100(i as nat));
        assert(mag_val(u) == mag_val(s.take(i)) + p * b);
        assert(p * (b + 100 * rest) == p * b + (100 * p) * rest) by (nonlinear_arith);
        assert(mag_val(sk) == b + 100 * rest);
    }
}

/// p * (a + b + c) distributed, for the carry bookkeeping below.
proof fn lemma_mul_distrib3(p: int, a: int, b: int, c: int)
    ensures
        p * (a + b + c) == p * a + p * b + p * c,
{
    assert(p * (a + b + c) == p * a + p * b + p * c) by (nonlinear_arith);
}

/// Two equal-length valid magnitudes that agree above position j are ordered
/// by their digit pairs at position j.
pub proof fn lemma_mag_val_prefix_lt(n: Seq<u8>, m: Seq<u8>, j: int)
    requires
        mag_ok(n),
        mag_ok(m),
        n.len() == m.len(),
        0 <= j < n.len(),
        n.skip(j + 1) == m.skip(j + 1),
        byte_val(n[j]) < byte_val(m[j]),
    ensures
        mag_val(n) < mag_val(m),
{
    lemma_mag_val_split(n, j);
    lemma_mag_val_split(m, j);
    let nsk = n.skip(j);
    let msk = m.skip(j);
    assert(nsk.drop_first() =~= n.skip(j + 1));
    assert(msk.drop_first() =~= m.skip(j + 1));
    lemma_mag_val_first(nsk);
    lemma_mag_val_first(msk);
    assert(mag_val(nsk) < mag_val(msk));
    assert(mag_ok(n.take(j)));
    lemma_mag_val_bound(n.take(j));
    assert(n.take(j).len() == j);
    let p = pow100(j as nat) as int;
    let a = mag_val(nsk) as int;
    let b = mag_val(msk) as int;
    assert(mag_val(n) < p + p * a);
    assert(p + p * a <= p * b && p * b <= mag_val(m)) by (nonlinear_arith)
        requires
            a + 1 <= b,
            p >= 1,
            mag_val(m) == mag_val(m.take(j)) + p * b,
            mag_val(m.take(j)) >= 0,
    ;
}

/// Compares two equal-length magnitude sequences, most significant byte
/// first, higher-order digit of each pair first.
pub fn cmp_digits(n_digits_vec: &Vec<u8>, m_digits_vec: &Vec<u8>) -> (r: core::cmp::Ordering)
    requires
        mag_ok(n_digits_vec@),
        mag_ok(m_digits_vec@),
        n_digits_vec@.len() == m_digits_vec@.len(),
    ensures
        r == core::cmp::Ordering::Less <==> mag_val(n_digits_vec@) < mag_val(m_digits_vec@),
        r == core::cmp::Ordering::Equal <==> mag_val(n_digits_vec@) == mag_val(m_digits_vec@),
        r == core::cmp::Ordering::Greater <==> mag_val(n_digits_vec@) > mag_val(m_digits_vec@),
{
    let len = n_digits_vec.len();
    let mut j: usize = len;
    while j > 0
        invariant
            j <= len,
            len == n_digits_vec@.len(),
            len == m_digits_vec@.len(),
            mag_ok(n_digits_vec@),
            mag_ok(m_digits_vec@),
            n_digits_vec@.skip(j as int) == m_digits_vec@.skip(j as int),
        decreases j,
    {
        j = j - 1;
        let n_byte = n_digits_vec[j];
        let m_byte = m_digits_vec[j];
        let (n_high, n_low) = match decimal_digits(n_byte) {
            Ok(p) => p,
            Err(_) => {
                proof {
                    assert(byte_ok(n_digits_vec@[j as int]));
                }
                (0, 0)
            },
        };
        let (m_high, m_low) = match decimal_digits(m_byte) {
            Ok(p) => p,
            Err(_) => {
                proof {
                    assert(byte_ok(m_digits_vec@[j as int]));
                }
                (0, 0)
            },
        };
        if n_low != m_low || n_high != m_high {
            proof {
                if byte_val(n_byte) < byte_val(m_byte) {
                    lemma_mag_val_prefix_lt(n_digits_vec@, m_digits_vec@, j as int);
                } else {
                    lemma_mag_val_prefix_lt(m_digits_vec@, n_digits_vec@, j as int);
                }
            }
            if n_low < m_low {
                return core::cmp::Ordering::Less;
            } else if n_low > m_low {
                return core::cmp::Ordering::Greater;
            } else if n_high < m_high {
                return core::cmp::Ordering::Less;
            } else {
                return core::cmp::Ordering::Greater;
            }
        }
        proof {
            assert(byte_ok(n_digits_vec@[j as int]));
            assert(byte_ok(m_digits_vec@[j as int]));
            assert(n_high * 16 + n_low == n_byte);
            assert(m_high * 16 + m_low == m_byte);
            assert(n_byte == m_byte);
            let ns = n_digits_vec@;
            let ms = m_digits_vec@;
            assert forall|k: int| 0 <= k < ns.skip(j as int).len() implies ns.skip(j as int)[k]
                == ms.skip(j as int)[k] by {
                if k > 0 {
                    assert(ns.skip(j as int)[k] == ns.skip(j + 1)[k - 1]);
                    assert(ms.skip(j as int)[k] == ms.skip(j + 1)[k - 1]);
                }
            }
            assert(ns.skip(j as int) =~= ms.skip(j as int));
        }
    }
    proof {
        assert(n_digits_vec@.skip(0) =~= n_digits_vec@);
        assert(m_digits_vec@.skip(0) =~= m_digits_vec@);
    }
    core::cmp::Ordering::Equal
}

/// The digit operation applied pairwise by `op_digits`.
#[derive(Clone, Copy, PartialEq, Eq, Structural)]
pub enum DigitOp {
    Add,
    Subtract,
}

/// One pass over two magnitude sequences, least significant byte first,
/// applying decimal add-with-carry or subtract-with-borrow at every digit,
/// then trimming the result to canonical form.
pub fn op_digits(n_digits_vec: &Vec<u8>, m_digits_vec: &Vec<u8>, op: DigitOp) -> (r: Vec<u8>)
    requires
        mag_ok(n_digits_vec@),
        mag_ok(m_digits_vec@),
        op == DigitOp::Subtract ==> mag_val(m_digits_vec@) <= mag_val(n_digits_vec@),
    ensures
        mag_ok(r@),
        canonical(r@),
        op == DigitOp::Add ==> mag_val(r@) == mag_val(n_digits_vec@) + mag_val(m_digits_vec@),
        op == DigitOp::Subtract ==> mag_val(r@) == mag_val(n_digits_vec@) - mag_val(m_digits_vec@),
{
    let n_len = n_digits_vec.len();
    let m_len = m_digits_vec.len();
    let len = if n_len < m_len {
        m_len
    } else {
        n_len
    };
    let mut result_digits_vec: Vec<u8> = Vec::new();
    let mut carry: u8 = 0;
    let mut i: usize = 0;
    while i < len
        invariant
            i <= len,
            n_digits_vec@.len() <= len,
            m_digits_vec@.len() <= len,
            mag_ok(n_digits_vec@),
            mag_ok(m_digits_vec@),
            op == DigitOp::Subtract ==> mag_val(m_digits_vec@) <= mag_val(n_digits_vec@),
            result_digits_vec@.len() == i,
            mag_ok(result_digits_vec@),
            carry <= 1,
            op == DigitOp::Add ==> mag_val(result_digits_vec@) + pow100(i as nat) * (
            carry as nat) == prefix_val(n_digits_vec@, i as int) + prefix_val(
                m_digits_vec@,
                i as int,
            ),
            op == DigitOp::Subtract ==> mag_val(result_digits_vec@) + prefix_val(
                m_digits_vec@,
                i as int,
            ) == prefix_val(n_digits_vec@, i as int) + pow100(i as nat) * (carry as nat),
        decreases len - i,
    {
        let n_byte = if i < n_digits_vec.len() {
            n_digits_vec[i]
        } else {
            0
        };
        let m_byte = if i < m_digits_vec.len() {
            m_digits_vec[i]
        } else {
            0
        };
        proof {
            if i < n_digits_vec@.len() {
                assert(byte_ok(n_digits_vec@[i as int]));
            }
            if i < m_digits_vec@.len() {
                assert(byte_ok(m_digits_vec@[i as int]));
            }
            assert(byte_val(0) == 0);
        }
        let (n_high, n_low) = match decimal_digits(n_byte) {
            Ok(p) => p,
            Err(_) => { (0, 0) },
        };
        let (m_high, m_low) = match decimal_digits(m_byte) {
            Ok(p) => p,
            Err(_) => { (0, 0) },
        };
        let (first_digit, carry_low) = match op {
            DigitOp::Add => decimal_add_with_carry(n_high, m_high, carry),
            DigitOp::Subtract => decimal_subtract_with_carry(n_high, m_high, carry),
        };
        let (second_digit, carry_out) = match op {
            DigitOp::Add => decimal_add_with_carry(n_low, m_low, carry_low),
            DigitOp::Subtract => decimal_subtract_with_carry(
                n_low,
                m_low,
                carry_low,
            ),
        };
        let out: u8 = first_digit * 16 + second_digit;
        let ghost r0 = result_digits_vec@;
        result_digits_vec.push(out);
        proof {
            lemma_fundamental_div_mod_converse(
                out as int,
                16,
                first_digit as int,
                second_digit as int,
            );
            assert(byte_ok(out));
            assert(byte_val(out) == first_digit + 10 * second_digit);
            lemma_prefix_val_step(n_digits_vec@, i as int);
            lemma_prefix_val_step(m_digits_vec@, i as int);
            lemma_mag_val_push(r0, out);
            let p = pow100(i as nat) as int;
            assert(pow100((i + 1) as nat) == 100 * pow100(i as nat));
            assert((100 * p) * (carry_out as int) == p * (100 * (carry_out as int)))
                by (nonlinear_arith);
            if op == DigitOp::Add {
                assert(byte_val(out) + 100 * (carry_out as int) == carry + byte_val(n_byte)
                    + byte_val(m_byte));
                lemma_mul_distrib3(
                    p,
                    carry as int,
                    byte_val(n_byte) as int,
                    byte_val(m_byte) as int,
                );
                assert(p * (byte_val(out) + 100 * (carry_out as int)) == p * byte_val(out) + p * (
                100 * (carry_out as int))) by (nonlinear_arith);
            } else {
                assert(carry + byte_val(out) + byte_val(m_byte) == byte_val(n_byte) + 100 * (
                carry_out as int) + 0);
                lemma_mul_distrib3(p, carry as int, byte_val(out) as int, byte_val(m_byte) as int);
                lemma_mul_distrib3(p, byte_val(n_byte) as int, 100 * (carry_out as int), 0);
            }
        }
        carry = carry_out;
        i = i + 1;
    }
    proof {
        lemma_prefix_val_all(n_digits_vec@, i as int);
        lemma_prefix_val_all(m_digits_vec@, i as int);
    }
    if carry > 0 {
        match op {
            DigitOp::Add => {
                let ghost r0 = result_digits_vec@;
                result_digits_vec.push(carry * 16);
                proof {
                    lemma_fundamental_div_mod_converse(16, 16, 1, 0);
                    assert(byte_ok(16u8));
                    assert(byte_val(16u8) == 1);
                    lemma_mag_val_push(r0, 16u8);
                }
            },
            DigitOp::Subtract => {
                proof {
                    lemma_mag_val_bound(result_digits_vec@);
                    assert(false);
                }
            },
        }
    }
    if result_digits_vec.len() == 0 {
        let ghost r0 = result_digits_vec@;
        result_digits_vec.push(0);
        proof {
            assert(byte_val(0) == 0);
            lemma_mag_val_push(r0, 0);
        }
    }
    let ghost target = result_digits_vec@;
    while result_digits_vec.len() > 1 && result_digits_vec[result_digits_vec.len() - 1] == 0
        invariant
            result_digits_vec@.len() >= 1,
            mag_ok(result_digits_vec@),
            mag_val(result_digits_vec@) == mag_val(target),
        decreases result_digits_vec@.len(),
    {
        let ghost r0 = result_digits_vec@;
        let _ = result_digits_vec.pop();
        proof {
            lemma_mag_val_drop_zero(r0);
            assert(result_digits_vec@ =~= r0.drop_last());
        }
    }
    result_digits_vec
}

/// The decimal digits of a magnitude, least significant first: each byte
/// contributes its lower-order digit (high nybble) then its higher-order
/// digit (low nybble).
pub open spec fn mag_digits(s: Seq<u8>) -> Seq<u8> {
    Seq::new(
        2 * s.len(),
        |i: int|
            if i % 2 == 0 {
                (s[i / 2] / 16) as u8
            } else {
                (s[i / 2] % 16) as u8
            },
    )
}

/// The digit list a magnitude exposes: its digits with the one padding zero
/// of an odd digit count stripped.
pub open spec fn spec_digits(s: Seq<u8>) -> Seq<u8> {
    let ds = mag_digits(s);
    if ds.len() > 0 && ds.last() == 0 {
        ds.drop_last()
    } else {
        ds
    }
}

/// Re-encodes a digit list into packed bytes, padding an odd count with a
/// zero nybble.
pub open spec fn pack_digits(ds: Seq<u8>) -> Seq<u8> {
    Seq::new(
        ((ds.len() + 1) / 2) as nat,
        |i: int|
            (ds[2 * i] * 16 + if 2 * i + 1 < ds.len() {
                ds[2 * i + 1] as int
            } else {
                0
            }) as u8,
    )
}

/// Digit round-trip: decoding a canonical magnitude into digits and packing
/// the digits again yields the identical byte sequence.
#[verifier::rlimit(60)]
pub proof fn lemma_digits_round_trip(s: Seq<u8>)
    requires
        mag_ok(s),
        canonical(s),
    ensures
        pack_digits(spec_digits(s)) == s,
{
    let full = mag_digits(s);
    let ds = spec_digits(s);
    let packed = pack_digits(ds);
    let len = s.len();
    assert forall|i: int| 0 <= i < len implies full[2 * i] == (s[i] / 16) as u8 && (2 * i + 1 < 2
        * len ==> full[2 * i + 1] == (s[i] % 16) as u8) by {
        lemma_fundamental_div_mod_converse(2 * i, 2, i, 0);
        lemma_fundamental_div_mod_converse(2 * i + 1, 2, i, 1);
    }
    assert forall|i: int| 0 <= i < len implies #[trigger] byte_ok(s[i]) && s[i] == (s[i] / 16) * 16
        + (s[i] % 16) by {
        assert(s[i] == (s[i] / 16) * 16 + (s[i] % 16)) by (nonlinear_arith);
    }
    if full.last() == 0 {
        assert(full.last() == (s[len - 1] % 16) as u8) by {
            lemma_fundamental_div_mod_converse(2 * (len - 1) + 1, 2, len as int - 1, 1);
        }
        assert(ds.len() == 2 * len - 1);
        assert(packed.len() == len) by {
            lemma_fundamental_div_mod_converse(2 * (len as int), 2, len as int, 0);
        }
        assert forall|i: int| 0 <= i < len implies packed[i] == s[i] by {
            if i < len - 1 {
                assert(ds[2 * i] == full[2 * i] && ds[2 * i + 1] == full[2 * i + 1]);
            } else {
                assert(2 * i + 1 == ds.len() as int);
                assert(ds[2 * i] == full[2 * i]);
                assert(s[i] % 16 == 0);
            }
        }
        assert(packed =~= s);
    } else {
        assert(ds == full);
        assert(ds.len() == 2 * len);
        assert(packed.len() == len) by {
            lemma_fundamental_div_mod_converse(2 * (len as int) + 1, 2, len as int, 1);
        }
        assert forall|i: int| 0 <= i < len implies packed[i] == s[i] by {
            assert(ds[2 * i] == full[2 * i] && ds[2 * i + 1] == full[2 * i + 1]);
        }
        assert(packed =~= s);
    }
}

/// Builds the canonical magnitude of an unsigned 128-bit integer, two decimal
/// digits per byte, least significant pair first.
pub fn digits_vec_from_int(n: u128) -> (r: Vec<u8>)
    ensures
        mag_ok(r@),
        canonical(r@),
        mag_val(r@) == n,
{
    let mut digits_vec: Vec<u8> = Vec::new();
    if n == 0 {
        let ghost r0 = digits_vec@;
        digits_vec.push(0);
        proof {
            assert(byte_val(0) == 0);
            lemma_mag_val_push(r0, 0);
        }
        return digits_vec;
    }
    let mut rem: u128 = n;
    proof {
        lemma_mag_val_empty(digits_vec@);
        assert(digits_vec@.len() == 0);
        assert(pow100(0) == 1);
        assert(rem * pow100(0) == rem) by (nonlinear_arith)
            requires
                pow100(0) == 1,
        ;
    }
    while rem > 0
        invariant
            mag_ok(digits_vec@),
            mag_val(digits_vec@) + rem * pow100(digits_vec@.len()) == n,
            rem == 0 ==> digits_vec@.len() >= 1 && digits_vec@.last() != 0,
        decreases rem,
    {
        let pair = (rem % 100) as u8;
        let d: u8 = (pair % 10) * 16 + pair / 10;
        let ghost r0 = digits_vec@;
        let ghost rem0 = rem;
        digits_vec.push(d);
        rem = rem / 100;
        proof {
            lemma_fundamental_div_mod_converse(d as int, 16, (pair % 10) as int, (pair / 10) as int);
            lemma_fundamental_div_mod(pair as int, 10);
            assert(byte_ok(d));
            assert(byte_val(d) == pair);
            lemma_mag_val_push(r0, d);
            lemma_fundamental_div_mod(rem0 as int, 100);
            let p = pow100(r0.len()) as int;
            assert(pow100(digits_vec@.len()) == 100 * pow100(r0.len()));
            assert(p * (pair as int) + (rem as int) * (100 * p) == (rem0 as int) * p)
                by (nonlinear_arith)
                requires
                    rem0 == 100 * (rem as int) + pair,
            ;
            if rem == 0 {
                assert(rem0 == pair);
                lemma_byte_val_zero(d);
                assert(digits_vec@.last() == d);
            }
        }
    }
    digits_vec
}

} // verus!
