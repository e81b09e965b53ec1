//! Polynomial remainder over GF(2), the two-element field where addition is
//! XOR: binary long division of a 16-bit dividend by a fixed divisor
//! polynomial.

use vstd::prelude::*;
use vstd::arithmetic::power2::*;
use vstd::arithmetic::div_mod::lemma_fundamental_div_mod;

verus! {

/// `divisor_digits` is the exact bit length of `divisor`: the divisor
/// polynomial's leading 1 stands at position `divisor_digits - 1` and no
/// higher bit is set.
pub open spec fn divisor_wf(divisor: u16, divisor_digits: u8) -> bool {
    &&& 1 <= divisor_digits <= 16
    &&& divisor >> ((divisor_digits - 1) as u16) == 1
}

/// One step of binary long division at bit position `i`: when the dividend's
/// bit `i` is set, the divisor (aligned so that its leading 1 cancels bit `i`)
/// is XORed in; otherwise the dividend is unchanged.
pub open spec fn gf2_step(state: u16, divisor: u16, digits: u16, i: u16) -> u16
    recommends
        digits <= i < 16,
{
    if state & (1u16 << i) != 0 {
        state ^ (divisor << ((i - digits) as u16))
    } else {
        state
    }
}

/// Long division applied at positions `i`, `i - 1`, ..., `digits`, highest
/// first, where `digits` is the divisor's degree.
pub open spec fn gf2_mod_down(state: u16, divisor: u16, digits: u16, i: int) -> u16
    decreases i + 1,
{
    if i < digits || i > 15 {
        state
    } else {
        gf2_mod_down(gf2_step(state, divisor, digits, i as u16), divisor, digits, i - 1)
    }
}

/// The remainder of dividing the `dividend` polynomial by the `divisor`
/// polynomial over GF(2): long division scanned from bit 15 down to the
/// divisor's degree, `divisor_digits - 1`.
pub open spec fn gf2_mod_spec(dividend: u16, divisor: u16, divisor_digits: u8) -> u16
    recommends
        1 <= divisor_digits <= 16,
{
    gf2_mod_down(dividend, divisor, (divisor_digits - 1) as u16, 15)
}

proof fn lemma_step_clears(state: u16, divisor: u16, digits: u16, i: u16)
    by (bit_vector)
    requires
        digits <= i < 16,
        divisor >> digits == 1,
        i < 15 ==> state >> ((i + 1) as u16) == 0,
    ensures
        gf2_step(state, divisor, digits, i) >> i == 0,
        i == 0 ==> gf2_step(state, divisor, digits, i) == 0,
{
}

proof fn lemma_shr_zero_widen(x: u16, a: u16, b: u16)
    by (bit_vector)
    requires
        b <= a < 16,
        x >> b == 0,
    ensures
        x >> a == 0,
{
}

/// Bits of the running remainder strictly above position `i` are all zero.
spec fn zero_above(x: u16, i: int) -> bool {
    if i < 0 {
        x == 0
    } else if i >= 15 {
        true
    } else {
        x >> ((i + 1) as u16) == 0
    }
}

proof fn lemma_zero_above_mono(x: u16, i: int, j: int)
    requires
        i <= j,
        zero_above(x, i),
    ensures
        zero_above(x, j),
{
    if j < 15 && 0 <= i {
        lemma_shr_zero_widen(x, (j + 1) as u16, (i + 1) as u16);
    } else if j < 15 && i < 0 {
        let a = (j + 1) as u16;
        assert(0u16 >> a == 0) by (bit_vector);
    }
}

proof fn lemma_down_zero_above(state: u16, divisor: u16, digits: u16, i: int)
    requires
        digits <= 15,
        divisor >> digits == 1,
        i <= 15,
        zero_above(state, i),
    ensures
        zero_above(gf2_mod_down(state, divisor, digits, i), digits - 1),
    decreases i + 1,
{
    if i < digits {
        lemma_zero_above_mono(state, i, digits - 1);
    } else {
        let ii = i as u16;
        lemma_step_clears(state, divisor, digits, ii);
        let s2 = gf2_step(state, divisor, digits, ii);
        if i >= 1 {
            assert(zero_above(s2, i - 1));
        }
        lemma_down_zero_above(s2, divisor, digits, i - 1);
    }
}

/// The remainder fits below the divisor's leading bit: no bit at or above
/// position `divisor_digits - 1` is set.
pub proof fn lemma_gf2_mod_bound(dividend: u16, divisor: u16, divisor_digits: u8)
    requires
        divisor_wf(divisor, divisor_digits),
    ensures
        divisor_digits >= 2 ==> gf2_mod_spec(dividend, divisor, divisor_digits) >> ((
        divisor_digits - 1) as u16) == 0,
        divisor_digits == 1 ==> gf2_mod_spec(dividend, divisor, divisor_digits) == 0,
        gf2_mod_spec(dividend, divisor, divisor_digits) < pow2((divisor_digits - 1) as nat),
{
    let digits = (divisor_digits - 1) as u16;
    lemma_down_zero_above(dividend, divisor, digits, 15);
    let r = gf2_mod_spec(dividend, divisor, divisor_digits);
    if digits == 0 {
        lemma2_to64();
    } else {
        assert(r >> ((digits - 1) as u16) <= 1 ==> r >> digits == 0) by (bit_vector)
            requires
                1 <= digits <= 15,
        ;
        vstd::bits::lemma_u16_shr_is_div(r, digits);
        lemma_pow2_pos(digits as nat);
        lemma_fundamental_div_mod(r as int, pow2(digits as nat) as int);
        vstd::arithmetic::div_mod::lemma_mod_bound(r as int, pow2(digits as nat) as int);
    }
}

/// A value already below the divisor's leading bit is its own remainder.
pub proof fn lemma_gf2_mod_small(x: u16, divisor: u16, divisor_digits: u8)
    requires
        1 <= divisor_digits <= 16,
        x >> ((divisor_digits - 1) as u16) == 0,
    ensures
        gf2_mod_spec(x, divisor, divisor_digits) == x,
{
    lemma_down_fixed(x, divisor, (divisor_digits - 1) as u16, 15);
}

proof fn lemma_down_fixed(state: u16, divisor: u16, digits: u16, i: int)
    requires
        digits <= 15,
        state >> digits == 0,
        i <= 15,
    ensures
        gf2_mod_down(state, divisor, digits, i) == state,
    decreases i + 1,
{
    if i >= digits {
        let ii = i as u16;
        assert(state & (1u16 << ii) == 0) by (bit_vector)
            requires
                state >> digits == 0,
                digits <= ii < 16,
        ;
        lemma_down_fixed(state, divisor, digits, i - 1);
    }
}

/// GF(2) remainder is linear over XOR: the remainder of an XOR of two
/// dividends is the XOR of their remainders.
pub proof fn lemma_gf2_mod_linear(a: u16, b: u16, divisor: u16, divisor_digits: u8)
    requires
        1 <= divisor_digits <= 16,
    ensures
        gf2_mod_spec(a ^ b, divisor, divisor_digits) == gf2_mod_spec(a, divisor, divisor_digits)
            ^ gf2_mod_spec(b, divisor, divisor_digits),
{
    lemma_down_linear(a, b, divisor, (divisor_digits - 1) as u16, 15);
}

proof fn lemma_down_linear(a: u16, b: u16, divisor: u16, digits: u16, i: int)
    requires
        digits <= 15,
        i <= 15,
    ensures
        gf2_mod_down(a ^ b, divisor, digits, i) == gf2_mod_down(a, divisor, digits, i)
            ^ gf2_mod_down(b, divisor, digits, i),
    decreases i + 1,
{
    if i >= digits {
        let ii = i as u16;
        assert(gf2_step(a ^ b, divisor, digits, ii) == gf2_step(a, divisor, digits, ii) ^ gf2_step(
            b,
            divisor,
            digits,
            ii,
        )) by (bit_vector)
            requires
                digits <= ii < 16,
        ;
        lemma_down_linear(
            gf2_step(a, divisor, digits, ii),
            gf2_step(b, divisor, digits, ii),
            divisor,
            digits,
            i - 1,
        );
    }
}

/// XORing a dividend with its own remainder yields a multiple of the divisor:
/// the remainder of the combination is zero.
pub proof fn lemma_gf2_mod_cancel(x: u16, divisor: u16, divisor_digits: u8)
    requires
        divisor_wf(divisor, divisor_digits),
    ensures
        gf2_mod_spec(x ^ gf2_mod_spec(x, divisor, divisor_digits), divisor, divisor_digits) == 0,
{
    let r = gf2_mod_spec(x, divisor, divisor_digits);
    lemma_gf2_mod_bound(x, divisor, divisor_digits);
    if divisor_digits == 1 {
        assert(r >> 0u16 == r) by (bit_vector);
    }
    lemma_gf2_mod_small(r, divisor, divisor_digits);
    lemma_gf2_mod_linear(x, r, divisor, divisor_digits);
    assert(r ^ r == 0u16) by (bit_vector);
}

/// The product of the polynomials `q` and `d` over GF(2), restricted to the
/// low `n` bit positions of `q`: the XOR of `d` shifted by each set bit
/// position of `q`. Shifts past bit 15 truncate.
pub open spec fn gf2_mul_rec(q: u16, d: u16, n: int) -> u16
    decreases n,
{
    if n <= 0 {
        0
    } else {
        gf2_mul_rec(q, d, n - 1) ^ (if q & (1u16 << ((n - 1) as u16)) != 0 {
            d << ((n - 1) as u16)
        } else {
            0u16
        })
    }
}

/// The product of the polynomials `q` and `d` over GF(2).
pub open spec fn gf2_mul(q: u16, d: u16) -> u16 {
    gf2_mul_rec(q, d, 16)
}

proof fn lemma_gf2_mul_rec_zero(d: u16, n: int)
    ensures
        gf2_mul_rec(0u16, d, n) == 0,
    decreases n,
{
    if n > 0 {
        lemma_gf2_mul_rec_zero(d, n - 1);
        let m = (n - 1) as u16;
        assert(0u16 & (1u16 << m) == 0 && 0u16 ^ 0u16 == 0u16) by (bit_vector);
    }
}

proof fn lemma_xor_zero(a: u16)
    by (bit_vector)
    ensures
        a ^ 0u16 == a,
        0u16 ^ 0u16 == 0u16,
{
}

proof fn lemma_gf2_mul_set_bit(q: u16, d: u16, k: u16, n: int)
    requires
        k < 16,
        q >> k == 0,
        n <= 16,
    ensures
        gf2_mul_rec(q ^ (1u16 << k), d, n) == gf2_mul_rec(q, d, n) ^ (if (k as int) < n {
            d << k
        } else {
            0u16
        }),
    decreases n,
{
    if n <= 0 {
        lemma_xor_zero(0u16);
    } else {
        lemma_gf2_mul_set_bit(q, d, k, n - 1);
        let m = (n - 1) as u16;
        let lo = gf2_mul_rec(q ^ (1u16 << k), d, n - 1);
        let ro = gf2_mul_rec(q, d, n - 1);
        if m == k {
            assert(q & (1u16 << k) == 0 && (q ^ (1u16 << k)) & (1u16 << k) != 0) by (bit_vector)
                requires
                    q >> k == 0,
                    k < 16,
            ;
            lemma_xor_zero(ro);
            lemma_xor_zero(lo);
        } else if m < k {
            assert((q ^ (1u16 << k)) & (1u16 << m) == q & (1u16 << m)) by (bit_vector)
                requires
                    m < k < 16,
            ;
            lemma_xor_zero(lo);
            lemma_xor_zero(ro);
            lemma_xor_zero(gf2_mul_rec(q, d, n));
        } else {
            assert(q & (1u16 << m) == 0 && (q ^ (1u16 << k)) & (1u16 << m) == 0) by (bit_vector)
                requires
                    q >> k == 0,
                    k < m < 16,
            ;
            lemma_xor_zero(lo);
            lemma_xor_zero(ro);
        }
    }
}

proof fn lemma_down_multiple(state: u16, divisor: u16, digits: u16, i: int)
    requires
        digits <= 15,
        i <= 15,
    ensures
        exists|q: u16|
            #![trigger gf2_mul(q, divisor)]
            {
                &&& gf2_mul(q, divisor) == state ^ gf2_mod_down(state, divisor, digits, i)
                &&& (i < digits ==> q == 0)
                &&& (digits <= i && i - digits <= 14 ==> q >> ((i - digits + 1) as u16) == 0)
            },
    decreases i + 1,
{
    if i < digits {
        lemma_gf2_mul_rec_zero(divisor, 16);
        assert(state ^ state == 0u16) by (bit_vector);
        assert(gf2_mul(0u16, divisor) == state ^ gf2_mod_down(state, divisor, digits, i));
    } else {
        let ii = i as u16;
        let k = (i - digits) as u16;
        let s2 = gf2_step(state, divisor, digits, ii);
        lemma_down_multiple(s2, divisor, digits, i - 1);
        let rest = gf2_mod_down(s2, divisor, digits, i - 1);
        let q0 = choose|q: u16|
            #![trigger gf2_mul(q, divisor)]
            {
                &&& gf2_mul(q, divisor) == s2 ^ rest
                &&& (i - 1 < digits ==> q == 0)
                &&& (digits <= i - 1 && i - 1 - digits <= 14 ==> q >> ((i - 1 - digits + 1) as u16)
                    == 0)
            };
        assert(q0 >> k == 0) by {
            if i - 1 < digits {
                assert(0u16 >> k == 0) by (bit_vector);
            }
        }
        if state & (1u16 << ii) == 0 {
            assert(s2 == state);
            if i - digits <= 14 {
                lemma_shr_zero_widen(q0, (i - digits + 1) as u16, k);
            }
            assert(gf2_mul(q0, divisor) == state ^ gf2_mod_down(state, divisor, digits, i));
        } else {
            let shifted = divisor << k;
            assert(s2 == state ^ shifted);
            lemma_gf2_mul_set_bit(q0, divisor, k, 16);
            let q1 = q0 ^ (1u16 << k);
            assert(gf2_mul(q1, divisor) == (s2 ^ rest) ^ shifted);
            assert(((state ^ shifted) ^ rest) ^ shifted == state ^ rest) by (bit_vector);
            assert(gf2_mul(q1, divisor) == state ^ gf2_mod_down(state, divisor, digits, i));
            if i - digits <= 14 {
                assert(q1 >> ((k + 1) as u16) == 0) by (bit_vector)
                    requires
                        q0 >> k == 0,
                        k < 15,
                        q1 == q0 ^ (1u16 << k),
                ;
            }
        }
    }
}

/// The defining property of polynomial division: every dividend differs from
/// its remainder by a GF(2) multiple of the divisor.
pub proof fn lemma_gf2_mod_is_remainder(dividend: u16, divisor: u16, divisor_digits: u8)
    requires
        1 <= divisor_digits <= 16,
    ensures
        exists|q: u16|
            #[trigger] gf2_mul(q, divisor) == dividend ^ gf2_mod_spec(
                dividend,
                divisor,
                divisor_digits,
            ),
{
    lemma_down_multiple(dividend, divisor, (divisor_digits - 1) as u16, 15);
}

/// Remainder of dividing the `dividend` polynomial by the `divisor`
/// polynomial over GF(2), where `divisor_digits` is the divisor's exact bit
/// length. Binary long division, subtracting (XORing) the aligned divisor at
/// every set bit from position 15 down to the divisor's degree.
pub fn gf2_mod(dividend: u16, divisor: u16, divisor_digits: u8) -> (r: u16)
    requires
        divisor_wf(divisor, divisor_digits),
    ensures
        r == gf2_mod_spec(dividend, divisor, divisor_digits),
        r < pow2((divisor_digits - 1) as nat),
{
    let digits: u16 = (divisor_digits - 1) as u16;
    let mut state = dividend;
    let mut i: u16 = 16;
    while i > digits
        invariant
            digits <= 15,
            digits <= i <= 16,
            gf2_mod_down(dividend, divisor, digits, 15) == gf2_mod_down(
                state,
                divisor,
                digits,
                i - 1,
            ),
        decreases i + 1,
    {
        i = i - 1;
        if state & (1u16 << i) != 0 {
            state = state ^ (divisor << (i - digits));
        }
    }
    proof {
        lemma_gf2_mod_bound(dividend, divisor, divisor_digits);
    }
    state
}

} // verus!
