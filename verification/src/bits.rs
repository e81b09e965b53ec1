//! Bit-level utilities: all-ones masks, Hamming distance, and fixed-width
//! binary digit strings.

use vstd::prelude::*;
use vstd::arithmetic::power2::*;

verus! {

/// True when bit `i` of `x` is set.
pub open spec fn bit_at(x: u16, i: u16) -> bool {
    x & (1u16 << i) != 0
}

/// Number of positions among the low `n` bits where `a` and `b` differ.
pub open spec fn hamming_rec(a: u16, b: u16, n: int) -> nat
    decreases n,
{
    if n <= 0 {
        0
    } else {
        hamming_rec(a, b, n - 1) + if bit_at(a, (n - 1) as u16) != bit_at(b, (n - 1) as u16) {
            1nat
        } else {
            0nat
        }
    }
}

/// Hamming distance between two 16-bit values: the number of bit positions
/// where they differ.
pub open spec fn hamming_of(a: u16, b: u16) -> nat {
    hamming_rec(a, b, 16)
}

/// The Hamming distance over `n` bit positions is at most `n`.
pub proof fn lemma_hamming_rec_le(a: u16, b: u16, n: int)
    requires
        0 <= n,
    ensures
        hamming_rec(a, b, n) <= n,
    decreases n,
{
    if n > 0 {
        lemma_hamming_rec_le(a, b, n - 1);
    }
}

/// A value is at Hamming distance zero from itself.
pub proof fn lemma_hamming_self(x: u16)
    ensures
        hamming_of(x, x) == 0,
{
    lemma_hamming_rec_self(x, 16);
}

proof fn lemma_hamming_rec_self(x: u16, n: int)
    ensures
        hamming_rec(x, x, n) == 0,
    decreases n,
{
    if n > 0 {
        lemma_hamming_rec_self(x, n - 1);
    }
}

/// Hamming distance is symmetric in its two arguments.
pub proof fn lemma_hamming_symmetric(a: u16, b: u16)
    ensures
        hamming_of(a, b) == hamming_of(b, a),
{
    lemma_hamming_rec_symmetric(a, b, 16);
}

proof fn lemma_hamming_rec_symmetric(a: u16, b: u16, n: int)
    ensures
        hamming_rec(a, b, n) == hamming_rec(b, a, n),
    decreases n,
{
    if n > 0 {
        lemma_hamming_rec_symmetric(a, b, n - 1);
    }
}

/// The value whose low `len` bits are all ones and whose higher bits are zero.
pub fn gen_mask(len: u8) -> (r: u16)
    requires
        len <= 16,
    ensures
        r as nat == pow2(len as nat) - 1,
{
    proof {
        lemma2_to64();
    }
    let mut ret: u16 = 0;
    let mut k: u8 = 0;
    while k < len
        invariant
            k <= len <= 16,
            ret as nat == pow2(k as nat) - 1,
        decreases len - k,
    {
        proof {
            lemma2_to64();
            lemma_pow2_pos(k as nat);
            lemma_pow2_increases(k as nat, 15);
            assert(ret * pow2(1) <= u16::MAX);
            vstd::bits::lemma_u16_shl_is_mul(ret, 1);
            lemma_pow2_unfold((k + 1) as nat);
        }
        let shifted = ret << 1u16;
        ret = shifted + 1;
        k = k + 1;
    }
    ret
}

/// `pow2` is monotone: a power of two never shrinks as the exponent grows.
pub proof fn lemma_pow2_increases(e1: nat, e2: nat)
    ensures
        e1 <= e2 ==> pow2(e1) <= pow2(e2),
{
    if e1 < e2 {
        lemma_pow2_strictly_increases(e1, e2);
    }
}

/// Counts the bit positions where the two inputs differ, over all 16
/// positions of the word.
pub fn hamming_dist(in1: u16, in2: u16) -> (r: u8)
    ensures
        r as nat == hamming_of(in1, in2),
        r <= 16,
{
    let mut ret: u8 = 0;
    let mut i: u16 = 0;
    while i < 16
        invariant
            i <= 16,
            ret as nat == hamming_rec(in1, in2, i as int),
            ret <= i,
        decreases 16 - i,
    {
        proof {
            lemma_single_bit_cmp(in1, in2, i);
        }
        let mask = 1u16 << i;
        if (in1 & mask) != (in2 & mask) {
            ret = ret + 1;
        }
        i = i + 1;
    }
    proof {
        lemma_hamming_rec_le(in1, in2, 16);
    }
    ret
}

proof fn lemma_single_bit_cmp(x: u16, y: u16, i: u16)
    by (bit_vector)
    requires
        i < 16,
    ensures
        ((x & (1u16 << i)) != (y & (1u16 << i))) == ((x & (1u16 << i) != 0) != (y & (1u16 << i)
            != 0)),
{
}

/// The most-significant-first binary digits of `value`, as the bytes 48 and
/// 49 (the ASCII digits `0` and `1`), zero-padded to exactly `width` digits.
pub fn binary_digits(value: u16, width: u8) -> (digits: Vec<u8>)
    requires
        width <= 16,
    ensures
        digits@.len() == width as int,
        forall|k: int|
            0 <= k < width as int ==> digits@[k] == (if bit_at(value, (width - 1 - k) as u16) {
                49u8
            } else {
                48u8
            }),
{
    let mut digits: Vec<u8> = Vec::new();
    let mut k: u8 = 0;
    while k < width
        invariant
            k <= width <= 16,
            digits@.len() == k as int,
            forall|m: int|
                0 <= m < k as int ==> digits@[m] == (if bit_at(value, (width - 1 - m) as u16) {
                    49u8
                } else {
                    48u8
                }),
        decreases width - k,
    {
        let pos: u16 = (width - 1 - k) as u16;
        if value & (1u16 << pos) != 0 {
            digits.push(49u8);
        } else {
            digits.push(48u8);
        }
        k = k + 1;
    }
    digits
}

} // verus!
