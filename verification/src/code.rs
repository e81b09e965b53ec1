//! Systematic BCH encoding and syndrome extraction, built on the GF(2)
//! remainder engine.

use vstd::prelude::*;
use vstd::arithmetic::power2::*;
use vstd::arithmetic::mul::lemma_mul_inequality;
use crate::gf2::{divisor_wf, gf2_mod, gf2_mod_spec, lemma_gf2_mod_bound, lemma_gf2_mod_cancel};

verus! {

/// The information word shifted left past the check-bit field, with the GF(2)
/// remainder of the shifted word XORed into the low bits as parity.
pub open spec fn encode_spec(input: u16, gen: u16, gen_len: u8) -> u16
    recommends
        1 <= gen_len <= 16,
{
    let shifted = input << ((gen_len - 1) as u16);
    shifted ^ gf2_mod_spec(shifted, gen, gen_len)
}

/// `input` is small enough that shifting it past the `gen_len - 1` check bits
/// loses nothing of it.
pub open spec fn input_fits(input: u16, gen_len: u8) -> bool {
    (input as nat) < pow2((17 - gen_len) as nat)
}

proof fn lemma_shl_exact(input: u16, gen: u16, gen_len: u8)
    requires
        divisor_wf(gen, gen_len),
        input_fits(input, gen_len),
    ensures
        (input << ((gen_len - 1) as u16)) as nat == input as nat * pow2((gen_len - 1) as nat),
        (input << ((gen_len - 1) as u16)) >> ((gen_len - 1) as u16) == input,
{
    let digits = (gen_len - 1) as u16;
    lemma2_to64();
    lemma_pow2_adds((16 - digits) as nat, digits as nat);
    lemma_pow2_pos(digits as nat);
    lemma_pow2_pos((16 - digits) as nat);
    assert(input as nat * pow2(digits as nat) <= (pow2((16 - digits) as nat) - 1) * pow2(
        digits as nat,
    )) by {
        lemma_mul_inequality(
            input as int,
            pow2((16 - digits) as nat) as int - 1,
            pow2(digits as nat) as int,
        );
    }
    assert((pow2((16 - digits) as nat) - 1) * pow2(digits as nat) == pow2(16) - pow2(
        digits as nat,
    )) by (nonlinear_arith)
        requires
            pow2((16 - digits) as nat) * pow2(digits as nat) == pow2(16),
    ;
    vstd::bits::lemma_u16_shl_is_mul(input, digits);
    let shifted = input << digits;
    vstd::bits::lemma_u16_shr_is_div(shifted, digits);
    vstd::arithmetic::div_mod::lemma_div_multiples_vanish(
        input as int,
        pow2(digits as nat) as int,
    );
}

/// What encoding guarantees: the codeword's high bits reproduce the
/// information word unchanged, and its GF(2) remainder by the generator --
/// its syndrome -- is zero.
pub proof fn lemma_encode_props(input: u16, gen: u16, gen_len: u8)
    requires
        divisor_wf(gen, gen_len),
        input_fits(input, gen_len),
    ensures
        encode_spec(input, gen, gen_len) >> ((gen_len - 1) as u16) == input,
        gf2_mod_spec(encode_spec(input, gen, gen_len), gen, gen_len) == 0,
{
    let digits = (gen_len - 1) as u16;
    let shifted = input << digits;
    let parity = gf2_mod_spec(shifted, gen, gen_len);
    lemma_shl_exact(input, gen, gen_len);
    lemma_gf2_mod_cancel(shifted, gen, gen_len);
    lemma_gf2_mod_bound(shifted, gen, gen_len);
    if gen_len >= 2 {
        assert((shifted ^ parity) >> digits == shifted >> digits) by (bit_vector)
            requires
                parity >> digits == 0,
                digits < 16,
        ;
    } else {
        assert((shifted ^ parity) >> 0u16 == (shifted ^ parity)) by (bit_vector);
        assert(shifted >> 0u16 == shifted) by (bit_vector);
        assert(shifted ^ parity == shifted ^ 0u16) by (bit_vector)
            requires
                parity == 0u16,
        ;
        assert(shifted ^ 0u16 == shifted) by (bit_vector);
    }
}

/// Round trip: decoding a freshly encoded word finds a zero syndrome, for
/// every information word in range.
pub proof fn lemma_round_trip(w: u16, gen: u16, gen_len: u8)
    requires
        divisor_wf(gen, gen_len),
        input_fits(w, gen_len),
    ensures
        gf2_mod_spec(encode_spec(w, gen, gen_len), gen, gen_len) == 0,
{
    lemma_encode_props(w, gen, gen_len);
}

/// Encoding is injective: distinct information words give distinct codewords,
/// since each codeword carries its information word in its high bits.
pub proof fn lemma_encode_injective(w1: u16, w2: u16, gen: u16, gen_len: u8)
    requires
        divisor_wf(gen, gen_len),
        input_fits(w1, gen_len),
        input_fits(w2, gen_len),
        w1 != w2,
    ensures
        encode_spec(w1, gen, gen_len) != encode_spec(w2, gen, gen_len),
{
    lemma_encode_props(w1, gen, gen_len);
    lemma_encode_props(w2, gen, gen_len);
}

/// Encodes an information word into a systematic codeword: the word is
/// shifted left past the `gen_len - 1` check bits and the GF(2) remainder of
/// the shifted word by the generator is XORed in as parity.
pub fn bch_encode(input: u16, gen: u16, gen_len: u8) -> (r: u16)
    requires
        divisor_wf(gen, gen_len),
        input_fits(input, gen_len),
    ensures
        r == encode_spec(input, gen, gen_len),
        r >> ((gen_len - 1) as u16) == input,
        gf2_mod_spec(r, gen, gen_len) == 0,
{
    let digits: u16 = (gen_len - 1) as u16;
    let shifted = input << digits;
    let checksum = gf2_mod(shifted, gen, gen_len);
    proof {
        lemma_encode_props(input, gen, gen_len);
    }
    shifted ^ checksum
}

/// Extracts the syndrome of a received word: its GF(2) remainder by the
/// generator. A zero syndrome signals that no error was detected.
pub fn bch_decode(input: u16, gen: u16, gen_len: u8) -> (r: u16)
    requires
        divisor_wf(gen, gen_len),
    ensures
        r == gf2_mod_spec(input, gen, gen_len),
        r < pow2((gen_len - 1) as nat),
{
    gf2_mod(input, gen, gen_len)
}

} // verus!
