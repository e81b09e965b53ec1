use bch::analysis::{distance_histogram, generate_codes, syndrome_table};
use bch::bits::{binary_digits, gen_mask, hamming_dist};
use bch::code::{bch_decode, bch_encode};
use bch::gf2::gf2_mod;

const GEN: u16 = 0b10011;
const GEN_LEN: u8 = 5;
const CODE_LEN: u8 = 15;

#[test]
fn mask_values() {
    assert_eq!(gen_mask(0), 0);
    assert_eq!(gen_mask(1), 1);
    assert_eq!(gen_mask(5), 0b11111);
    assert_eq!(gen_mask(16), 0xFFFF);
}

#[test]
fn remainder_by_hand() {
    // 10000 / 10011 over GF(2): one subtraction, remainder 00011.
    assert_eq!(gf2_mod(0b10000, GEN, GEN_LEN), 0b0011);
    // 1100101 / 1011 over GF(2), worked by hand:
    // 1100101 ^ 1011000 = 0111101
    // 0111101 ^ 0101100 = 0010001
    // 0010001 ^ 0010110 = 0000111
    assert_eq!(gf2_mod(0b1100101, 0b1011, 4), 0b111);
    // A dividend already below the divisor's leading bit is its own remainder.
    assert_eq!(gf2_mod(0b1010, GEN, GEN_LEN), 0b1010);
    // Dividing the generator by itself leaves nothing.
    assert_eq!(gf2_mod(GEN, GEN, GEN_LEN), 0);
}

#[test]
fn remainder_fits_below_divisor() {
    for dividend in 0..=0xFFFFu32 {
        let r = gf2_mod(dividend as u16, GEN, GEN_LEN);
        assert!(r < 16, "remainder {} of dividend {} has bits at or above position 4", r, dividend);
    }
}

#[test]
fn encode_zero_word() {
    assert_eq!(bch_encode(0, GEN, GEN_LEN), 0);
    assert_eq!(bch_decode(0, GEN, GEN_LEN), 0);
}

#[test]
fn encode_one_word() {
    let code = bch_encode(1, GEN, GEN_LEN);
    assert_eq!(code & 0b1111, gf2_mod(1 << 4, GEN, GEN_LEN));
    assert_eq!(code, 0b10011);
}

#[test]
fn round_trip_all_words() {
    for w in 0..(1u16 << 11) {
        let code = bch_encode(w, GEN, GEN_LEN);
        assert_eq!(bch_decode(code, GEN, GEN_LEN), 0);
    }
}

#[test]
fn systematic_all_words() {
    for w in 0..(1u16 << 11) {
        let code = bch_encode(w, GEN, GEN_LEN);
        assert_eq!(code >> 4, w);
    }
}

#[test]
fn encode_injective() {
    let mut seen = std::collections::HashSet::new();
    for w in 0..(1u16 << 11) {
        assert!(seen.insert(bch_encode(w, GEN, GEN_LEN)));
    }
}

#[test]
fn hamming_basics() {
    assert_eq!(hamming_dist(0b101, 0b010), 3);
    assert_eq!(hamming_dist(0xFFFF, 0), 16);
    assert_eq!(hamming_dist(0b1100, 0b1010), 2);
    for x in [0u16, 1, 0x1234, 0xFFFF] {
        assert_eq!(hamming_dist(x, x), 0);
    }
    for (x, y) in [(3u16, 5u16), (0, 0xFFFF), (0x0F0F, 0xF0F0)] {
        assert_eq!(hamming_dist(x, y), hamming_dist(y, x));
    }
}

#[test]
fn generated_table_shape() {
    let codes = generate_codes(GEN, GEN_LEN, CODE_LEN);
    assert_eq!(codes.len(), 1 << 11);
    assert_eq!(codes[0], 0);
    assert_eq!(codes[1], 0b10011);
    for (w, &code) in codes.iter().enumerate() {
        assert_eq!(code, bch_encode(w as u16, GEN, GEN_LEN));
    }
}

#[test]
fn minimum_distance_is_three() {
    let codes = generate_codes(GEN, GEN_LEN, CODE_LEN);
    let hist = distance_histogram(&codes);
    assert_eq!(hist.len(), 17);
    assert_eq!(hist[0], 0);
    assert_eq!(hist[1], 0);
    assert_eq!(hist[2], 0);
    assert!(hist[3] > 0);
}

#[test]
fn histogram_counts_all_pairs() {
    let codes = generate_codes(GEN, GEN_LEN, CODE_LEN);
    let hist = distance_histogram(&codes);
    let total: u64 = hist.iter().sum();
    // C(2^11, 2) unordered pairs of distinct codewords.
    assert_eq!(total, 2096128);
}

#[test]
fn syndrome_table_single_errors() {
    let table = syndrome_table(GEN, GEN_LEN, CODE_LEN, 1);
    // The zero vector plus one vector per bit position.
    assert_eq!(table.len(), 16);
    assert_eq!(table[0], (0, 0));
    let mut syndromes = std::collections::HashSet::new();
    for i in 0..15 {
        let (pattern, syndrome) = table[i + 1];
        assert_eq!(pattern, 1 << i);
        assert_eq!(syndrome, bch_decode(pattern, GEN, GEN_LEN));
        assert_ne!(syndrome, 0);
        // Distinct syndromes: each single-bit error is correctable.
        assert!(syndromes.insert(syndrome));
    }
}

#[test]
fn syndrome_table_zero_errors() {
    let table = syndrome_table(GEN, GEN_LEN, CODE_LEN, 0);
    assert_eq!(table.len(), 1);
    assert_eq!(table[0], (0, 0));
}

#[test]
fn histogram_of_few_codewords() {
    let hist = distance_histogram(&Vec::new());
    assert_eq!(hist.len(), 17);
    assert!(hist.iter().all(|&c| c == 0));
    let hist = distance_histogram(&vec![0b1010]);
    assert!(hist.iter().all(|&c| c == 0));
    let hist = distance_histogram(&vec![0b1010, 0b0110, 0b1010]);
    assert_eq!(hist[0], 1); // the two equal words
    assert_eq!(hist[2], 2); // each equal word against the third
    assert_eq!(hist.iter().sum::<u64>(), 3);
}

#[test]
fn smallest_code() {
    // One information bit, one check bit: repetition over two bits.
    let codes = generate_codes(0b11, 2, 2);
    assert_eq!(codes, vec![0b00, 0b11]);
    let hist = distance_histogram(&codes);
    assert_eq!(hist[2], 1);
    assert_eq!(hist.iter().sum::<u64>(), 1);
}

#[test]
fn hamming_7_4_code() {
    // Generator x^3 + x + 1 gives the Hamming(7,4) code: 16 codewords at
    // minimum distance 3.
    let codes = generate_codes(0b1011, 4, 7);
    assert_eq!(codes.len(), 16);
    assert_eq!(codes[1], 0b1011);
    let hist = distance_histogram(&codes);
    assert_eq!(hist[0], 0);
    assert_eq!(hist[1], 0);
    assert_eq!(hist[2], 0);
    assert!(hist[3] > 0);
    assert_eq!(hist.iter().sum::<u64>(), 120); // C(16, 2)
}

#[test]
fn binary_digit_strings() {
    assert_eq!(binary_digits(0b10011, 5), b"10011".to_vec());
    assert_eq!(binary_digits(0, 4), b"0000".to_vec());
    assert_eq!(binary_digits(0b10011, 15), b"000000000010011".to_vec());
    assert_eq!(binary_digits(0x8000, 16), b"1000000000000000".to_vec());
}
