//! End-to-end tests of the modular multiplication core on concrete values.

use ct_modmul::ct::ct_lt;
use ct_modmul::modmul::{
    modmul_u256, modmul_u256_denormalized, mul_montgomery_form, square_montgomery_form,
};
use ct_modmul::reduce::montgomery_reduction;
use ct_modmul::wide::{mul_wide, mul_wide_u128, square_wide};

/// Reference schoolbook multiplication, independent of the library.
fn ref_mul(a: &[u32], b: &[u32]) -> Vec<u32> {
    let mut r = vec![0u64; a.len() + b.len()];
    for i in 0..a.len() {
        for j in 0..b.len() {
            let t = a[i] as u64 * b[j] as u64;
            r[i + j] += t & 0xFFFF_FFFF;
            r[i + j + 1] += t >> 32;
        }
    }
    let mut out = vec![0u32; a.len() + b.len()];
    let mut carry: u64 = 0;
    for k in 0..r.len() {
        let t = r[k] + carry;
        out[k] = (t & 0xFFFF_FFFF) as u32;
        carry = t >> 32;
    }
    assert_eq!(carry, 0);
    out
}

/// The 256-bit prime 2^256 - 189, little-endian words.
fn m256() -> Vec<u32> {
    let mut m = vec![0xFFFF_FFFFu32; 8];
    m[0] = 0xFFFF_FF43;
    m
}

fn word_vec(x: u64) -> Vec<u32> {
    let mut v = vec![0u32; 8];
    v[0] = (x & 0xFFFF_FFFF) as u32;
    v[1] = (x >> 32) as u32;
    v
}

#[test]
fn modmul_small_operands() {
    // 2 * 3 mod (2^256 - 189) == 6
    let m = m256();
    let a = word_vec(2);
    let b = word_vec(3);
    let r = modmul_u256(&a, &b, &m);
    assert_eq!(r, word_vec(6));
}

#[test]
fn modmul_max_operands() {
    // (m - 1)^2 mod m == 1
    let m = m256();
    let mut a = m256();
    a[0] = 0xFFFF_FF42;
    let r = modmul_u256(&a, &a, &m);
    assert_eq!(r, word_vec(1));
}

#[test]
fn modmul_zero_operand() {
    let m = m256();
    let a = word_vec(0);
    let mut b = vec![0u32; 8];
    b[3] = 0xDEAD_BEEF;
    b[7] = 0x0123_4567;
    let r = modmul_u256(&a, &b, &m);
    assert_eq!(r, word_vec(0));
}

#[test]
fn modmul_exact_product_below_modulus() {
    // 2^96 * 2^96 == 2^192, which is below 2^256 - 189
    let m = m256();
    let mut a = vec![0u32; 8];
    a[3] = 1;
    let r = modmul_u256(&a, &a, &m);
    let mut expected = vec![0u32; 8];
    expected[6] = 1;
    assert_eq!(r, expected);
}

#[test]
fn modmul_denormalized_matches_validated() {
    let m = m256();
    let mut a = vec![0u32; 8];
    let mut b = vec![0u32; 8];
    for i in 0..8 {
        a[i] = 0x1111_1111u32.wrapping_mul(i as u32 + 1);
        b[i] = 0x0F0F_0F0Fu32 ^ (i as u32);
    }
    let r1 = modmul_u256_denormalized(&a, &b, &m);
    let r2 = modmul_u256(&a, &b, &m);
    assert_eq!(r1, r2);
    assert!(ct_lt(&r1, &m));
}

#[test]
fn wide_product_matches_reference() {
    let a = vec![0xFFFF_FFFFu32, 0x1234_5678, 0x0000_0001];
    let b = vec![0x8000_0000u32, 0xFFFF_FFFF, 0xCAFE_BABE];
    assert_eq!(mul_wide(&a, &b), ref_mul(&a, &b));
}

#[test]
fn wide_product_extremes() {
    let a = vec![0xFFFF_FFFFu32; 4];
    let b = vec![0xFFFF_FFFFu32; 4];
    assert_eq!(mul_wide_u128(&a, &b), ref_mul(&a, &b));
    let z = vec![0u32; 4];
    assert_eq!(mul_wide_u128(&a, &z), vec![0u32; 8]);
}

#[test]
fn wide_product_small_values() {
    // 3 * 5 == 15 at one-word width
    let a = vec![3u32];
    let b = vec![5u32];
    assert_eq!(mul_wide(&a, &b), vec![15u32, 0]);
}

#[test]
fn square_wide_matches_mul_wide() {
    let a = vec![0xFEDC_BA98u32, 0x7654_3210, 0xFFFF_FFFF, 2];
    assert_eq!(square_wide(&a), mul_wide(&a, &a));
}

#[test]
fn montgomery_reduction_one_word() {
    // modulus 2^32 - 1: the radix is congruent to 1, so the reduction of a
    // two-word product is just its remainder
    let m = vec![0xFFFF_FFFFu32];
    let inv: u32 = 1; // 0xFFFFFFFF * 1 + 1 == 2^32
    let product = vec![0x8765_4321u32, 0x1234_5678];
    let t = 0x8765_4321u64 + (0x1234_5678u64 << 32);
    let expected = (t % 0xFFFF_FFFFu64) as u32;
    let r = montgomery_reduction(&product, &m, inv);
    assert_eq!(r, vec![expected]);
}

#[test]
fn montgomery_multiply_two_words() {
    // modulus 2^64 - 1: the radix power 2^64 is congruent to 1, so the
    // Montgomery product equals the plain modular product
    let m = vec![0xFFFF_FFFFu32, 0xFFFF_FFFF];
    let inv: u32 = 1;
    let a = vec![0x1357_9BDFu32, 0x0246_8ACE];
    let b = vec![0xFEDC_BA98u32, 0x8765_4321];
    let av = 0x1357_9BDFu128 + ((0x0246_8ACEu128) << 32);
    let bv = 0xFEDC_BA98u128 + ((0x8765_4321u128) << 32);
    let expected = (av * bv) % (u64::MAX as u128);
    let r = mul_montgomery_form(&a, &b, &m, inv);
    let rv = r[0] as u128 + ((r[1] as u128) << 32);
    assert_eq!(rv, expected);
}

#[test]
fn square_matches_multiply() {
    let m = m256();
    // negated inverse of the modulus's low word at the radix
    let m0 = m[0];
    let mut inv: u32 = 1;
    for _ in 0..5 {
        inv = inv.wrapping_mul(2u32.wrapping_sub(m0.wrapping_mul(inv)));
    }
    let neg_inv = inv.wrapping_neg();
    assert_eq!(m0.wrapping_mul(neg_inv).wrapping_add(1), 0);
    let mut a = vec![0u32; 8];
    for i in 0..8 {
        a[i] = 0x9E37_79B9u32.wrapping_mul(i as u32 + 1);
    }
    let sq = square_montgomery_form(&a, &m, neg_inv);
    let mu = mul_montgomery_form(&a, &a, &m, neg_inv);
    assert_eq!(sq, mu);
    assert!(ct_lt(&sq, &m));
}

#[test]
fn validator_orders_values() {
    let lo = vec![5u32, 0, 0];
    let hi = vec![4u32, 0, 1];
    assert!(ct_lt(&lo, &hi));
    assert!(!ct_lt(&hi, &lo));
    assert!(!ct_lt(&hi, &hi));
    // differs only in the lowest word
    let a = vec![7u32, 9, 9];
    let b = vec![8u32, 9, 9];
    assert!(ct_lt(&a, &b));
    assert!(!ct_lt(&b, &a));
}
