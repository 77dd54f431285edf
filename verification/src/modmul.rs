//! Modular multiplication entry points: the Montgomery-form multiply and
//! square, the direct (denormalized) modular product of two reduced
//! operands, and the validated wrapper around it. A uniqueness law pins the
//! squaring path to the multiplication path word for word.

use vstd::prelude::*;

verus! {

use crate::words::{
    val, wt, RADIX, lemma_val_zeros, lemma_val_bound, lemma_val_injective,
    lemma_radix_is_pow2_32,
};
use crate::ct::{ct_lt, select_words};
use crate::addsub::add_mod;
use crate::wide::mul_wide;
use crate::reduce::montgomery_reduction;
use vstd::arithmetic::power2::{pow2, lemma_pow2_unfold, lemma_pow2_pos, lemma2_to64};
use vstd::arithmetic::mul::lemma_mul_basics;
use vstd::arithmetic::div_mod::{
    lemma_fundamental_div_mod, lemma_mod_bound, lemma_small_mod, lemma_basic_div,
    lemma_div_denominator, lemma_div_multiples_vanish, lemma_div_basics_2,
    lemma_mod_multiples_basic, lemma_mul_mod_noop_general, lemma_mul_mod_noop_right,
    lemma_add_mod_noop, lemma_sub_mod_noop, lemma_mod_add_multiples_vanish,
};

/// Montgomery-form product of two reduced operands: the result `r` is the
/// unique value below the modulus with `r * wt(n)` congruent to `a * b`.
pub fn mul_montgomery_form(a: &Vec<u32>, b: &Vec<u32>, modulus: &Vec<u32>, mod_neg_inv: u32) -> (r:
    Vec<u32>)
    requires
        modulus@.len() >= 1,
        2 * modulus@.len() < usize::MAX,
        a@.len() == modulus@.len(),
        b@.len() == modulus@.len(),
        val(a@) < val(modulus@),
        val(b@) < val(modulus@),
        val(modulus@) % 2 == 1,
        (mod_neg_inv * modulus@[0] + 1) % (RADIX as int) == 0,
    ensures
        r@.len() == modulus@.len(),
        val(r@) < val(modulus@),
        (val(r@) as int * wt(modulus@.len()) as int) % (val(modulus@) as int) == (val(
            a@,
        ) as int * val(b@) as int) % (val(modulus@) as int),
{
    let product = mul_wide(a, b);
    proof {
        lemma_val_bound(modulus@);
        assert(val(product@) < val(modulus@) * wt(modulus@.len())) by (nonlinear_arith)
            requires
                val(product@) == val(a@) * val(b@),
                val(a@) < val(modulus@),
                val(b@) < val(modulus@),
                val(modulus@) < wt(modulus@.len()),
        {}
    }
    montgomery_reduction(&product, modulus, mod_neg_inv)
}

/// Montgomery-form square: delegates to the general multiplication with both
/// operands the same value, so its output is word for word the output of
/// `mul_montgomery_form` on `(a, a)`.
pub fn square_montgomery_form(a: &Vec<u32>, modulus: &Vec<u32>, mod_neg_inv: u32) -> (r: Vec<u32>)
    requires
        modulus@.len() >= 1,
        2 * modulus@.len() < usize::MAX,
        a@.len() == modulus@.len(),
        val(a@) < val(modulus@),
        val(modulus@) % 2 == 1,
        (mod_neg_inv * modulus@[0] + 1) % (RADIX as int) == 0,
    ensures
        r@.len() == modulus@.len(),
        val(r@) < val(modulus@),
        (val(r@) as int * wt(modulus@.len()) as int) % (val(modulus@) as int) == (val(
            a@,
        ) as int * val(a@) as int) % (val(modulus@) as int),
{
    mul_montgomery_form(a, a, modulus, mod_neg_inv)
}

/// Direct modular product of two reduced operands against an odd modulus,
/// processed bit by bit from the top: double, then add the second operand
/// when the bit is set, each step reduced once, each selection made in
/// constant time.
fn mod_mul(a: &Vec<u32>, b: &Vec<u32>, m: &Vec<u32>) -> (r: Vec<u32>)
    requires
        m@.len() >= 1,
        a@.len() == m@.len(),
        b@.len() == m@.len(),
        val(m@) % 2 == 1,
        val(a@) < val(m@),
        val(b@) < val(m@),
    ensures
        r@.len() == m@.len(),
        val(r@) == (val(a@) * val(b@)) % val(m@),
        val(r@) < val(m@),
{
    let n = m.len();
    let ghost mv = val(m@);
    let ghost vb = val(b@);
    let mut r: Vec<u32> = Vec::new();
    let mut z: usize = 0;
    while z < n
        invariant
            z <= n,
            r@.len() == z,
            forall|k: int| 0 <= k < z ==> r@[k] == 0,
        decreases n - z,
    {
        r.push(0);
        z += 1;
    }
    proof {
        lemma_val_zeros(r@);
        assert(a@.skip(n as int) =~= Seq::<u32>::empty());
        lemma_small_mod(0, mv);
        assert((val(a@.skip(n as int)) * vb) % mv == 0) by (nonlinear_arith)
            requires
                val(a@.skip(n as int)) == 0,
                0nat % mv == 0,
        {}
    }
    let mut wi: usize = 0;
    while wi < n
        invariant
            wi <= n,
            n == m@.len() == a@.len() == b@.len(),
            r@.len() == n,
            mv == val(m@),
            vb == val(b@),
            mv % 2 == 1,
            vb < mv,
            val(r@) == (val(a@.skip((n - wi) as int)) * vb) % mv,
            val(r@) < mv,
        decreases n - wi,
    {
        let w = a[n - 1 - wi];
        let ghost pout = val(a@.skip((n - wi) as int));
        let mut mask: u32 = 0x8000_0000;
        let mut bj: usize = 0;
        proof {
            lemma2_to64();
            assert(mask == pow2(31));
            // before any bit is taken, the processed prefix of this word is 0
            lemma_basic_div(w as int, pow2(32) as int);
        }
        while bj < 32
            invariant
                bj <= 32,
                wi < n,
                n == m@.len() == a@.len() == b@.len(),
                r@.len() == n,
                mv == val(m@),
                vb == val(b@),
                mv % 2 == 1,
                vb < mv,
                w == a@[(n - 1 - wi) as int],
                pout == val(a@.skip((n - wi) as int)),
                bj < 32 ==> mask == pow2((31 - bj) as nat),
                val(r@) == ((pout * pow2(bj as nat) + (w as nat) / pow2((32 - bj) as nat)) * vb)
                    % mv,
                val(r@) < mv,
            decreases 32 - bj,
        {
            proof {
                lemma_pow2_pos((31 - bj) as nat);
            }
            let bit: u32 = (w / mask) % 2;
            let dbl = add_mod(&r, &r, m);
            let with_b = add_mod(&dbl, b, m);
            proof {
                lemma_mod_bound((w as int / mask as int), 2);
            }
            let sel = select_words(bit as u8, &with_b, &dbl);
            proof {
                let s = (31 - bj) as nat;
                let yw = (w as nat) / pow2(s);
                let pin = pout * pow2(bj as nat) + (w as nat) / pow2((32 - bj) as nat);
                // halving the word's prefix: one more bit comes in at the bottom
                lemma_pow2_unfold((32 - bj) as nat);
                lemma_div_denominator(w as int, pow2(s) as int, 2);
                lemma_pow2_pos(s);
                assert(pow2(s) * 2 == pow2((32 - bj) as nat)) by (nonlinear_arith)
                    requires
                        pow2((32 - bj) as nat) == 2 * pow2(s),
                {}
                assert((w as nat) / pow2((32 - bj) as nat) == yw / 2);
                lemma_fundamental_div_mod(yw as int, 2);
                let pin2 = pout * pow2((bj + 1) as nat) + yw;
                lemma_pow2_unfold((bj + 1) as nat);
                assert(pin2 == 2 * pin + (yw % 2)) by (nonlinear_arith)
                    requires
                        pin == pout * pow2(bj as nat) + yw / 2,
                        pin2 == pout * pow2((bj + 1) as nat) + yw,
                        pow2((bj + 1) as nat) == 2 * pow2(bj as nat),
                        yw == 2 * (yw / 2) + (yw % 2),
                {}
                // the arithmetic of the two reduced steps
                assert(val(dbl@) == (val(r@) + val(r@)) % mv);
                lemma_mul_mod_noop_right(2, (pin * vb) as int, mv as int);
                assert(val(r@) + val(r@) == 2 * val(r@));
                assert(val(dbl@) == (2 * (pin * vb)) % mv) by {
                    assert((2 * ((pin * vb) % mv)) % mv == (2 * (pin * vb)) % mv);
                }
                lemma_small_mod(vb, mv);
                lemma_add_mod_noop((2 * (pin * vb)) as int, vb as int, mv as int);
                assert(val(with_b@) == (2 * (pin * vb) + vb) % mv);
                // fold the doubling and the optional addend into the new prefix
                if bit == 1 {
                    assert(yw % 2 == 1);
                    assert(sel@ == with_b@);
                    assert(pin2 * vb == 2 * (pin * vb) + vb) by (nonlinear_arith)
                        requires
                            pin2 == 2 * pin + 1,
                    {}
                } else {
                    assert(yw % 2 == 0);
                    assert(sel@ == dbl@);
                    assert(pin2 * vb == 2 * (pin * vb)) by (nonlinear_arith)
                        requires
                            pin2 == 2 * pin,
                    {}
                }
                // the mask moves down one bit
                if bj + 1 < 32 {
                    lemma_pow2_unfold(s);
                    lemma_div_multiples_vanish(pow2((s - 1) as nat) as int, 2);
                    assert(mask as nat / 2 == pow2((s - 1) as nat));
                }
            }
            r = sel;
            mask = mask / 2;
            bj += 1;
        }
        proof {
            // all 32 bits taken: the suffix now includes this word
            let k = (n - 1 - wi) as int;
            lemma_div_basics_2(w as int);
            lemma_radix_is_pow2_32();
            assert(pow2(0) == 1) by {
                lemma2_to64();
            }
            assert(a@.skip(k).skip(1) =~= a@.skip(k + 1));
            assert(val(a@.skip(k)) == a@[k] + RADIX * val(a@.skip(k + 1)));
            assert(pout * pow2(32) + (w as nat) == val(a@.skip(k))) by (nonlinear_arith)
                requires
                    val(a@.skip(k)) == (w as nat) + (RADIX as nat) * pout,
                    pow2(32) == RADIX,
            {}
        }
        wi += 1;
    }
    proof {
        assert(a@.skip(0) =~= a@);
    }
    r
}

/// Direct modular product of two full-width reduced operands: no Montgomery
/// domain conversion. Both operands must already be below the odd modulus.
pub fn modmul_u256_denormalized(a: &Vec<u32>, b: &Vec<u32>, modulus: &Vec<u32>) -> (r: Vec<u32>)
    requires
        a@.len() == 8,
        b@.len() == 8,
        modulus@.len() == 8,
        val(modulus@) % 2 == 1,
        val(a@) < val(modulus@),
        val(b@) < val(modulus@),
    ensures
        r@.len() == 8,
        val(r@) == (val(a@) * val(b@)) % val(modulus@),
        val(r@) < val(modulus@),
{
    mod_mul(a, b, modulus)
}

/// Validated direct modular product: computes the product and then checks,
/// in constant time, that the result respects the modulus invariant. The
/// check is a security control against a defective multiplication path; here
/// it is proved to pass.
pub fn modmul_u256(a: &Vec<u32>, b: &Vec<u32>, modulus: &Vec<u32>) -> (r: Vec<u32>)
    requires
        a@.len() == 8,
        b@.len() == 8,
        modulus@.len() == 8,
        val(modulus@) % 2 == 1,
        val(a@) < val(modulus@),
        val(b@) < val(modulus@),
    ensures
        r@.len() == 8,
        val(r@) == (val(a@) * val(b@)) % val(modulus@),
        val(r@) < val(modulus@),
{
    let result = modmul_u256_denormalized(a, b, modulus);
    let in_range = ct_lt(&result, modulus);
    proof {
        assert(in_range);
    }
    result
}

/// An odd modulus admits halving: if it divides twice a value, it divides
/// the value.
proof fn lemma_odd_halving(x: int, m: int)
    requires
        m > 0,
        m % 2 == 1,
        (2 * x) % m == 0,
    ensures
        x % m == 0,
{
    let q = (2 * x) / m;
    lemma_fundamental_div_mod(2 * x, m);
    assert(2 * x == m * q);
    // q must be even, because m is odd and 2x is even
    assert((2 * x) % 2 == 0) by {
        lemma_mod_multiples_basic(x, 2);
        assert(2 * x == x * 2) by (nonlinear_arith) {}
    }
    lemma_mul_mod_noop_general(m, q, 2);
    lemma_mod_bound(q, 2);
    assert(((m % 2) * (q % 2)) % 2 == (m * q) % 2);
    assert(q % 2 == 0) by {
        if q % 2 == 1 {
            assert(((m % 2) * (q % 2)) % 2 == 1int % 2);
        }
    }
    let q2 = q / 2;
    lemma_fundamental_div_mod(q, 2);
    assert(q == 2 * q2);
    assert(2 * x == 2 * (m * q2)) by (nonlinear_arith)
        requires
            2 * x == m * q,
            q == 2 * q2,
    {}
    assert(x == m * q2);
    assert(x == q2 * m) by (nonlinear_arith)
        requires
            x == m * q2,
    {}
    lemma_mod_multiples_basic(q2, m);
}

/// An odd modulus cancels any power of two: if it divides `x * 2^k`, it
/// divides `x`.
proof fn lemma_odd_cancel_pow2(x: int, k: nat, m: int)
    requires
        m > 0,
        m % 2 == 1,
        (x * pow2(k)) % m == 0,
    ensures
        x % m == 0,
    decreases k,
{
    if k == 0 {
        assert(pow2(0) == 1) by {
            lemma2_to64();
        }
        lemma_mul_basics(x);
    } else {
        lemma_pow2_unfold(k);
        assert(x * pow2(k) == 2 * (x * pow2((k - 1) as nat))) by (nonlinear_arith)
            requires
                pow2(k) == 2 * pow2((k - 1) as nat),
        {}
        lemma_odd_halving(x * pow2((k - 1) as nat), m);
        lemma_odd_cancel_pow2(x, (k - 1) as nat, m);
    }
}

/// Uniqueness of the Montgomery-form product: below an odd modulus there is
/// exactly one value whose product with a power of two falls in a given
/// congruence class. Any two results meeting the Montgomery contract for the
/// same inputs are therefore equal.
pub proof fn lemma_montgomery_unique(r1: nat, r2: nat, m: nat, k: nat)
    requires
        m % 2 == 1,
        r1 < m,
        r2 < m,
        (r1 as int * pow2(k) as int) % (m as int) == (r2 as int * pow2(k) as int) % (m as int),
    ensures
        r1 == r2,
{
    let mi = m as int;
    let d = r1 as int - r2 as int;
    lemma_sub_mod_noop(r1 as int * pow2(k) as int, r2 as int * pow2(k) as int, mi);
    assert((r1 as int * pow2(k) as int - r2 as int * pow2(k) as int) % mi == 0) by {
        assert((r1 as int * pow2(k) as int - r2 as int * pow2(k) as int) % mi == ((r1 as int
            * pow2(k) as int) % mi - (r2 as int * pow2(k) as int) % mi) % mi);
        assert((0int) % mi == 0) by {
            lemma_small_mod(0nat, m);
        }
    }
    assert(d * pow2(k) == r1 as int * pow2(k) as int - r2 as int * pow2(k) as int)
        by (nonlinear_arith)
        requires
            d == r1 as int - r2 as int,
    {}
    lemma_odd_cancel_pow2(d, k, mi);
    if d > 0 {
        lemma_small_mod(d as nat, m);
        assert(false);
    } else if d < 0 {
        lemma_mod_add_multiples_vanish(d, mi);
        lemma_small_mod((d + mi) as nat, m);
        assert(false);
    }
}

/// The squaring entry point agrees with the general multiplication: two
/// equally wide results that both satisfy the Montgomery-product contract
/// for operand pair `(a, a)` under an odd modulus are the same big integer,
/// word for word.
pub proof fn lemma_square_matches_mul(s: Seq<u32>, p: Seq<u32>, a: Seq<u32>, m: Seq<u32>)
    requires
        m.len() >= 1,
        s.len() == m.len(),
        p.len() == m.len(),
        val(m) % 2 == 1,
        val(s) < val(m),
        val(p) < val(m),
        (val(s) as int * wt(m.len()) as int) % (val(m) as int) == (val(a) as int * val(
            a,
        ) as int) % (val(m) as int),
        (val(p) as int * wt(m.len()) as int) % (val(m) as int) == (val(a) as int * val(
            a,
        ) as int) % (val(m) as int),
    ensures
        s == p,
{
    lemma_montgomery_unique(val(s), val(p), val(m), 32 * m.len());
    lemma_val_injective(s, p);
}

} // verus!
