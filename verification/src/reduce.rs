//! Word-by-word Montgomery reduction: fold a double-width product back into
//! single width, congruent to the product times the inverse of the radix
//! power, with one constant-time conditional subtraction at the end.

use vstd::prelude::*;

verus! {

use crate::words::{
    val, wt, RADIX, lemma_val_push, lemma_val_update, lemma_val_take_succ, lemma_val_zeros,
    lemma_val_bound, lemma_val_split, lemma_wt_succ, lemma_wt_adds,
};
use crate::addsub::{carry_split, sub_mod_once};
use vstd::arithmetic::mul::{
    lemma_mul_upper_bound, lemma_mul_inequality, lemma_mul_is_commutative,
};
use vstd::arithmetic::div_mod::{
    lemma_fundamental_div_mod, lemma_mod_bound, lemma_mul_mod_noop_left, lemma_add_mod_noop_right,
    lemma_mod_multiples_basic, lemma_mod_multiples_vanish,
};

/// The word chosen at each step zeroes the low word of the running value:
/// with `v` the negated inverse of `m0` at the radix, adding
/// `((a * v) % RADIX) * m0` to `a` gives a multiple of the radix.
proof fn lemma_low_word_vanishes(a: int, v: int, m0: int)
    requires
        a >= 0,
        v >= 0,
        m0 >= 0,
        (v * m0 + 1) % (RADIX as int) == 0,
    ensures
        (a + ((a * v) % (RADIX as int)) * m0) % (RADIX as int) == 0,
{
    let r = RADIX as int;
    let u = (a * v) % r;
    // (a + u * m0) == (a + (a*v) * m0)  modulo r
    lemma_mul_mod_noop_left(a * v, m0, r);
    lemma_add_mod_noop_right(a, u * m0, r);
    lemma_add_mod_noop_right(a, (a * v) * m0, r);
    assert((a + u * m0) % r == (a + (a * v) * m0) % r);
    // a + a*v*m0 == a * (1 + v*m0)
    assert(a + (a * v) * m0 == a * (1 + v * m0)) by (nonlinear_arith) {}
    // 1 + v*m0 is a multiple of r
    let k = (v * m0 + 1) / r;
    lemma_fundamental_div_mod(v * m0 + 1, r);
    assert(1 + v * m0 == r * k);
    assert(a * (r * k) == r * (a * k)) by (nonlinear_arith) {}
    lemma_mod_multiples_basic(a * k, r);
}

/// Montgomery reduction of a double-width product.
///
/// Given a `2n`-word product, an odd `n`-word modulus, and the negated
/// multiplicative inverse of the modulus's low word at the radix, returns the
/// `n`-word value congruent to the product divided by `wt(n)` modulo the
/// modulus, strictly below the modulus. Each of the `n` steps adds the
/// multiple of the modulus that zeroes the running value's lowest word; the
/// final reduction into range is one constant-time conditional subtraction.
#[verifier::rlimit(60)]
pub fn montgomery_reduction(product: &Vec<u32>, modulus: &Vec<u32>, mod_neg_inv: u32) -> (r: Vec<
    u32,
>)
    requires
        modulus@.len() >= 1,
        2 * modulus@.len() < usize::MAX,
        product@.len() == 2 * modulus@.len(),
        val(modulus@) % 2 == 1,
        (mod_neg_inv * modulus@[0] + 1) % (RADIX as int) == 0,
        val(product@) < val(modulus@) * wt(modulus@.len()),
    ensures
        r@.len() == modulus@.len(),
        val(r@) < val(modulus@),
        (val(r@) as int * wt(modulus@.len()) as int) % (val(modulus@) as int) == (val(
            product@,
        ) as int) % (val(modulus@) as int),
{
    let n = modulus.len();
    let ghost mv = val(modulus@);
    let ghost tv = val(product@);
    proof {
        assert(mv >= 1);
        lemma_val_bound(modulus@);
    }
    // working copy of the product, one word wider to absorb carries
    let mut acc: Vec<u32> = Vec::new();
    let mut z: usize = 0;
    while z < 2 * n
        invariant
            z <= 2 * n,
            2 * n < usize::MAX,
            product@.len() == 2 * n,
            acc@ == product@.take(z as int),
        decreases 2 * n - z,
    {
        let w = product[z];
        proof {
            assert(product@.take(z + 1 as int) =~= product@.take(z as int).push(
                product@[z as int],
            ));
        }
        acc.push(w);
        z += 1;
    }
    proof {
        assert(product@.take(2 * n as int) =~= product@);
        lemma_val_push(acc@, 0);
    }
    acc.push(0);
    let ghost mut q: nat = 0nat;
    proof {
        crate::words::lemma_wt_zero();
    }
    let mut i: usize = 0;
    while i < n
        invariant
            i <= n,
            n == modulus@.len(),
            n >= 1,
            2 * n < usize::MAX,
            acc@.len() == 2 * n + 1,
            mv == val(modulus@),
            tv == val(product@),
            (mod_neg_inv * modulus@[0] + 1) % (RADIX as int) == 0,
            forall|k: int| 0 <= k < i ==> acc@[k] == 0,
            val(acc@) == tv + q * mv,
            q < wt(i as nat),
            tv < mv * wt(n as nat),
            mv < wt(n as nat),
        decreases n - i,
    {
        let ghost acc0 = acc@;
        let ghost vstart = val(acc@);
        proof {
            lemma_mul_upper_bound(acc@[i as int] as int, 0xFFFF_FFFF, mod_neg_inv as int,
                0xFFFF_FFFF);
        }
        let t0: u64 = (acc[i] as u64) * (mod_neg_inv as u64);
        let u: u32 = (t0 % RADIX) as u32;
        proof {
            lemma_mod_bound(t0 as int, RADIX as int);
        }
        // add u * modulus, shifted i words up
        let mut c: u64 = 0;
        let mut j: usize = 0;
        proof {
            assert(modulus@.take(0) =~= Seq::<u32>::empty());
            assert((u as nat) * val(modulus@.take(0)) * wt(i as nat) == 0) by (nonlinear_arith)
                requires
                    val(modulus@.take(0)) == 0,
            {}
        }
        while j < n
            invariant
                j <= n,
                i < n,
                n == modulus@.len(),
                2 * n < usize::MAX,
                acc@.len() == 2 * n + 1,
                c < RADIX,
                forall|k: int| 0 <= k < i ==> acc@[k] == 0,
                j >= 1 ==> acc@[i as int] == 0,
                val(acc@) + wt((i + j) as nat) * c == vstart + (u as nat) * val(modulus@.take(
                    j as int,
                )) * wt(i as nat),
                j == 0 ==> acc@ == acc0,
                vstart == val(acc0),
                acc0.len() == 2 * n + 1,
                u == (acc0[i as int] * mod_neg_inv) % (RADIX as int),
                (mod_neg_inv * modulus@[0] + 1) % (RADIX as int) == 0,
            decreases n - j,
        {
            proof {
                lemma_mul_upper_bound(u as int, 0xFFFF_FFFF, modulus@[j as int] as int,
                    0xFFFF_FFFF);
            }
            let t: u64 = acc[i + j] as u64 + (u as u64) * (modulus[j] as u64) + c;
            let (lo, hi) = carry_split(t);
            proof {
                let idx = (i + j) as nat;
                lemma_val_update(acc@, idx, lo);
                lemma_val_take_succ(modulus@, j as nat);
                lemma_wt_succ(idx);
                lemma_wt_adds(i as nat, j as nat);
                assert(val(acc@.update(idx as int, lo)) + wt(idx + 1) * hi == vstart + (u as nat)
                    * val(modulus@.take(j + 1 as int)) * wt(i as nat)) by (nonlinear_arith)
                    requires
                        val(acc@) + wt(idx) * c == vstart + (u as nat) * val(modulus@.take(
                            j as int,
                        )) * wt(i as nat),
                        val(acc@.update(idx as int, lo)) + wt(idx) * acc@[idx as int] == val(acc@)
                            + wt(idx) * lo,
                        t == acc@[idx as int] + (u as nat) * (modulus@[j as int] as nat) + c,
                        t == hi * RADIX + lo,
                        val(modulus@.take(j + 1 as int)) == val(modulus@.take(j as int)) + wt(
                            j as nat,
                        ) * modulus@[j as int],
                        wt(idx + 1) == RADIX * wt(idx),
                        wt(idx) == wt(i as nat) * wt(j as nat),
                {}
                if j == 0 {
                    // at entry the carry is still zero
                    assert(modulus@.take(0int) =~= Seq::<u32>::empty());
                    assert((u as nat) * val(modulus@.take(0int)) * wt(i as nat) == 0)
                        by (nonlinear_arith)
                        requires
                            val(modulus@.take(0int)) == 0,
                    {}
                    crate::words::lemma_wt_pos(i as nat);
                    assert(c == 0) by (nonlinear_arith)
                        requires
                            wt(i as nat) * c == 0,
                            wt(i as nat) >= 1,
                    {}
                    // the chosen multiple zeroes the low word
                    lemma_low_word_vanishes(acc0[i as int] as int, mod_neg_inv as int,
                        modulus@[0] as int);
                    assert(t == acc0[i as int] + (u as nat) * (modulus@[0] as nat));
                    assert(lo == t as nat % (RADIX as nat));
                    assert(lo == 0);
                }
            }
            acc.set(i + j, lo);
            c = hi;
            j += 1;
        }
        proof {
            assert(modulus@.take(n as int) =~= modulus@);
        }
        // propagate the carry through the upper words
        let mut k: usize = i + n;
        while k < 2 * n + 1
            invariant
                i + n <= k <= 2 * n + 1,
                i < n,
                n >= 1,
                2 * n < usize::MAX,
                acc@.len() == 2 * n + 1,
                c < RADIX,
                forall|kk: int| 0 <= kk < i ==> acc@[kk] == 0,
                acc@[i as int] == 0,
                val(acc@) + wt(k as nat) * c == vstart + (u as nat) * mv * wt(i as nat),
                mv == val(modulus@),
            decreases 2 * n + 1 - k,
        {
            let t: u64 = acc[k] as u64 + c;
            let (lo, hi) = carry_split(t);
            proof {
                lemma_val_update(acc@, k as nat, lo);
                lemma_wt_succ(k as nat);
                assert(val(acc@.update(k as int, lo)) + wt(k as nat + 1) * hi == vstart + (
                u as nat) * mv * wt(i as nat)) by (nonlinear_arith)
                    requires
                        val(acc@) + wt(k as nat) * c == vstart + (u as nat) * mv * wt(i as nat),
                        val(acc@.update(k as int, lo)) + wt(k as nat) * acc@[k as int] == val(acc@)
                            + wt(k as nat) * lo,
                        t == acc@[k as int] + c,
                        t == hi * RADIX + lo,
                        wt(k as nat + 1) == RADIX * wt(k as nat),
                {}
            }
            acc.set(k, lo);
            c = hi;
            k += 1;
        }
        proof {
            // the final carry must be zero: the value stays under its width
            let qn = q + (u as nat) * wt(i as nat);
            lemma_wt_succ(i as nat);
            assert(qn < wt(i as nat + 1)) by (nonlinear_arith)
                requires
                    qn == q + (u as nat) * wt(i as nat),
                    q < wt(i as nat),
                    u < RADIX,
                    wt(i as nat + 1) == RADIX * wt(i as nat),
            {
            }
            assert(vstart + (u as nat) * mv * wt(i as nat) == tv + qn * mv) by (nonlinear_arith)
                requires
                    vstart == tv + q * mv,
                    qn == q + (u as nat) * wt(i as nat),
            {}
            // the new multiplier count stays below the width processed so far
            assert(qn < wt(n as nat)) by {
                if i + 1 < n {
                    vstd::arithmetic::power2::lemma_pow2_strictly_increases(32 * (i as nat + 1),
                        32 * (n as nat));
                }
            }
            // bound the target below wt(2n + 1)
            lemma_val_bound(modulus@);
            lemma_wt_adds(n as nat, n as nat);
            lemma_wt_succ((2 * n) as nat);
            assert(tv + qn * mv < wt((2 * n + 1) as nat)) by (nonlinear_arith)
                requires
                    tv < mv * wt(n as nat),
                    qn < wt(n as nat),
                    mv < wt(n as nat),
                    wt((2 * n) as nat) == wt(n as nat) * wt(n as nat),
                    wt((2 * n + 1) as nat) == RADIX * wt((2 * n) as nat),
            {}
            if c >= 1 {
                lemma_mul_inequality(1, c as int, wt(k as nat) as int);
                lemma_mul_is_commutative(wt(k as nat) as int, c as int);
                assert(false);
            }
            q = qn;
        }
        i += 1;
    }
    // the low n words are zero: the value sits entirely in the upper half
    let mut h: Vec<u32> = Vec::new();
    let mut p: usize = n;
    while p < 2 * n + 1
        invariant
            n <= p <= 2 * n + 1,
            2 * n < usize::MAX,
            acc@.len() == 2 * n + 1,
            h@ == acc@.subrange(n as int, p as int),
        decreases 2 * n + 1 - p,
    {
        let w = acc[p];
        proof {
            assert(acc@.subrange(n as int, p + 1 as int) =~= acc@.subrange(n as int, p as int)
                .push(acc@[p as int]));
        }
        h.push(w);
        p += 1;
    }
    proof {
        assert(h@ =~= acc@.skip(n as int));
        lemma_val_split(acc@, n as nat);
        lemma_val_zeros(acc@.take(n as int));
        assert(val(acc@) == wt(n as nat) * val(h@));
        // the upper half is below twice the modulus
        lemma_val_bound(modulus@);
        assert(val(h@) < 2 * mv) by (nonlinear_arith)
            requires
                wt(n as nat) * val(h@) == tv + q * mv,
                tv < mv * wt(n as nat),
                q < wt(n as nat),
                mv < wt(n as nat),
                wt(n as nat) >= 1,
        {}
    }
    let r = sub_mod_once(&h, modulus);
    proof {
        // r is h reduced once, and wt(n) * h == product + q * modulus
        let m = mv as int;
        let t = tv as int;
        let hh = val(h@) as int;
        let rr = val(r@) as int;
        let w = wt(n as nat) as int;
        assert(w * hh == t + (q as int) * m);
        assert(t + (q as int) * m == m * (q as int) + t) by (nonlinear_arith) {}
        lemma_mod_multiples_vanish(q as int, t, m);
        assert((w * hh) % m == t % m);
        lemma_mul_is_commutative(w, hh);
        assert((hh * w) % m == t % m);
        // swap h for its reduction under the modulus
        assert(rr == hh % m);
        lemma_mul_mod_noop_left(hh, w, m);
        assert(((hh % m) * w) % m == (hh * w) % m);
        assert((rr * w) % m == t % m);
    }
    r
}

} // verus!
