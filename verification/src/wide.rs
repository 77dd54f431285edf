//! The widening multiplier: the exact double-width product of two fixed-width
//! operands, with no truncation and no reduction.

use vstd::prelude::*;

verus! {

use crate::words::{val, wt, RADIX, lemma_val_take_succ, lemma_val_update, lemma_val_zeros, lemma_wt_succ, lemma_wt_adds};
use crate::addsub::carry_split;
use vstd::arithmetic::mul::{lemma_mul_upper_bound, lemma_mul_basics};

/// Exact product of two word sequences: the result is as wide as both
/// operands together, so no overflow is possible.
pub fn mul_wide(a: &Vec<u32>, b: &Vec<u32>) -> (r: Vec<u32>)
    requires
        a@.len() + b@.len() <= usize::MAX,
    ensures
        r@.len() == a@.len() + b@.len(),
        val(r@) == val(a@) * val(b@),
{
    let na = a.len();
    let nb = b.len();
    let mut r: Vec<u32> = Vec::new();
    let mut z: usize = 0;
    while z < na + nb
        invariant
            z <= na + nb,
            na + nb <= usize::MAX,
            r@.len() == z,
            forall|k: int| 0 <= k < z ==> r@[k] == 0,
        decreases na + nb - z,
    {
        r.push(0);
        z += 1;
    }
    proof {
        lemma_val_zeros(r@);
        lemma_mul_basics(val(b@) as int);
        assert(val(a@.take(0)) * val(b@) == 0) by (nonlinear_arith)
            requires
                val(a@.take(0)) == 0,
        {}
        assert(a@.take(0) =~= Seq::<u32>::empty());
    }
    let mut i: usize = 0;
    while i < na
        invariant
            i <= na,
            na == a@.len(),
            nb == b@.len(),
            na + nb <= usize::MAX,
            r@.len() == na + nb,
            forall|k: int| i + nb <= k < na + nb ==> r@[k] == 0,
            val(r@) == val(a@.take(i as int)) * val(b@),
        decreases na - i,
    {
        let ai = a[i];
        let mut c: u64 = 0;
        let mut j: usize = 0;
        proof {
            assert(b@.take(0) =~= Seq::<u32>::empty());
            assert((ai as nat) * val(b@.take(0)) * wt(i as nat) == 0) by (nonlinear_arith)
                requires
                    val(b@.take(0)) == 0,
            {}
        }
        while j < nb
            invariant
                j <= nb,
                i < na,
                na == a@.len(),
                nb == b@.len(),
                na + nb <= usize::MAX,
                ai == a@[i as int],
                r@.len() == na + nb,
                c < RADIX,
                forall|k: int| i + nb <= k < na + nb ==> r@[k] == 0,
                val(r@) + wt((i + j) as nat) * c == val(a@.take(i as int)) * val(b@) + (
                ai as nat) * val(b@.take(j as int)) * wt(i as nat),
            decreases nb - j,
        {
            proof {
                lemma_mul_upper_bound(ai as int, 0xFFFF_FFFF, b@[j as int] as int, 0xFFFF_FFFF);
            }
            let t: u64 = r[i + j] as u64 + (ai as u64) * (b[j] as u64) + c;
            let (lo, hi) = carry_split(t);
            proof {
                let idx = (i + j) as nat;
                lemma_val_update(r@, idx, lo);
                lemma_val_take_succ(b@, j as nat);
                lemma_wt_succ(idx);
                lemma_wt_adds(i as nat, j as nat);
                assert(val(r@.update(idx as int, lo)) + wt(idx + 1) * hi == val(a@.take(i as int))
                    * val(b@) + (ai as nat) * val(b@.take(j + 1 as int)) * wt(i as nat))
                    by (nonlinear_arith)
                    requires
                        val(r@) + wt(idx) * c == val(a@.take(i as int)) * val(b@) + (ai as nat)
                            * val(b@.take(j as int)) * wt(i as nat),
                        val(r@.update(idx as int, lo)) + wt(idx) * r@[idx as int] == val(r@) + wt(
                            idx,
                        ) * lo,
                        t == r@[idx as int] + (ai as nat) * (b@[j as int] as nat) + c,
                        t == hi * RADIX + lo,
                        val(b@.take(j + 1 as int)) == val(b@.take(j as int)) + wt(j as nat)
                            * b@[j as int],
                        wt(idx + 1) == RADIX * wt(idx),
                        wt(idx) == wt(i as nat) * wt(j as nat),
                {}
            }
            r.set(i + j, lo);
            c = hi;
            j += 1;
        }
        proof {
            assert(b@.take(nb as int) =~= b@);
            let idx = (i + nb) as nat;
            lemma_val_update(r@, idx, c as u32);
            lemma_val_take_succ(a@, i as nat);
            lemma_wt_adds(i as nat, nb as nat);
            lemma_wt_adds(nb as nat, i as nat);
            assert(val(r@.update(idx as int, c as u32)) == val(a@.take(i + 1 as int)) * val(b@))
                by (nonlinear_arith)
                requires
                    val(r@) + wt(idx) * c == val(a@.take(i as int)) * val(b@) + (ai as nat) * val(
                        b@,
                    ) * wt(i as nat),
                    val(r@.update(idx as int, c as u32)) + wt(idx) * r@[idx as int] == val(r@)
                        + wt(idx) * (c as u32),
                    r@[idx as int] == 0,
                    c as u32 == c,
                    val(a@.take(i + 1 as int)) == val(a@.take(i as int)) + wt(i as nat)
                        * a@[i as int],
                    ai == a@[i as int],
                    wt(idx) == wt(i as nat) * wt(nb as nat),
                    wt(idx) == wt(nb as nat) * wt(i as nat),
            {}
        }
        r.set(i + nb, c as u32);
        i += 1;
    }
    proof {
        assert(a@.take(na as int) =~= a@);
    }
    r
}

/// Squaring entry point: the same exact widening product, both operands the
/// one value. Its output is word-for-word what `mul_wide` returns for equal
/// operands.
pub fn square_wide(a: &Vec<u32>) -> (r: Vec<u32>)
    requires
        2 * a@.len() <= usize::MAX,
    ensures
        r@.len() == 2 * a@.len(),
        val(r@) == val(a@) * val(a@),
{
    mul_wide(a, a)
}

/// Exact widening product of two 128-bit operands (four words each): the
/// result is the full 256-bit product, never reduced.
pub fn mul_wide_u128(a: &Vec<u32>, b: &Vec<u32>) -> (r: Vec<u32>)
    requires
        a@.len() == 4,
        b@.len() == 4,
    ensures
        r@.len() == 8,
        val(r@) == val(a@) * val(b@),
{
    mul_wide(a, b)
}

} // verus!
