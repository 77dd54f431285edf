//! The mathematical value of a little-endian sequence of 32-bit words, and
//! the decomposition lemmas the arithmetic routines are proved against.

use vstd::prelude::*;

verus! {

use vstd::arithmetic::power2::{pow2, lemma_pow2_adds, lemma_pow2_pos, lemma2_to64};
use vstd::arithmetic::mul::{
    lemma_mul_is_associative, lemma_mul_is_commutative, lemma_mul_is_distributive_add,
    lemma_mul_inequality,
};

/// Radix of one machine word: each word holds a digit in base `2^32`.
pub const RADIX: u64 = 0x1_0000_0000;

/// Value of a word sequence read as a little-endian base-`2^32` integer.
pub open spec fn val(s: Seq<u32>) -> nat
    decreases s.len(),
{
    if s.len() == 0 {
        0
    } else {
        (s[0] + RADIX * val(s.skip(1))) as nat
    }
}

/// `pow2(32 * k)` is the weight of the word at index `k`.
pub open spec fn wt(k: nat) -> nat {
    pow2(32 * k)
}

pub proof fn lemma_radix_is_pow2_32()
    ensures
        RADIX == pow2(32),
{
    lemma2_to64();
}

pub proof fn lemma_wt_succ(k: nat)
    ensures
        wt(k + 1) == RADIX * wt(k),
{
    lemma_radix_is_pow2_32();
    lemma_pow2_adds(32, 32 * k);
}

pub proof fn lemma_wt_adds(j: nat, k: nat)
    ensures
        wt(j + k) == wt(j) * wt(k),
{
    lemma_pow2_adds(32 * j, 32 * k);
}

pub proof fn lemma_wt_zero()
    ensures
        wt(0) == 1,
{
    lemma2_to64();
}

pub proof fn lemma_wt_pos(k: nat)
    ensures
        wt(k) >= 1,
{
    lemma_pow2_pos(32 * k);
}

/// A sequence splits at any index `k`: low words plus weighted high words.
pub proof fn lemma_val_split(s: Seq<u32>, k: nat)
    requires
        k <= s.len(),
    ensures
        val(s) == val(s.take(k as int)) + wt(k) * val(s.skip(k as int)),
    decreases k,
{
    if k == 0 {
        assert(s.take(0) =~= Seq::<u32>::empty());
        assert(s.skip(0) =~= s);
        assert(wt(0) == 1) by {
            lemma2_to64();
        }
    } else {
        let t = s.skip(1);
        lemma_val_split(t, (k - 1) as nat);
        assert(t.take(k - 1) =~= s.take(k as int).skip(1));
        assert(t.skip(k - 1) =~= s.skip(k as int));
        // val(s) == s[0] + RADIX * val(t)
        //        == s[0] + RADIX * (val(t.take(k-1)) + wt(k-1) * val(s.skip(k)))
        let a = val(t.take(k - 1)) as int;
        let b = (wt((k - 1) as nat) * val(s.skip(k as int))) as int;
        lemma_mul_is_distributive_add(RADIX as int, a, b);
        lemma_mul_is_associative(RADIX as int, wt((k - 1) as nat) as int, val(s.skip(k as int)) as int);
        lemma_wt_succ((k - 1) as nat);
        assert(s.take(k as int).len() == k);
        assert(s.take(k as int)[0] == s[0]);
        assert(val(s.take(k as int)) == s[0] + RADIX * val(t.take(k - 1)));
    }
}

/// The value of a one-word sequence is that word.
pub proof fn lemma_val_singleton(s: Seq<u32>)
    requires
        s.len() == 1,
    ensures
        val(s) == s[0],
{
    assert(s.skip(1) =~= Seq::<u32>::empty());
    assert(val(s.skip(1)) == 0);
    assert(val(s) == (s[0] + RADIX * 0) as nat);
}

/// A sequence of zero words has value zero.
pub proof fn lemma_val_zeros(s: Seq<u32>)
    requires
        forall|j: int| 0 <= j < s.len() ==> s[j] == 0,
    ensures
        val(s) == 0,
    decreases s.len(),
{
    if s.len() > 0 {
        lemma_val_zeros(s.skip(1));
    }
}

/// Every `n`-word value is below `wt(n)`.
pub proof fn lemma_val_bound(s: Seq<u32>)
    ensures
        val(s) < wt(s.len()),
    decreases s.len(),
{
    if s.len() == 0 {
        lemma2_to64();
    } else {
        let t = s.skip(1);
        lemma_val_bound(t);
        // val(s) == s[0] + RADIX * val(t) <= (RADIX - 1) + RADIX * (wt(len-1) - 1)
        lemma_mul_inequality(val(t) as int, wt(t.len()) as int - 1, RADIX as int);
        lemma_mul_is_commutative(RADIX as int, wt(t.len()) as int - 1);
        lemma_mul_is_distributive_add(RADIX as int, wt(t.len()) as int, -1);
        lemma_wt_succ(t.len());
    }
}

/// Extending a prefix by one word adds that word at its weight.
pub proof fn lemma_val_take_succ(s: Seq<u32>, i: nat)
    requires
        i < s.len(),
    ensures
        val(s.take(i + 1 as int)) == val(s.take(i as int)) + wt(i) * s[i as int],
{
    let p = s.take(i + 1 as int);
    lemma_val_split(p, i);
    assert(p.take(i as int) =~= s.take(i as int));
    assert(p.skip(i as int) =~= seq![s[i as int]]);
    lemma_val_singleton(p.skip(i as int));
}

/// Appending a word adds it at the weight of the old length.
pub proof fn lemma_val_push(s: Seq<u32>, x: u32)
    ensures
        val(s.push(x)) == val(s) + wt(s.len()) * x,
{
    let p = s.push(x);
    lemma_val_split(p, s.len());
    assert(p.take(s.len() as int) =~= s);
    assert(p.skip(s.len() as int) =~= seq![x]);
    lemma_val_singleton(p.skip(s.len() as int));
}

/// Decompose a sequence around index `i`.
pub proof fn lemma_val_index(s: Seq<u32>, i: nat)
    requires
        i < s.len(),
    ensures
        val(s) == val(s.take(i as int)) + wt(i) * s[i as int] + wt(i + 1) * val(s.skip(i + 1 as int)),
{
    lemma_val_split(s, i);
    let t = s.skip(i as int);
    assert(t.len() == s.len() - i);
    assert(t.skip(1) =~= s.skip(i + 1 as int));
    assert(val(t) == t[0] + RADIX * val(s.skip(i + 1 as int)));
    assert(t[0] == s[i as int]);
    let hi = val(s.skip(i + 1 as int)) as int;
    lemma_mul_is_distributive_add(wt(i) as int, s[i as int] as int, RADIX as int * hi);
    lemma_mul_is_associative(wt(i) as int, RADIX as int, hi);
    lemma_wt_succ(i);
    lemma_mul_is_commutative(wt(i) as int, RADIX as int);
}

/// Overwriting the word at index `i` shifts the value by the weighted difference.
pub proof fn lemma_val_update(s: Seq<u32>, i: nat, x: u32)
    requires
        i < s.len(),
    ensures
        val(s.update(i as int, x)) + wt(i) * s[i as int] == val(s) + wt(i) * x,
{
    let s2 = s.update(i as int, x);
    lemma_val_index(s, i);
    lemma_val_index(s2, i);
    assert(s2.take(i as int) =~= s.take(i as int));
    assert(s2.skip(i + 1 as int) =~= s.skip(i + 1 as int));
}

/// A value below the weight of the top word forces that word to zero.
pub proof fn lemma_val_top_zero(s: Seq<u32>)
    requires
        s.len() >= 1,
        val(s) < wt((s.len() - 1) as nat),
    ensures
        s[s.len() - 1] == 0,
        val(s.take(s.len() - 1)) == val(s),
{
    let n = (s.len() - 1) as nat;
    lemma_val_split(s, n);
    lemma_val_singleton(s.skip(n as int));
    if s[n as int] != 0 {
        lemma_mul_inequality(1, val(s.skip(n as int)) as int, wt(n) as int);
        lemma_mul_is_commutative(wt(n) as int, val(s.skip(n as int)) as int);
        assert(false);
    }
}

/// Equal values force equal words, length for length: the representation of
/// a value at a fixed width is unique.
pub proof fn lemma_val_injective(a: Seq<u32>, b: Seq<u32>)
    requires
        a.len() == b.len(),
        val(a) == val(b),
    ensures
        a =~= b,
    decreases a.len(),
{
    if a.len() > 0 {
        let ta = a.skip(1);
        let tb = b.skip(1);
        // Low word is the value modulo the radix.
        assert(a[0] == b[0] && val(ta) == val(tb)) by {
            let va = val(ta) as int;
            let vb = val(tb) as int;
            assert(a[0] + RADIX * va == b[0] + RADIX * vb);
            if va == vb {
            } else if va < vb {
                lemma_mul_inequality(va + 1, vb, RADIX as int);
                lemma_mul_is_distributive_add(RADIX as int, va, 1);
                assert(false);
            } else {
                lemma_mul_inequality(vb + 1, va, RADIX as int);
                lemma_mul_is_distributive_add(RADIX as int, vb, 1);
                assert(false);
            }
        }
        lemma_val_injective(ta, tb);
        assert forall|i: int| 0 <= i < a.len() implies a[i] == b[i] by {
            if i > 0 {
                assert(a[i] == ta[i - 1]);
                assert(b[i] == tb[i - 1]);
            }
        }
        assert(a =~= b);
    } else {
        assert(a =~= b);
    }
}

/// Digit comparison: with words below the radix, the high part decides first.
pub proof fn lemma_digit_compare(x1: u32, y1: nat, x2: u32, y2: nat)
    ensures
        (x1 + RADIX * y1 < x2 + RADIX * y2) <==> (y1 < y2 || (y1 == y2 && x1 < x2)),
        (x1 + RADIX * y1 == x2 + RADIX * y2) <==> (y1 == y2 && x1 == x2),
{
    if y1 < y2 {
        lemma_mul_inequality(y1 as int + 1, y2 as int, RADIX as int);
        lemma_mul_is_distributive_add(RADIX as int, y1 as int, 1);
    } else if y2 < y1 {
        lemma_mul_inequality(y2 as int + 1, y1 as int, RADIX as int);
        lemma_mul_is_distributive_add(RADIX as int, y2 as int, 1);
    }
}

} // verus!
