//! Word-level addition and subtraction chains with explicit carries and
//! borrows, and the constant-time conditional subtraction that folds a value
//! below twice the modulus back into range.

use vstd::prelude::*;

verus! {

use crate::words::{
    val, wt, RADIX, lemma_val_push, lemma_val_take_succ, lemma_val_bound, lemma_val_top_zero,
    lemma_wt_succ,
};
use crate::ct::select_words;
use vstd::arithmetic::mul::{
    lemma_mul_is_associative, lemma_mul_is_commutative, lemma_mul_is_distributive_add,
};
use vstd::arithmetic::div_mod::{
    lemma_fundamental_div_mod, lemma_mod_bound, lemma_multiply_divide_lt, lemma_small_mod,
    lemma_mod_sub_multiples_vanish,
};

/// Split a double word into its low word and the carry above it.
pub(crate) fn carry_split(t: u64) -> (r: (u32, u64))
    ensures
        r.0 == t as nat % RADIX as nat,
        r.1 == t as nat / RADIX as nat,
        t == r.1 * RADIX + r.0,
        r.0 < RADIX,
        r.1 < RADIX,
{
    let lo = t % RADIX;
    let hi = t / RADIX;
    proof {
        lemma_fundamental_div_mod(t as int, RADIX as int);
        lemma_mod_bound(t as int, RADIX as int);
        lemma_multiply_divide_lt(t as int, RADIX as int, RADIX as int);
    }
    (lo as u32, hi)
}

/// Sum of two equally wide operands as one word wider: no truncation.
pub(crate) fn add_words(x: &Vec<u32>, y: &Vec<u32>) -> (r: Vec<u32>)
    requires
        x@.len() == y@.len(),
    ensures
        r@.len() == x@.len() + 1,
        val(r@) == val(x@) + val(y@),
{
    let n = x.len();
    let mut r: Vec<u32> = Vec::new();
    let mut c: u64 = 0;
    let mut j: usize = 0;
    proof {
        assert(x@.take(0) =~= Seq::<u32>::empty());
        assert(y@.take(0) =~= Seq::<u32>::empty());
    }
    while j < n
        invariant
            j <= n,
            n == x@.len() == y@.len(),
            r@.len() == j,
            c <= 1,
            val(r@) + c * wt(j as nat) == val(x@.take(j as int)) + val(y@.take(j as int)),
        decreases n - j,
    {
        let t: u64 = x[j] as u64 + y[j] as u64 + c;
        let (lo, hi) = carry_split(t);
        proof {
            lemma_val_push(r@, lo);
            lemma_val_take_succ(x@, j as nat);
            lemma_val_take_succ(y@, j as nat);
            lemma_wt_succ(j as nat);
            // hi * wt(j + 1) == (hi * RADIX) * wt(j)
            lemma_mul_is_commutative(RADIX as int, wt(j as nat) as int);
            lemma_mul_is_associative(hi as int, RADIX as int, wt(j as nat) as int);
            // wt(j) * t splits over the digit sum
            assert(t == x@[j as int] + y@[j as int] + c);
            assert((hi * RADIX + lo) as int == x@[j as int] + y@[j as int] + c);
            lemma_mul_is_distributive_add(wt(j as nat) as int, (hi * RADIX) as int, lo as int);
            lemma_mul_is_distributive_add(
                wt(j as nat) as int,
                x@[j as int] + y@[j as int],
                c as int,
            );
            lemma_mul_is_distributive_add(
                wt(j as nat) as int,
                x@[j as int] as int,
                y@[j as int] as int,
            );
            lemma_mul_is_commutative(wt(j as nat) as int, x@[j as int] as int);
            lemma_mul_is_commutative(wt(j as nat) as int, y@[j as int] as int);
            lemma_mul_is_commutative(wt(j as nat) as int, c as int);
            lemma_mul_is_commutative(wt(j as nat) as int, lo as int);
            lemma_mul_is_commutative(wt(j as nat) as int, (hi * RADIX) as int);
            // carry stays a single bit
            lemma_multiply_divide_lt(t as int, RADIX as int, 2);
        }
        r.push(lo);
        c = hi;
        j += 1;
    }
    proof {
        assert(x@.take(n as int) =~= x@);
        assert(y@.take(n as int) =~= y@);
        lemma_val_push(r@, c as u32);
        assert(c * wt(n as nat) == wt(n as nat) * (c as u32)) by {
            lemma_mul_is_commutative(c as int, wt(n as nat) as int);
        }
    }
    r.push(c as u32);
    r
}

/// Difference of two equally wide operands with a final borrow flag:
/// `val(x) - val(y)` plus the borrow times the weight of the full width.
pub(crate) fn sub_borrow(x: &Vec<u32>, y: &Vec<u32>) -> (r: (Vec<u32>, u8))
    requires
        x@.len() == y@.len(),
    ensures
        r.0@.len() == x@.len(),
        r.1 <= 1,
        val(r.0@) + val(y@) == val(x@) + r.1 * wt(x@.len()),
        (r.1 == 1) <==> (val(x@) < val(y@)),
{
    let n = x.len();
    let mut d: Vec<u32> = Vec::new();
    let mut b: u8 = 0;
    let mut j: usize = 0;
    proof {
        assert(x@.take(0) =~= Seq::<u32>::empty());
        assert(y@.take(0) =~= Seq::<u32>::empty());
    }
    while j < n
        invariant
            j <= n,
            n == x@.len() == y@.len(),
            d@.len() == j,
            b <= 1,
            val(d@) + val(y@.take(j as int)) == val(x@.take(j as int)) + b * wt(j as nat),
        decreases n - j,
    {
        let t: u64 = x[j] as u64 + RADIX - (y[j] as u64) - (b as u64);
        let (lo, hi) = carry_split(t);
        let nb: u8 = 1 - (hi as u8);
        proof {
            // t < 2 * RADIX, so hi is 0 or 1
            lemma_multiply_divide_lt(t as int, RADIX as int, 2);
            assert(t == hi * RADIX + lo);
            // the low digit absorbs the borrow out at the radix
            assert(lo == x@[j as int] - y@[j as int] - b + (nb as int) * RADIX) by {
                if hi == 0 {
                    assert(x@[j as int] + RADIX - y@[j as int] - b == 0 * RADIX + lo);
                } else {
                    assert(x@[j as int] + RADIX - y@[j as int] - b == 1 * RADIX + lo);
                }
            }
            lemma_val_push(d@, lo);
            lemma_val_take_succ(x@, j as nat);
            lemma_val_take_succ(y@, j as nat);
            lemma_wt_succ(j as nat);
            let xj = x@[j as int] as int;
            let yj = y@[j as int] as int;
            assert(val(d@.push(lo)) + val(y@.take(j + 1 as int)) == val(x@.take(j + 1 as int))
                + (nb as int) * (wt(j as nat + 1) as int)) by (nonlinear_arith)
                requires
                    val(d@) + val(y@.take(j as int)) == val(x@.take(j as int)) + b * wt(j as nat),
                    val(d@.push(lo)) == val(d@) + wt(j as nat) * lo,
                    val(x@.take(j + 1 as int)) == val(x@.take(j as int)) + wt(j as nat) * xj,
                    val(y@.take(j + 1 as int)) == val(y@.take(j as int)) + wt(j as nat) * yj,
                    wt(j as nat + 1) == RADIX * wt(j as nat),
                    lo == xj - yj - b + (nb as int) * RADIX,
            {}
        }
        d.push(lo);
        b = nb;
        j += 1;
    }
    proof {
        assert(x@.take(n as int) =~= x@);
        assert(y@.take(n as int) =~= y@);
        // final borrow decides the order
        lemma_val_bound(d@);
        if b == 1 {
            assert(val(d@) + val(y@) == val(x@) + 1 * wt(n as nat));
            assert(val(x@) < val(y@));
        } else {
            assert(val(d@) + val(y@) == val(x@) + 0 * wt(n as nat));
            assert(!(val(x@) < val(y@)));
        }
    }
    (d, b)
}

/// Fold a value below twice the modulus into `[0, modulus)` by one
/// conditional subtraction, selected in constant time.
///
/// The input is one word wider than the modulus; the result has the width of
/// the modulus and equals the input reduced once.
pub(crate) fn sub_mod_once(h: &Vec<u32>, m: &Vec<u32>) -> (r: Vec<u32>)
    requires
        h@.len() == m@.len() + 1,
        val(h@) < 2 * val(m@),
    ensures
        r@.len() == m@.len(),
        val(r@) == val(h@) % val(m@),
        val(r@) < val(m@),
        val(r@) == if val(h@) >= val(m@) { val(h@) - val(m@) } else { val(h@) as int },
{
    let n = m.len();
    // the modulus, padded by one zero word to the width of `h`
    let mut mp: Vec<u32> = Vec::new();
    let mut j: usize = 0;
    while j < n
        invariant
            j <= n,
            n == m@.len(),
            mp@ == m@.take(j as int),
        decreases n - j,
    {
        let w = m[j];
        proof {
            assert(m@.take(j + 1 as int) =~= m@.take(j as int).push(m@[j as int]));
        }
        mp.push(w);
        j += 1;
    }
    proof {
        assert(m@.take(n as int) =~= m@);
        lemma_val_push(m@, 0);
    }
    mp.push(0);
    let (diff, borrow) = sub_borrow(h, &mp);
    let full = select_words(borrow, h, &diff);
    proof {
        lemma_val_bound(m@);
        assert(val(mp@) == val(m@) + wt(m@.len()) * 0);
        if borrow == 1 {
            // value is already below the modulus; its top word must be zero
            assert(val(h@) < val(m@));
            assert(val(full@) == val(h@));
            lemma_val_top_zero(full@);
        } else {
            assert(val(diff@) + val(mp@) == val(h@));
            assert(val(full@) == val(h@) - val(m@));
            assert(val(full@) < val(m@));
            lemma_val_top_zero(full@);
        }
    }
    // drop the (zero) top word
    let mut r: Vec<u32> = Vec::new();
    let mut k: usize = 0;
    while k < n
        invariant
            k <= n,
            n + 1 == full@.len(),
            r@ == full@.take(k as int),
        decreases n - k,
    {
        let w = full[k];
        proof {
            assert(full@.take(k + 1 as int) =~= full@.take(k as int).push(full@[k as int]));
        }
        r.push(w);
        k += 1;
    }
    proof {
        let mv = val(m@) as int;
        assert(mv > 0);
        if val(h@) >= val(m@) {
            lemma_mod_sub_multiples_vanish(val(h@) as int, mv);
            lemma_small_mod((val(h@) - val(m@)) as nat, val(m@));
        } else {
            lemma_small_mod(val(h@), val(m@));
        }
    }
    r
}

/// Modular addition of two reduced operands: add, then reduce once.
pub(crate) fn add_mod(x: &Vec<u32>, y: &Vec<u32>, m: &Vec<u32>) -> (r: Vec<u32>)
    requires
        x@.len() == m@.len(),
        y@.len() == m@.len(),
        val(x@) < val(m@),
        val(y@) < val(m@),
    ensures
        r@.len() == m@.len(),
        val(r@) == (val(x@) + val(y@)) % val(m@),
        val(r@) < val(m@),
{
    let s = add_words(x, y);
    sub_mod_once(&s, m)
}

} // verus!
