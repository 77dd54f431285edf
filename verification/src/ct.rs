//! Constant-time word primitives and the multi-word range validator.
//!
//! The word-level comparisons and the conditional select come from the
//! `subtle` crate, so that no branch depends on the compared values; the
//! multi-word logic on top of them is verified.

use vstd::prelude::*;

verus! {

use crate::words::{val, RADIX, lemma_digit_compare};

/// Relies on `subtle::ConstantTimeLess::ct_lt` for `u32` and
/// `Choice::unwrap_u8`: the returned word is 1 exactly when `a < b`, else 0.
#[verifier::external_body]
fn word_lt(a: u32, b: u32) -> (r: u8)
    ensures
        r == if a < b { 1u8 } else { 0u8 },
{
    subtle::ConstantTimeLess::ct_lt(&a, &b).unwrap_u8()
}

/// Relies on `subtle::ConstantTimeEq::ct_eq` for `u32` and
/// `Choice::unwrap_u8`: the returned word is 1 exactly when `a == b`, else 0.
#[verifier::external_body]
fn word_eq(a: u32, b: u32) -> (r: u8)
    ensures
        r == if a == b { 1u8 } else { 0u8 },
{
    subtle::ConstantTimeEq::ct_eq(&a, &b).unwrap_u8()
}

/// Relies on `subtle::ConditionallySelectable::conditional_select` for `u32`
/// with `Choice::from`: for a flag that is 0 or 1, the result is `x` when the
/// flag is 1 and `y` when it is 0, chosen without a data-dependent branch.
#[verifier::external_body]
fn word_select(c: u8, x: u32, y: u32) -> (r: u32)
    requires
        c == 0 || c == 1,
    ensures
        r == if c == 1 { x } else { y },
{
    subtle::ConditionallySelectable::conditional_select(&y, &x, subtle::Choice::from(c))
}

/// Select one of two equally long word sequences by a 0-or-1 flag, word by
/// word, without a branch on the flag.
pub fn select_words(c: u8, x: &Vec<u32>, y: &Vec<u32>) -> (r: Vec<u32>)
    requires
        c == 0 || c == 1,
        x@.len() == y@.len(),
    ensures
        r@ == if c == 1 { x@ } else { y@ },
{
    let n = x.len();
    let mut r: Vec<u32> = Vec::new();
    let mut j: usize = 0;
    while j < n
        invariant
            j <= n,
            n == x@.len() == y@.len(),
            c == 0 || c == 1,
            r@.len() == j,
            forall|k: int| 0 <= k < j ==> r@[k] == (if c == 1 { x@[k] } else { y@[k] }),
        decreases n - j,
    {
        r.push(word_select(c, x[j], y[j]));
        j += 1;
    }
    proof {
        if c == 1 {
            assert(r@ =~= x@);
        } else {
            assert(r@ =~= y@);
        }
    }
    r
}

/// Constant-time strict comparison of two equally wide big integers: the
/// result validator. Scans all words from the most significant down, keeping
/// 0-or-1 flags, so that neither time nor control flow depends on the values.
pub fn ct_lt(a: &Vec<u32>, b: &Vec<u32>) -> (r: bool)
    requires
        a@.len() == b@.len(),
    ensures
        r == (val(a@) < val(b@)),
{
    let n = a.len();
    let mut lt: u8 = 0;
    let mut eq: u8 = 1;
    let mut i: usize = n;
    while i > 0
        invariant
            i <= n,
            n == a@.len() == b@.len(),
            lt <= 1,
            eq <= 1,
            lt + eq <= 1,
            (lt == 1) <==> (val(a@.skip(i as int)) < val(b@.skip(i as int))),
            (eq == 1) <==> (val(a@.skip(i as int)) == val(b@.skip(i as int))),
        decreases i,
    {
        i -= 1;
        let w_lt = word_lt(a[i as usize], b[i as usize]);
        let w_eq = word_eq(a[i as usize], b[i as usize]);
        let new_lt = lt + eq * w_lt;
        let new_eq = eq * w_eq;
        proof {
            let sa = a@.skip(i as int);
            let sb = b@.skip(i as int);
            assert(sa.skip(1) =~= a@.skip(i + 1));
            assert(sb.skip(1) =~= b@.skip(i + 1));
            assert(val(sa) == a@[i as int] + RADIX * val(a@.skip(i + 1)));
            assert(val(sb) == b@[i as int] + RADIX * val(b@.skip(i + 1)));
            lemma_digit_compare(a@[i as int], val(a@.skip(i + 1)), b@[i as int], val(
                b@.skip(i + 1),
            ));
        }
        lt = new_lt;
        eq = new_eq;
    }
    proof {
        assert(a@.skip(0) =~= a@);
        assert(b@.skip(0) =~= b@);
    }
    lt == 1
}

} // verus!
