//! Small arithmetic helpers for alignment.

use vstd::prelude::*;

verus! {

/// Rounds `a` up to the next multiple of `n`.
pub fn round(a: usize, n: usize) -> (r: usize)
    requires
        n >= 1,
        a + n <= usize::MAX,
    ensures
        r as int % n as int == 0,
        a <= r < a + n,
{
    let q = (a + n - 1) / n;
    proof {
        vstd::arithmetic::div_mod::lemma_fundamental_div_mod((a + n - 1) as int, n as int);
        vstd::arithmetic::div_mod::lemma_mod_multiples_basic(q as int, n as int);
        assert(q * n == n as int * q) by (nonlinear_arith) {}
    }
    q * n
}

/// Rounds `a` down to a multiple of `n`.
pub fn round_down(a: usize, n: usize) -> (r: usize)
    requires
        n >= 1,
    ensures
        r as int % n as int == 0,
        a - n < r <= a,
{
    let q = a / n;
    proof {
        vstd::arithmetic::div_mod::lemma_fundamental_div_mod(a as int, n as int);
        vstd::arithmetic::div_mod::lemma_mod_multiples_basic(q as int, n as int);
        assert(q * n == n as int * q) by (nonlinear_arith) {}
    }
    q * n
}

} // verus!
