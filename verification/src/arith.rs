//! Factorials and binomial coefficients: the place values of the two
//! position-dependent numeral systems used by the coders.

use factorial::Factorial;
use vstd::arithmetic::power2::lemma_pow2_pos;
use vstd::arithmetic::power2::lemma_pow2_unfold;
use vstd::arithmetic::power2::pow2;
use vstd::prelude::*;

verus! {

/// `n!`, the number of orderings of `n` distinct values.
pub open spec fn factorial(n: nat) -> nat
    decreases n,
{
    if n == 0 {
        1
    } else {
        n * factorial((n - 1) as nat)
    }
}

/// `C(n, k)`, the number of `k`-element subsets of an `n`-element set,
/// by Pascal's rule.
pub open spec fn binomial(n: nat, k: nat) -> nat
    decreases n,
{
    if k == 0 {
        1
    } else if n == 0 {
        0
    } else {
        binomial((n - 1) as nat, (k - 1) as nat) + binomial((n - 1) as nat, k)
    }
}

/// Factorials are positive.
pub proof fn lemma_factorial_positive(n: nat)
    ensures
        factorial(n) >= 1,
    decreases n,
{
    if n > 0 {
        lemma_factorial_positive((n - 1) as nat);
        assert(n * factorial((n - 1) as nat) >= 1) by (nonlinear_arith)
            requires
                n >= 1,
                factorial((n - 1) as nat) >= 1,
        ;
    }
}

/// Factorials grow with their argument.
pub proof fn lemma_factorial_monotonic(m: nat, n: nat)
    requires
        m <= n,
    ensures
        factorial(m) <= factorial(n),
    decreases n,
{
    if m < n {
        lemma_factorial_monotonic(m, (n - 1) as nat);
        lemma_factorial_positive((n - 1) as nat);
        assert(n * factorial((n - 1) as nat) >= factorial((n - 1) as nat)) by (nonlinear_arith)
            requires
                n >= 1,
        ;
    }
}

/// An `n`-element set has at most `2^n` subsets of any one size. With this
/// a caller shows that the coefficients of a short sequence fit a machine
/// word.
pub proof fn lemma_binomial_bound(n: nat, k: nat)
    ensures
        binomial(n, k) <= pow2(n),
    decreases n,
{
    lemma_pow2_pos(n);
    if k > 0 && n > 0 {
        lemma_binomial_bound((n - 1) as nat, (k - 1) as nat);
        lemma_binomial_bound((n - 1) as nat, k);
        lemma_pow2_unfold(n);
    }
}

/// Calls `Factorial::factorial` of the `factorial` crate on a `usize`.
/// That method returns `n!` and panics when `n!` does not fit the type,
/// so the precondition keeps such `n` out.
#[verifier::external_body]
pub(crate) fn factorial_of(n: usize) -> (r: usize)
    requires
        factorial(n as nat) <= usize::MAX,
    ensures
        r == factorial(n as nat),
{
    n.factorial()
}

/// Calls `num_integer::binomial` on two `usize` values. That function
/// returns the binomial coefficient `C(n, k)` (0 when `k > n`); every
/// intermediate value it forms is a coefficient `C(n, j)` no larger than
/// the result, so it cannot overflow when the result fits.
#[verifier::external_body]
pub(crate) fn binomial_of(n: usize, k: usize) -> (r: usize)
    requires
        binomial(n as nat, k as nat) <= usize::MAX,
    ensures
        r == binomial(n as nat, k as nat),
{
    num_integer::binomial(n, k)
}

} // verus!
