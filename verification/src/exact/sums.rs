//! Finite sums of real numbers.

use vstd::prelude::*;

verus! {

/// The sum of the first `n` numbers.
pub open spec fn sigma(n: nat, f: spec_fn(int) -> real) -> real
    decreases n,
{
    if n == 0 {
        0 as real
    } else {
        sigma((n - 1) as nat, f) + f(n - 1)
    }
}

/// A factor that is not zero can be left out.
pub proof fn lemma_cancel(n: real, a: real, b: real)
    requires
        n != 0 as real,
        n * a == n * b,
    ensures
        a == b,
{
    let d = a - b;
    assert(n * d == n * a - n * b) by (nonlinear_arith)
        requires
            d == a - b,
    ;
    assert(d == 0 as real) by (nonlinear_arith)
        requires
            n * d == 0 as real,
            n != 0 as real,
    ;
}

pub proof fn lemma_sigma_equal(n: nat, f: spec_fn(int) -> real, g: spec_fn(int) -> real)
    requires
        forall|i: int| 0 <= i < n ==> #[trigger] f(i) == g(i),
    ensures
        sigma(n, f) == sigma(n, g),
    decreases n,
{
    if n > 0 {
        lemma_sigma_equal((n - 1) as nat, f, g);
        assert(f(n - 1) == g(n - 1));
    }
}

pub proof fn lemma_sigma_zero(n: nat, f: spec_fn(int) -> real)
    requires
        forall|i: int| 0 <= i < n ==> #[trigger] f(i) == 0 as real,
    ensures
        sigma(n, f) == 0 as real,
    decreases n,
{
    if n > 0 {
        lemma_sigma_zero((n - 1) as nat, f);
        assert(f(n - 1) == 0 as real);
    }
}

pub proof fn lemma_sigma_constant(n: nat, c: real)
    ensures
        sigma(n, |i: int| c) == c * n as real,
    decreases n,
{
    if n > 0 {
        lemma_sigma_constant((n - 1) as nat, c);
        assert(c * (n - 1) as real + c == c * n as real) by (nonlinear_arith)
            requires
                (n - 1) as real + 1 as real == n as real,
        ;
    } else {
        assert(c * 0 as real == 0 as real) by (nonlinear_arith);
    }
}

pub proof fn lemma_sigma_add(n: nat, f: spec_fn(int) -> real, g: spec_fn(int) -> real)
    ensures
        sigma(n, |i: int| f(i) + g(i)) == sigma(n, f) + sigma(n, g),
        sigma(n, |i: int| f(i) - g(i)) == sigma(n, f) - sigma(n, g),
    decreases n,
{
    if n > 0 {
        lemma_sigma_add((n - 1) as nat, f, g);
    }
}

pub proof fn lemma_sigma_scale(n: nat, c: real, f: spec_fn(int) -> real)
    ensures
        sigma(n, |i: int| c * f(i)) == c * sigma(n, f),
        sigma(n, |i: int| f(i) * c) == sigma(n, f) * c,
    decreases n,
{
    if n > 0 {
        lemma_sigma_scale((n - 1) as nat, c, f);
        let (s, t) = (sigma((n - 1) as nat, f), f(n - 1));
        assert(c * s + c * t == c * (s + t) && s * c + t * c == (s + t) * c) by (nonlinear_arith);
    } else {
        assert(c * 0 as real == 0 as real && 0 as real * c == 0 as real) by (nonlinear_arith);
    }
}

/// The sum of none that is negative is not, and is no smaller than any of them.
pub proof fn lemma_sigma_positive(n: nat, f: spec_fn(int) -> real, at: int)
    requires
        forall|i: int| 0 <= i < n ==> #[trigger] f(i) >= 0 as real,
    ensures
        sigma(n, f) >= 0 as real,
        0 <= at < n ==> sigma(n, f) >= f(at),
    decreases n,
{
    if n > 0 {
        lemma_sigma_positive((n - 1) as nat, f, at);
        assert(f(n - 1) >= 0 as real);
    }
}

pub proof fn lemma_sigma_at_most(n: nat, f: spec_fn(int) -> real, g: spec_fn(int) -> real)
    requires
        forall|i: int| 0 <= i < n ==> #[trigger] f(i) <= g(i),
    ensures
        sigma(n, f) <= sigma(n, g),
    decreases n,
{
    if n > 0 {
        lemma_sigma_at_most((n - 1) as nat, f, g);
        assert(f(n - 1) <= g(n - 1));
    }
}

/// Only one of the numbers is not zero.
pub proof fn lemma_sigma_single(n: nat, f: spec_fn(int) -> real, at: int)
    requires
        0 <= at < n,
        forall|i: int| 0 <= i < n && i != at ==> #[trigger] f(i) == 0 as real,
    ensures
        sigma(n, f) == f(at),
    decreases n,
{
    if at == n - 1 {
        lemma_sigma_zero((n - 1) as nat, f);
    } else {
        lemma_sigma_single((n - 1) as nat, f, at);
        assert(f(n - 1) == 0 as real);
    }
}

pub proof fn lemma_sigma_split(m: nat, n: nat, f: spec_fn(int) -> real)
    ensures
        sigma(m + n, f) == sigma(m, f) + sigma(n, |k: int| f(m + k)),
    decreases n,
{
    if n > 0 {
        lemma_sigma_split(m, (n - 1) as nat, f);
        assert((m + n - 1) as nat == m + (n - 1) as nat);
    }
}

/// A sum goes block by block.
pub proof fn lemma_sigma_blocks(m: nat, n: nat, f: spec_fn(int) -> real)
    ensures
        sigma(m * n, f) == sigma(m, |i: int| sigma(n, |k: int| f(i * n + k))),
    decreases m,
{
    let g = |i: int| sigma(n, |k: int| f(i * n + k));
    if m > 0 {
        let rest = (m - 1) as nat;
        lemma_sigma_blocks(rest, n, f);
        assert(m * n == rest * n + n) by (nonlinear_arith)
            requires
                m == rest + 1,
        ;
        lemma_sigma_split(rest * n, n, f);
        lemma_sigma_equal(n, |k: int| f(rest * n + k), |k: int| f((m - 1) * n + k));
    } else {
        assert(m * n == 0) by (nonlinear_arith)
            requires
                m == 0,
        ;
    }
}

/// Sums can be exchanged.
pub proof fn lemma_sigma_exchange(m: nat, n: nat, f: spec_fn(int, int) -> real)
    ensures
        sigma(m, |i: int| sigma(n, |k: int| f(i, k))) == sigma(
            n,
            |k: int| sigma(m, |i: int| f(i, k)),
        ),
    decreases m,
{
    if m > 0 {
        let rest = (m - 1) as nat;
        lemma_sigma_exchange(rest, n, f);
        lemma_sigma_add(n, |k: int| sigma(rest, |i: int| f(i, k)), |k: int| f(m - 1, k));
        lemma_sigma_equal(
            n,
            |k: int| sigma(m, |i: int| f(i, k)),
            |k: int|
                (|k: int| sigma(rest, |i: int| f(i, k)))(k) + (|k: int| f(m - 1, k))(k),
        );
    } else {
        lemma_sigma_zero(n, |k: int| sigma(0, |i: int| f(i, k)));
    }
}

} // verus!
