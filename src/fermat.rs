//! Fermat's little theorem and Euler's criterion, by way of the binomial
//! theorem.

use vstd::prelude::*;
use vstd::arithmetic::power::*;
use vstd::arithmetic::div_mod::*;
use vstd::arithmetic::mul::*;
use crate::arith::{is_prime, lemma_pow_succ, lemma_prime_divides_product, lemma_prime_sqrt_one};

verus! {

/// The binomial coefficient `C(n, k)` by Pascal's rule.
pub open spec fn binom(n: nat, k: nat) -> int
    decreases n,
{
    if k == 0 {
        1
    } else if n == 0 {
        0
    } else {
        binom((n - 1) as nat, (k - 1) as nat) + binom((n - 1) as nat, k)
    }
}

/// The partial binomial sum `C(n, 0) + C(n, 1) x + ... + C(n, k-1) x^(k-1)`.
pub open spec fn binom_sum(x: int, n: nat, k: nat) -> int
    decreases k,
{
    if k == 0 {
        0
    } else {
        binom_sum(x, n, (k - 1) as nat) + binom(n, (k - 1) as nat) * pow(x, (k - 1) as nat)
    }
}

/// `C(n, k)` vanishes for `k > n`.
pub proof fn lemma_binom_above(n: nat, k: nat)
    requires
        k > n,
    ensures
        binom(n, k) == 0,
    decreases n,
{
    if n > 0 {
        lemma_binom_above((n - 1) as nat, (k - 1) as nat);
        lemma_binom_above((n - 1) as nat, k);
    }
}

/// `C(n, n) == 1`.
pub proof fn lemma_binom_diagonal(n: nat)
    ensures
        binom(n, n) == 1,
    decreases n,
{
    if n > 0 {
        lemma_binom_diagonal((n - 1) as nat);
        lemma_binom_above((n - 1) as nat, n);
    }
}

/// Pascal's rule lifted to the partial sums.
pub proof fn lemma_binom_sum_step(x: int, n: nat, k: nat)
    ensures
        binom_sum(x, n + 1, k + 1) == x * binom_sum(x, n, k) + binom_sum(x, n, k + 1),
    decreases k,
{
    if k == 0 {
        lemma_pow0(x);
        lemma_mul_basics(x);
        lemma_mul_basics(binom(n + 1, 0));
        lemma_mul_basics(binom(n, 0));
        assert(binom_sum(x, n + 1, 0) == 0);
        assert(binom_sum(x, n, 0) == 0);
        assert(binom_sum(x, n + 1, 1) == 1);
        assert(binom_sum(x, n, 1) == 1);
    } else {
        let k1 = (k - 1) as nat;
        lemma_binom_sum_step(x, n, k1);
        lemma_pow_succ(x, k1);
        assert((k1 + 1) as nat == k);
        let s0 = binom_sum(x, n, k1);
        let s1 = binom_sum(x, n, k);
        let a = binom(n, k1);
        let b = binom(n, k);
        let w = pow(x, k1);
        let v = pow(x, k);
        assert(binom(n + 1, k) == a + b);
        assert(binom_sum(x, n + 1, k + 1) == binom_sum(x, n + 1, k) + (a + b) * v);
        assert(binom_sum(x, n + 1, k) == x * s0 + s1);
        assert(s1 == s0 + a * w);
        assert(binom_sum(x, n, k + 1) == s1 + b * v);
        assert(x * s0 + s1 + (a + b) * v == x * s1 + (s1 + b * v)) by (nonlinear_arith)
            requires
                s1 == s0 + a * w,
                v == x * w,
        ;
    }
}

/// The binomial theorem: `(x + 1)^n` is the full binomial sum.
pub proof fn lemma_binomial_theorem(x: int, n: nat)
    ensures
        pow(x + 1, n) == binom_sum(x, n, n + 1),
    decreases n,
{
    if n == 0 {
        lemma_pow0(x + 1);
        lemma_pow0(x);
        lemma_mul_basics(binom(0, 0));
        assert(binom_sum(x, 0, 0) == 0);
        assert(binom_sum(x, 0, 1) == 1);
    } else {
        let n1 = (n - 1) as nat;
        lemma_binomial_theorem(x, n1);
        lemma_pow_succ(x + 1, n1);
        assert((n1 + 1) as nat == n);
        lemma_binom_sum_step(x, n1, n);
        lemma_binom_above(n1, n);
        let s = binom_sum(x, n1, n);
        assert(binom_sum(x, n1, n + 1) == s);
        assert((x + 1) * s == x * s + s) by (nonlinear_arith);
    }
}

/// The absorption identity `k * C(n, k) == n * C(n-1, k-1)`.
pub proof fn lemma_binom_absorb(n: nat, k: nat)
    requires
        n >= 1,
        k >= 1,
    ensures
        k * binom(n, k) == n * binom((n - 1) as nat, (k - 1) as nat),
    decreases n,
{
    let n1 = (n - 1) as nat;
    let k1 = (k - 1) as nat;
    if n == 1 {
        if k > 1 {
            lemma_binom_above(0, k1);
            lemma_binom_above(0, k);
        }
    } else {
        let n2 = (n - 2) as nat;
        lemma_binom_absorb(n1, k);
        // k * C(n-1, k) == (n-1) * C(n-2, k-1)
        if k == 1 {
            assert(k * binom(n, k) == binom(n1, 0) + k * binom(n1, k)) by (nonlinear_arith)
                requires
                    k == 1,
                    binom(n, k) == binom(n1, k1) + binom(n1, k),
                    k1 == 0,
            ;
        } else {
            let k2 = (k - 2) as nat;
            lemma_binom_absorb(n1, k1);
            assert((k1 - 1) as nat == k2);
            // (k-1) * C(n-1, k-1) == (n-1) * C(n-2, k-2)
            let c = binom(n1, k1);
            assert(c == binom(n2, k2) + binom(n2, k1));
            assert(k * binom(n, k) == n * c) by (nonlinear_arith)
                requires
                    binom(n, k) == c + binom(n1, k),
                    k * binom(n1, k) == n1 * binom(n2, k1),
                    k1 * c == n1 * binom(n2, k2),
                    c == binom(n2, k2) + binom(n2, k1),
                    k1 == k - 1,
                    n1 == n - 1,
            ;
        }
    }
}

/// A prime divides `C(p, k)` for `0 < k < p`.
pub proof fn lemma_prime_divides_binom(p: nat, k: nat)
    requires
        is_prime(p as int),
        0 < k < p,
    ensures
        binom(p, k) % (p as int) == 0,
{
    let c = binom((p - 1) as nat, (k - 1) as nat);
    lemma_binom_absorb(p, k);
    lemma_mul_is_commutative(p as int, c);
    lemma_mod_multiples_basic(c, p as int);
    lemma_prime_divides_product(p as int, k as int, binom(p, k));
}

/// Modulo a prime, the inner terms of the binomial sum vanish.
pub proof fn lemma_binom_sum_mod_prime(x: int, p: nat, k: nat)
    requires
        is_prime(p as int),
        1 <= k <= p,
    ensures
        binom_sum(x, p, k) % (p as int) == 1,
    decreases k,
{
    let m = p as int;
    if k == 1 {
        lemma_pow0(x);
        lemma_small_mod(1, p);
        lemma_mul_basics(binom(p, 0));
        assert(binom_sum(x, p, 0) == 0);
        assert(binom_sum(x, p, 1) == 1);
    } else {
        let k1 = (k - 1) as nat;
        lemma_binom_sum_mod_prime(x, p, k1);
        lemma_prime_divides_binom(p, k1);
        let c = binom(p, k1);
        let j = c / m;
        lemma_fundamental_div_mod(c, m);
        let w = pow(x, k1);
        assert(c * w == m * (j * w)) by (nonlinear_arith)
            requires
                c == m * j,
        ;
        lemma_mod_multiples_vanish(j * w, binom_sum(x, p, k1), m);
    }
}

/// `(x + 1)^p == x^p + 1` modulo a prime `p`.
pub proof fn lemma_freshman_power(x: int, p: nat)
    requires
        is_prime(p as int),
    ensures
        pow(x + 1, p) % (p as int) == (pow(x, p) + 1) % (p as int),
{
    let m = p as int;
    lemma_binomial_theorem(x, p);
    lemma_binom_sum_mod_prime(x, p, p);
    lemma_binom_diagonal(p);
    let s = binom_sum(x, p, p);
    assert(binom_sum(x, p, p + 1) == s + pow(x, p));
    lemma_add_mod_noop(s, pow(x, p), m);
    lemma_add_mod_noop(1, pow(x, p), m);
    lemma_small_mod(1, p);
}

/// Fermat: `a^p == a` modulo a prime `p`, for every `a >= 0`.
pub proof fn lemma_fermat_power(a: nat, p: nat)
    requires
        is_prime(p as int),
    ensures
        pow(a as int, p) % (p as int) == (a as int) % (p as int),
    decreases a,
{
    let m = p as int;
    if a == 0 {
        lemma0_pow(p);
    } else {
        let a1 = (a - 1) as nat;
        lemma_fermat_power(a1, p);
        lemma_freshman_power(a1 as int, p);
        lemma_add_mod_noop(pow(a1 as int, p), 1, m);
        lemma_add_mod_noop(a1 as int, 1, m);
    }
}

/// Fermat's little theorem: `a^(p-1) == 1` modulo a prime `p`, for `0 < a < p`.
pub proof fn lemma_fermat_little(a: int, p: int)
    requires
        is_prime(p),
        0 < a < p,
    ensures
        pow(a, (p - 1) as nat) % p == 1,
{
    let e = (p - 1) as nat;
    let y = pow(a, e) % p;
    lemma_fermat_power(a as nat, p as nat);
    lemma_pow_succ(a, e);
    assert((e + 1) as nat == p as nat);
    lemma_mul_mod_noop_right(a, pow(a, e), p);
    lemma_small_mod(a as nat, p as nat);
    // a * y == a modulo p, so p divides a * (y - 1)
    let j = (a * y) / p;
    lemma_fundamental_div_mod(a * y, p);
    assert(a * (y - 1) == j * p) by (nonlinear_arith)
        requires
            a * y == p * j + a,
    ;
    lemma_mod_multiples_basic(j, p);
    lemma_prime_divides_product(p, a, y - 1);
    if y == 0 {
        assert((-1int) % p == p - 1);
    } else {
        lemma_small_mod((y - 1) as nat, p as nat);
    }
}

/// Euler's criterion gives `1` or `p - 1` modulo an odd prime `p` for every
/// `a` that `p` does not divide.
pub proof fn lemma_euler_plus_minus_one(a: int, p: int)
    requires
        is_prime(p),
        p % 2 == 1,
        a % p != 0,
    ensures
        pow(a % p, ((p - 1) / 2) as nat) % p == 1 || pow(a % p, ((p - 1) / 2) as nat) % p == p
            - 1,
{
    let h = ((p - 1) / 2) as nat;
    let b = a % p;
    let x = pow(b, h);
    lemma_pow_adds(b, h, h);
    assert(h + h == (p - 1) as nat);
    lemma_fermat_little(b, p);
    lemma_mul_mod_noop(x, x, p);
    lemma_prime_sqrt_one(p, x % p);
}

} // verus!
