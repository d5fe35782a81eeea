//! Facts of modular arithmetic used by the root-finding proofs.

use vstd::prelude::*;
use vstd::arithmetic::power::*;
use vstd::arithmetic::div_mod::*;
use vstd::arithmetic::mul::*;
use vstd::arithmetic::power2::*;

verus! {

/// `x^n mod m`, with the convention that the empty product is `1` for
/// every modulus.
pub open spec fn pow_mod_spec(x: int, n: nat, m: int) -> int {
    if n == 0 {
        1
    } else {
        pow(x, n) % m
    }
}

/// One more factor: `b^(e+1) == b * b^e`.
pub proof fn lemma_pow_succ(b: int, e: nat)
    ensures
        pow(b, e + 1) == b * pow(b, e),
{
    reveal(pow);
    assert(((e + 1) as nat - 1) as nat == e);
}

/// `x^n` split by the lowest bit of `n`: `x^n == x^(n mod 2) * (x*x)^(n/2)`.
pub proof fn lemma_pow_halve(x: int, n: nat)
    ensures
        pow(x, n) == (if n % 2 == 1 { x } else { 1 }) * pow(x * x, n / 2),
{
    let h = n / 2;
    lemma_square_is_pow2(x);
    lemma_pow_multiplies(x, 2, h);
    assert(pow(x * x, h) == pow(x, 2 * h));
    if n % 2 == 1 {
        assert(n == 2 * h + 1);
        lemma_pow_succ(x, 2 * h);
        assert((2 * h + 1) as nat == n);
    } else {
        assert(n == 2 * h);
    }
}

/// One step of square-and-multiply keeps `acc * x^n` unchanged modulo `m`.
pub proof fn lemma_square_multiply_step(acc: int, x: int, n: nat, m: int)
    requires
        m > 0,
    ensures
        ((if n % 2 == 1 { (acc * x) % m } else { acc }) * pow((x * x) % m, n / 2)) % m
            == (acc * pow(x, n)) % m,
{
    let b: int = if n % 2 == 1 { x } else { 1 };
    let acc2: int = if n % 2 == 1 { (acc * x) % m } else { acc };
    let h = n / 2;
    lemma_pow_halve(x, n);
    lemma_pow_mod_noop(x * x, h, m);
    assert(acc2 % m == (acc * b) % m) by {
        if n % 2 == 1 {
            lemma_mod_twice(acc * x, m);
        }
    }
    lemma_mul_mod_noop(acc2, pow((x * x) % m, h), m);
    lemma_mul_mod_noop(acc * b, pow(x * x, h), m);
    lemma_mul_is_associative(acc, b, pow(x * x, h));
}

/// `x` squared `k` times, reduced modulo `p` after each step; this is
/// `x^(2^k) mod p`.
pub open spec fn square_iter(x: int, k: nat, p: int) -> int
    decreases k,
{
    if k == 0 {
        x % p
    } else {
        let y = square_iter(x, (k - 1) as nat, p);
        (y * y) % p
    }
}

/// `p` is a prime number.
pub open spec fn is_prime(p: int) -> bool {
    &&& p > 1
    &&& forall|d: int| 1 < d < p ==> #[trigger] (p % d) != 0
}

/// Products of congruent factors are congruent.
pub proof fn lemma_mul_congruent(a: int, b: int, c: int, d: int, p: int)
    requires
        p > 0,
        a % p == b % p,
        c % p == d % p,
    ensures
        (a * c) % p == (b * d) % p,
{
    lemma_mul_mod_noop(a, c, p);
    lemma_mul_mod_noop(b, d, p);
}

/// `(p - 1)^2` is `1` modulo `p`.
pub proof fn lemma_minus_one_squared(p: int)
    requires
        p >= 2,
    ensures
        ((p - 1) * (p - 1)) % p == 1,
{
    assert((p - 1) * (p - 1) == p * (p - 2) + 1) by (nonlinear_arith);
    lemma_mod_multiples_vanish(p - 2, 1, p);
    lemma_small_mod(1, p as nat);
}

/// Odd powers of `p - 1` are `p - 1` modulo `p`, even ones are `1`.
pub proof fn lemma_pow_minus_one(p: int, k: nat)
    requires
        p >= 2,
    ensures
        pow(p - 1, k) % p == if k % 2 == 0 { 1 } else { p - 1 },
    decreases k,
{
    if k == 0 {
        lemma_pow0(p - 1);
        lemma_small_mod(1, p as nat);
    } else {
        let k1 = (k - 1) as nat;
        lemma_pow_minus_one(p, k1);
        lemma_pow_succ(p - 1, k1);
        assert(k1 + 1 == k);
        lemma_mul_mod_noop_right(p - 1, pow(p - 1, k1), p);
        if k1 % 2 == 0 {
            lemma_small_mod((p - 1) as nat, p as nat);
        } else {
            lemma_minus_one_squared(p);
        }
    }
}

/// A value of `square_iter` is already reduced.
pub proof fn lemma_square_iter_bound(x: int, k: nat, p: int)
    requires
        p > 0,
    ensures
        0 <= square_iter(x, k, p) < p,
    decreases k,
{
    if k > 0 {
        let y = square_iter(x, (k - 1) as nat, p);
        lemma_mod_bound(y * y, p);
    } else {
        lemma_mod_bound(x, p);
    }
}

/// Squaring `k` times is raising to the power `2^k`.
pub proof fn lemma_square_iter_pow(x: int, k: nat, p: int)
    requires
        p > 0,
    ensures
        square_iter(x, k, p) == pow(x, pow2(k)) % p,
    decreases k,
{
    if k == 0 {
        lemma_pow0(2);
        lemma_pow1(x);
    } else {
        let k1 = (k - 1) as nat;
        lemma_square_iter_pow(x, k1, p);
        let a = pow(x, pow2(k1));
        lemma_mul_mod_noop(a, a, p);
        lemma_square_is_pow2(a);
        lemma_pow_multiplies(x, pow2(k1), 2);
        lemma_pow2_unfold(k);
        assert(pow2(k1) * 2 == pow2(k));
    }
}

/// Squaring `k` times respects products.
pub proof fn lemma_square_iter_mul(x: int, y: int, k: nat, p: int)
    requires
        p > 0,
    ensures
        square_iter(x * y, k, p) == (square_iter(x, k, p) * square_iter(y, k, p)) % p,
    decreases k,
{
    if k == 0 {
        lemma_mul_mod_noop(x, y, p);
    } else {
        let k1 = (k - 1) as nat;
        lemma_square_iter_mul(x, y, k1, p);
        let a = square_iter(x, k1, p);
        let b = square_iter(y, k1, p);
        let c = square_iter(x * y, k1, p);
        lemma_mod_twice(a * b, p);
        lemma_mul_congruent(c, a * b, c, a * b, p);
        lemma_mod_twice(a * a, p);
        lemma_mod_twice(b * b, p);
        lemma_mul_congruent((a * a) % p, a * a, (b * b) % p, b * b, p);
        assert((a * b) * (a * b) == (a * a) * (b * b)) by (nonlinear_arith);
    }
}

/// Reducing before squaring changes nothing.
pub proof fn lemma_square_iter_mod(x: int, k: nat, p: int)
    requires
        p > 0,
    ensures
        square_iter(x % p, k, p) == square_iter(x, k, p),
    decreases k,
{
    if k == 0 {
        lemma_mod_twice(x, p);
    } else {
        lemma_square_iter_mod(x, (k - 1) as nat, p);
    }
}

/// Squaring `a` times and then `b` times is squaring `a + b` times.
pub proof fn lemma_square_iter_adds(x: int, a: nat, b: nat, p: int)
    requires
        p > 0,
    ensures
        square_iter(square_iter(x, a, p), b, p) == square_iter(x, a + b, p),
    decreases b,
{
    if b == 0 {
        lemma_square_iter_bound(x, a, p);
        lemma_small_mod(square_iter(x, a, p) as nat, p as nat);
    } else {
        lemma_square_iter_adds(x, a, (b - 1) as nat, p);
        assert((a + b - 1) as nat == a + (b - 1) as nat);
    }
}

/// Euclid's lemma: a prime that divides `a * b`, with `0 < a < p`, divides `b`.
pub proof fn lemma_prime_divides_product(p: int, a: int, b: int)
    requires
        is_prime(p),
        0 < a < p,
        (a * b) % p == 0,
    ensures
        b % p == 0,
    decreases a,
{
    if a != 1 {
        let a2 = p % a;
        let k = p / a;
        assert(p % a != 0);
        lemma_fundamental_div_mod(p, a);
        let j = (a * b) / p;
        lemma_fundamental_div_mod(a * b, p);
        assert(a2 * b == (b - k * j) * p) by (nonlinear_arith)
            requires
                p == a * k + a2,
                a * b == p * j,
        ;
        lemma_mod_multiples_basic(b - k * j, p);
        assert((a2 * b) % p == 0);
        assert(0 < a2 < a);
        lemma_prime_divides_product(p, a2, b);
    } else {
        lemma_mul_basics(b);
    }
}

/// Modulo a prime, the only square roots of `1` are `1` and `p - 1`.
pub proof fn lemma_prime_sqrt_one(p: int, x: int)
    requires
        is_prime(p),
        0 <= x < p,
        (x * x) % p == 1,
    ensures
        x == 1 || x == p - 1,
{
    if x != 1 && x != p - 1 {
        if x == 0 {
            assert(x * x == 0);
            lemma_small_mod(0, p as nat);
        } else {
            let j = (x * x) / p;
            lemma_fundamental_div_mod(x * x, p);
            assert((x - 1) * (x + 1) == j * p) by (nonlinear_arith)
                requires
                    x * x == p * j + 1,
            ;
            lemma_mod_multiples_basic(j, p);
            assert(((x - 1) * (x + 1)) % p == 0);
            lemma_prime_divides_product(p, x - 1, x + 1);
            lemma_small_mod((x + 1) as nat, p as nat);
        }
    }
}

/// The starting values of the general iteration: with `q` odd,
/// `r = x^((q+1)/2)` and `t = x^q` satisfy `r^2 == x * t` modulo `p`.
pub proof fn lemma_initial_root(x: int, q: nat, p: int)
    requires
        p > 0,
        q % 2 == 1,
    ensures
        ((pow(x, ((q + 1) / 2) as nat) % p) * (pow(x, ((q + 1) / 2) as nat) % p)) % p
            == (x * (pow(x, q) % p)) % p,
{
    let h = ((q + 1) / 2) as nat;
    let a = pow(x, h);
    lemma_pow_adds(x, h, h);
    assert(h + h == q + 1);
    lemma_pow_succ(x, q);
    lemma_mul_mod_noop(a, a, p);
    lemma_mul_mod_noop_right(x, pow(x, q), p);
}

/// One update of the general iteration keeps `r^2 == n * t` modulo `p`
/// when `r` is multiplied by `b` and `t` by `b^2`.
pub proof fn lemma_root_step(n: int, r: int, t: int, b: int, p: int)
    requires
        p > 0,
        (r * r) % p == (n * t) % p,
    ensures
        (((r * b) % p) * ((r * b) % p)) % p == (n * ((t * ((b * b) % p)) % p)) % p,
{
    let rb = (r * b) % p;
    let bb = (b * b) % p;
    lemma_mod_twice(r * b, p);
    lemma_mul_congruent(rb, r * b, rb, r * b, p);
    assert((r * b) * (r * b) == (r * r) * (b * b)) by (nonlinear_arith);
    lemma_mul_congruent(r * r, n * t, b * b, b * b, p);
    assert((n * t) * (b * b) == n * (t * (b * b))) by (nonlinear_arith);
    lemma_mod_twice(b * b, p);
    lemma_mul_congruent(t, t, bb, b * b, p);
    lemma_mod_twice(t * bb, p);
    lemma_mul_congruent(n, n, (t * bb) % p, t * (b * b), p);
}

/// `r` and `p - r` have the same square modulo `p`.
pub proof fn lemma_negate_square(r: int, p: int)
    requires
        p > 0,
    ensures
        ((p - r) * (p - r)) % p == (r * r) % p,
{
    assert((p - r) * (p - r) == p * (p - 2 * r) + r * r) by (nonlinear_arith);
    lemma_mod_multiples_vanish(p - 2 * r, r * r, p);
}

/// For `p mod 4 == 3`, the closed form `x^(p/4 + 1)` squares to `x` modulo
/// `p` whenever `x^((p-1)/2)` is `1`.
pub proof fn lemma_closed_form_squares(x: int, p: int)
    requires
        p >= 3,
        p % 4 == 3,
        0 <= x < p,
        pow(x, ((p - 1) / 2) as nat) % p == 1,
    ensures
        ((pow(x, (p / 4 + 1) as nat) % p) * (pow(x, (p / 4 + 1) as nat) % p)) % p == x,
{
    let q = ((p - 1) / 2) as nat;
    lemma_initial_root(x, q, p);
    assert(((q + 1) / 2) as nat == (p / 4 + 1) as nat);
    assert(x * 1 == x);
    lemma_small_mod(x as nat, p as nat);
}

} // verus!
