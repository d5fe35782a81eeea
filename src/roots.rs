//! Modular power, Legendre symbol, non-residue search and square roots.

use vstd::prelude::*;
use vstd::arithmetic::power::*;
use vstd::arithmetic::div_mod::*;
use vstd::arithmetic::power2::*;
use vstd::bits::{lemma_u64_pow2_no_overflow, lemma_u64_shl_is_mul};
use crate::fermat::lemma_euler_plus_minus_one;
use crate::arith::{
    is_prime, lemma_closed_form_squares, lemma_initial_root, lemma_minus_one_squared, lemma_negate_square, lemma_pow_minus_one,
    lemma_prime_sqrt_one, lemma_root_step, lemma_square_iter_adds, lemma_square_iter_bound,
    lemma_square_iter_mod, lemma_square_iter_mul, lemma_square_iter_pow,
    lemma_square_multiply_step, pow_mod_spec, square_iter,
};

verus! {

/// `(a * b) mod p`, formed in `u128` so that the product cannot overflow.
fn mul_mod(a: u64, b: u64, p: u64) -> (r: u64)
    requires
        p > 0,
    ensures
        r as int == (a as int * b as int) % (p as int),
        r < p,
{
    assert(a as int * b as int <= u64::MAX as int * u64::MAX as int) by (nonlinear_arith);
    ((a as u128 * b as u128) % p as u128) as u64
}

/// Modular exponentiation `x^n mod p` by square-and-multiply.
///
/// An exponent of `0` gives `1` whatever the base and modulus.
pub fn pow_mod(x: u64, n: u64, p: u64) -> (r: u64)
    requires
        p > 0,
    ensures
        r as int == pow_mod_spec(x as int, n as nat, p as int),
        n == 0 ==> r == 1,
        n > 0 ==> r < p,
{
    let mut result: u64 = 1;
    let mut base: u64 = x % p;
    let mut e: u64 = n;
    proof {
        lemma_pow_mod_noop(x as int, n as nat, p as int);
        lemma_pow0(base as int);
    }
    while e > 0
        invariant
            p > 0,
            base < p,
            result < p || (result == 1 && (e > 0 || n == 0)),
            e <= n,
            n == 0 ==> result == 1,
            (result * pow(base as int, e as nat)) % (p as int) == pow(x as int, n as nat) % (p as int),
        decreases e,
    {
        proof {
            lemma_square_multiply_step(result as int, base as int, e as nat, p as int);
        }
        assert(e & 1 == 1 <==> e % 2 == 1) by (bit_vector);
        assert(e >> 1 == e / 2) by (bit_vector);
        if e & 1 == 1 {
            result = mul_mod(result, base, p);
        }
        base = mul_mod(base, base, p);
        e = e >> 1;
    }
    proof {
        lemma_pow0(base as int);
        assert(result * pow(base as int, e as nat) == result);
        if n > 0 {
            lemma_small_mod(result as nat, p as nat);
        }
    }
    result
}

/// Euler's criterion for `a` modulo `p`: `0` when `p` divides `a`, `1` when
/// `a^((p-1)/2) mod p` is `1`, `-1` when it is `p - 1`, and `0` for any other
/// value (which no prime modulus produces).
pub open spec fn legendre_spec(a: int, p: int) -> int {
    if a % p == 0 {
        0
    } else if pow_mod_spec(a % p, ((p - 1) / 2) as nat, p) == 1 {
        1
    } else if pow_mod_spec(a % p, ((p - 1) / 2) as nat, p) == p - 1 {
        -1
    } else {
        0
    }
}

/// `z` is the smallest value in `[2, p)` whose Legendre symbol is `-1`.
pub open spec fn is_first_non_residue(z: int, p: int) -> bool {
    &&& 2 <= z < p
    &&& legendre_spec(z, p) == -1
    &&& forall|y: int| 2 <= y < z ==> legendre_spec(y, p) != -1
}

/// Some value in `[2, p)` has Legendre symbol `-1` modulo `p`.
pub open spec fn has_non_residue(p: int) -> bool {
    exists|z: int| 2 <= z < p && legendre_spec(z, p) == -1
}

/// The Legendre symbol `(a/p)` by Euler's criterion: `1` for a nonzero
/// quadratic residue, `-1` for a non-residue, `0` when `p` divides `a`.
///
/// For a modulus that is not prime the power may be neither `1` nor `p - 1`;
/// the result is then `0`.
pub fn legendre_symbol(a: u64, p: u64) -> (r: i32)
    requires
        p > 0,
    ensures
        r as int == legendre_spec(a as int, p as int),
        is_prime(p as int) && p % 2 == 1 ==> (r == 0 <==> a % p == 0),
{
    proof {
        if is_prime(p as int) && p % 2 == 1 {
            lemma_legendre_prime(a as int, p as int);
        }
    }
    let a_mod_p = a % p;
    if a_mod_p == 0 {
        return 0;
    }
    let result = pow_mod(a_mod_p, (p - 1) / 2, p);
    if result == 1 {
        1
    } else if result == p - 1 {
        -1
    } else {
        0
    }
}

/// Scans `[2, p)` upward for the first value with Legendre symbol `-1`.
fn first_non_residue(p: u64) -> (r: Option<u64>)
    requires
        p > 0,
    ensures
        r matches Some(z) ==> is_first_non_residue(z as int, p as int),
        r is None ==> !has_non_residue(p as int),
{
    let mut z: u64 = 2;
    while z < p
        invariant
            p > 0,
            2 <= z,
            forall|y: int| 2 <= y < z ==> legendre_spec(y, p as int) != -1,
        decreases p - z,
    {
        if legendre_symbol(z, p) == -1 {
            return Some(z);
        }
        z = z + 1;
    }
    None
}

/// The smallest quadratic non-residue modulo `p` in `[2, p)`.
///
/// One exists for every odd prime; the caller supplies a modulus for which
/// it does.
pub fn find_quadratic_non_residue(p: u64) -> (r: u64)
    requires
        p > 0,
        has_non_residue(p as int),
    ensures
        is_first_non_residue(r as int, p as int),
{
    first_non_residue(p).unwrap()
}

/// `r` is a square root of `n` modulo `p`, in reduced form.
pub open spec fn is_root(r: int, n: int, p: int) -> bool {
    &&& 0 <= r < p
    &&& (r * r) % p == n % p
}

/// The closed form `n^((p+1)/4) mod p`, a square root of every nonzero
/// quadratic residue when `p mod 4 == 3`.
pub open spec fn closed_form_root(n: int, p: int) -> int {
    pow_mod_spec(n % p, ((p + 1) / 4) as nat, p)
}

/// `p - 1 == q * 2^s` with `q` odd and `s < 64`, and when `p mod 4 == 3`
/// this gives `s == 1`.
fn split_even_part(p: u64) -> (res: (u64, u64))
    requires
        p >= 3,
        p % 2 == 1,
    ensures
        res.0 % 2 == 1,
        res.0 <= p - 1,
        res.0 * pow2(res.1 as nat) == p - 1,
        1 <= res.1 < 64,
        p % 4 == 3 ==> res.1 == 1 && res.0 == (p - 1) / 2,
{
    let mut s: u64 = 0;
    let mut q: u64 = p - 1;
    proof {
        lemma_pow2_unfold(1);
        lemma_pow0(2);
    }
    while q % 2 == 0
        invariant
            p >= 3,
            p % 2 == 1,
            1 <= q <= p - 1,
            q * pow2(s as nat) == p - 1,
            s < 64,
            s == 0 ==> q == p - 1,
            p % 4 == 3 ==> (s == 0 && q == p - 1) || (s == 1 && q == (p - 1) / 2),
        decreases q,
    {
        proof {
            lemma_pow2_unfold((s + 1) as nat);
            let h = q / 2;
            assert(h * pow2((s + 1) as nat) == q * pow2(s as nat)) by (nonlinear_arith)
                requires
                    q == 2 * h,
                    pow2((s + 1) as nat) == 2 * pow2(s as nat),
            ;
            assert(pow2((s + 1) as nat) <= p - 1) by (nonlinear_arith)
                requires
                    h >= 1,
                    h * pow2((s + 1) as nat) == p - 1,
            ;
            if s + 1 >= 64 {
                lemma2_to64();
                assert(pow2(64) > u64::MAX);
            }
        }
        q = q / 2;
        s = s + 1;
    }
    (q, s)
}

/// The general Tonelli-Shanks iteration, for an odd modulus `p >= 3` and an
/// `n` whose Legendre symbol is `1`.
///
/// Any value returned is a square root of `n`. When `p mod 4 == 3` the
/// iteration ends at once with the closed form `n^((p+1)/4) mod p`. For a
/// prime `p` with a non-residue in `[2, p)` a root is always found; the
/// result is `None` only when the search for a non-residue fails, or when
/// `t` is found not to be a `2^(m-1)`-th root of unity, which a prime
/// modulus rules out.
pub fn tonelli_shanks_general(n: u64, p: u64) -> (res: Option<u64>)
    requires
        p >= 3,
        p % 2 == 1,
        legendre_spec(n as int, p as int) == 1,
    ensures
        res matches Some(r) ==> is_root(r as int, n as int, p as int),
        p % 4 == 3 ==> res == Some(closed_form_root(n as int, p as int) as u64),
        is_prime(p as int) && has_non_residue(p as int) ==> res is Some,
{
    let n_mod_p = n % p;
    let (q, s) = split_even_part(p);
    proof {
        lemma_mod_twice(n as int, p as int);
        lemma_pow2_unfold(s as nat);
        let half = pow2((s - 1) as nat);
        assert((p - 1) / 2 == q * half) by (nonlinear_arith)
            requires
                q * (2 * half) == p - 1,
        ;
        if p % 4 == 3 {
            let k = ((p - 1) / 2) as nat;
            lemma_pow_minus_one(p as int, k);
            lemma_small_mod((p - 1) as nat, p as nat);
            assert(legendre_spec((p - 1) as int, p as int) == -1);
        }
    }
    let z = match first_non_residue(p) {
        Some(z) => z,
        None => {
            return None;
        },
    };
    let mut c = pow_mod(z, q, p);
    let mut r = pow_mod(n_mod_p, (q + 1) / 2, p);
    let mut t = pow_mod(n_mod_p, q, p);
    let mut m = s;
    let ghost prime = is_prime(p as int);
    let ghost r0 = r;
    proof {
        let e = ((p - 1) / 2) as nat;
        let half = pow2((s - 1) as nat);
        lemma_initial_root(n_mod_p as int, q as nat, p as int);
        // t squared s - 1 times is n^((p-1)/2), which is 1.
        lemma_square_iter_mod(pow(n_mod_p as int, q as nat), (s - 1) as nat, p as int);
        lemma_square_iter_pow(pow(n_mod_p as int, q as nat), (s - 1) as nat, p as int);
        lemma_pow_multiplies(n_mod_p as int, q as nat, half);
        // c squared s - 1 times is z^((p-1)/2), which is p - 1.
        lemma_square_iter_mod(pow(z as int, q as nat), (s - 1) as nat, p as int);
        lemma_square_iter_pow(pow(z as int, q as nat), (s - 1) as nat, p as int);
        lemma_pow_multiplies(z as int, q as nat, half);
        lemma_small_mod(z as nat, p as nat);
        lemma_small_mod(t as nat, p as nat);
        assert(e == q * half);
    }
    while t != 1
        invariant
            p >= 3,
            r < p,
            t < p,
            c < p,
            1 <= m <= s < 64,
            n_mod_p == n % p,
            (r * r) % (p as int) == (n_mod_p * t) % (p as int),
            prime == is_prime(p as int),
            prime ==> square_iter(t as int, (m - 1) as nat, p as int) == 1,
            prime ==> square_iter(c as int, (m - 1) as nat, p as int) == p - 1,
            p % 4 == 3 ==> t == 1 && r == r0,
        decreases m,
    {
        let mut tt = t;
        let mut i: u64 = 0;
        proof {
            lemma_small_mod(t as nat, p as nat);
        }
        while tt != 1
            invariant
                p >= 3,
                t < p,
                1 <= m < 64,
                i < m,
                t != 1,
                p % 4 == 3 ==> t == 1,
                prime == is_prime(p as int),
                tt as int == square_iter(t as int, i as nat, p as int),
                i > 0 ==> square_iter(t as int, (i - 1) as nat, p as int) != 1,
                prime ==> square_iter(t as int, (m - 1) as nat, p as int) == 1,
            decreases m - i,
        {
            proof {
                lemma_square_iter_bound(t as int, i as nat, p as int);
            }
            tt = mul_mod(tt, tt, p);
            i = i + 1;
            if i == m {
                return None;
            }
        }
        let e = m - i - 1;
        proof {
            lemma_u64_pow2_no_overflow(e as nat);
            lemma_u64_shl_is_mul(1, e);
        }
        let b = pow_mod(c, 1u64 << e, p);
        let b2 = mul_mod(b, b, p);
        proof {
            lemma_square_iter_pow(c as int, e as nat, p as int);
            lemma_root_step(n_mod_p as int, r as int, t as int, b as int, p as int);
            assert(b2 == square_iter(c as int, (e + 1) as nat, p as int));
            if prime {
                let x = square_iter(t as int, (i - 1) as nat, p as int);
                lemma_square_iter_bound(t as int, (i - 1) as nat, p as int);
                lemma_prime_sqrt_one(p as int, x);
                let k = (i - 1) as nat;
                lemma_square_iter_mod(t * b2, k, p as int);
                lemma_square_iter_mul(t as int, b2 as int, k, p as int);
                lemma_square_iter_adds(c as int, (e + 1) as nat, k, p as int);
                assert((e + 1) as nat + k == (m - 1) as nat);
                lemma_minus_one_squared(p as int);
            }
        }
        r = mul_mod(r, b, p);
        t = mul_mod(t, b2, p);
        c = b2;
        m = i;
    }
    Some(r)
}

/// The inputs on which a square root is owed: `p == 2`, `p` divides `n`, or
/// `n` has Legendre symbol `1` and either `p mod 4 == 3` or `p` is a prime
/// with a non-residue in `[2, p)`.
pub open spec fn root_is_owed(n: int, p: int) -> bool {
    ||| p == 2
    ||| n % p == 0
    ||| legendre_spec(n, p) == 1 && (p % 4 == 3 || (is_prime(p) && has_non_residue(p)))
}

/// The inputs on which no square root is reported: an odd modulus that does
/// not divide `n`, where the Legendre symbol of `n` is not `1`.
pub open spec fn root_is_absent(n: int, p: int) -> bool {
    &&& p != 2
    &&& n % p != 0
    &&& legendre_spec(n, p) != 1
}

/// One square root of `n` modulo `p` by the Tonelli-Shanks algorithm, or
/// `None` when `n` is not a quadratic residue.
///
/// `p == 2` gives `n mod 2`, a multiple of `p` gives `0`, and for
/// `p mod 4 == 3` the result is the closed form `n^((p+1)/4) mod p`. An even
/// modulus other than `2` is not allowed.
pub fn tonelli_shanks(n: u64, p: u64) -> (res: Option<u64>)
    requires
        p == 2 || p % 2 == 1,
    ensures
        res matches Some(r) ==> is_root(r as int, n as int, p as int),
        p == 2 ==> res == Some((n % 2) as u64),
        p != 2 && n % p == 0 ==> res == Some(0u64),
        root_is_absent(n as int, p as int) ==> res is None,
        root_is_owed(n as int, p as int) ==> res is Some,
        p % 4 == 3 && legendre_spec(n as int, p as int) == 1 ==> res == Some(
            closed_form_root(n as int, p as int) as u64,
        ),
{
    if p == 2 {
        return Some(n % 2);
    }
    let n_mod_p = n % p;
    if n_mod_p == 0 {
        return Some(0);
    }
    proof {
        lemma_mod_twice(n as int, p as int);
    }
    if legendre_symbol(n_mod_p, p) != 1 {
        return None;
    }
    if p % 4 == 3 {
        let r = pow_mod(n_mod_p, p / 4 + 1, p);
        proof {
            lemma_closed_form_squares(n_mod_p as int, p as int);
        }
        return Some(r);
    }
    tonelli_shanks_general(n_mod_p, p)
}

/// Both square roots of `n` modulo `p` in ascending order, or `None` when
/// `n` is not a quadratic residue.
///
/// The roots are `r` and `(p - r) mod p` for the root `r` that
/// `tonelli_shanks` finds; they sum to `p`, except when `p` divides `n` and
/// both are `0`.
pub fn square_roots(n: u64, p: u64) -> (res: Option<(u64, u64)>)
    requires
        p == 2 || p % 2 == 1,
    ensures
        res matches Some((lo, hi)) ==> {
            &&& lo <= hi
            &&& is_root(lo as int, n as int, p as int)
            &&& is_root(hi as int, n as int, p as int)
            &&& if n % p == 0 {
                lo == 0 && hi == 0
            } else {
                lo + hi == p
            }
        },
        root_is_absent(n as int, p as int) ==> res is None,
        root_is_owed(n as int, p as int) ==> res is Some,
{
    match tonelli_shanks(n, p) {
        None => None,
        Some(r) => {
            let r2 = (p - r) % p;
            proof {
                if r > 0 {
                    lemma_small_mod((p - r) as nat, p as nat);
                    lemma_negate_square(r as int, p as int);
                } else {
                    lemma_mod_self_0(p as int);
                    lemma_small_mod(0, p as nat);
                    assert(r as int * r as int == 0) by (nonlinear_arith)
                        requires
                            r == 0,
                    ;
                }
                assert(is_root(r2 as int, n as int, p as int));
            }
            if r < r2 {
                Some((r, r2))
            } else {
                Some((r2, r))
            }
        },
    }
}

/// For `p == 2`, and for an odd prime `p` with a non-residue in `[2, p)`,
/// a square root of `n` is owed exactly when the Legendre symbol of `n` is
/// `0` or `1`, and none is reported exactly when it is `-1`.
pub proof fn lemma_root_presence(n: int, p: int)
    requires
        n >= 0,
        p == 2 || (p % 2 == 1 && is_prime(p) && has_non_residue(p)),
    ensures
        root_is_owed(n, p) <==> (legendre_spec(n, p) == 0 || legendre_spec(n, p) == 1),
        root_is_absent(n, p) <==> legendre_spec(n, p) == -1,
{
    if p == 2 {
        if n % 2 != 0 {
            lemma_pow0(n % 2);
        }
    } else {
        lemma_legendre_prime(n, p);
    }
}

/// Modulo an odd prime the Legendre symbol is `0` exactly on multiples of
/// `p` (elsewhere it is therefore `1` or `-1`).
pub proof fn lemma_legendre_prime(a: int, p: int)
    requires
        is_prime(p),
        p % 2 == 1,
    ensures
        legendre_spec(a, p) == 0 <==> a % p == 0,
{
    if a % p != 0 {
        lemma_euler_plus_minus_one(a, p);
    }
}

} // verus!
