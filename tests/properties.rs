use tonelli_rs::{
    find_quadratic_non_residue, legendre_symbol, pow_mod, square_roots, tonelli_shanks,
    tonelli_shanks_general,
};

const SMALL_PRIMES: [u64; 8] = [3, 5, 7, 11, 13, 17, 41, 97];

fn square_mod(r: u64, p: u64) -> u64 {
    ((r as u128 * r as u128) % p as u128) as u64
}

#[test]
fn round_trip_on_small_primes() {
    for &p in SMALL_PRIMES.iter() {
        for n in 0..(2 * p) {
            if let Some(r) = tonelli_shanks(n, p) {
                assert!(r < p);
                assert_eq!(square_mod(r, p), n % p);
            }
        }
    }
}

#[test]
fn round_trip_near_word_limit() {
    // the largest prime below 2^64; it is 1 modulo 4, so the general loop runs
    let p: u64 = 18446744073709551557;
    for &n in [4u64, 9, 123456789, u64::MAX, p - 1].iter() {
        if let Some(r) = tonelli_shanks(n, p) {
            assert_eq!(square_mod(r, p), n % p);
        }
    }
    let r = tonelli_shanks(4, p).unwrap();
    assert!(r == 2 || r == p - 2);
}

#[test]
fn pair_symmetry_on_small_primes() {
    for &p in SMALL_PRIMES.iter() {
        for n in 0..p {
            if let Some((lo, hi)) = square_roots(n, p) {
                assert!(lo <= hi);
                if n % p == 0 {
                    assert_eq!((lo, hi), (0, 0));
                } else {
                    assert_eq!(lo + hi, p);
                }
                assert_eq!(square_mod(lo, p), n % p);
                assert_eq!(square_mod(hi, p), n % p);
            }
        }
    }
}

#[test]
fn root_exists_iff_symbol_not_minus_one() {
    for &p in SMALL_PRIMES.iter() {
        for n in 0..p {
            let symbol = legendre_symbol(n, p);
            assert_eq!(tonelli_shanks(n, p).is_some(), symbol == 0 || symbol == 1);
        }
    }
}

#[test]
fn zero_exponent_gives_one() {
    for &m in [1u64, 2, 7, 1000, u64::MAX].iter() {
        for &x in [0u64, 1, 5, u64::MAX].iter() {
            assert_eq!(pow_mod(x, 0, m), 1);
        }
    }
}

#[test]
fn fast_path_matches_general_loop() {
    for &p in [3u64, 7, 11, 19, 23, 43, 1000000007].iter() {
        assert_eq!(p % 4, 3);
        for n in 1..60u64 {
            if legendre_symbol(n, p) == 1 {
                let closed = pow_mod(n, (p + 1) / 4, p);
                assert_eq!(tonelli_shanks_general(n, p), Some(closed));
                assert_eq!(tonelli_shanks(n, p), Some(closed));
            }
        }
    }
}

#[test]
fn general_loop_on_one_mod_four() {
    assert_eq!(tonelli_shanks_general(2, 17), Some(6));
    assert_eq!(tonelli_shanks_general(9, 17), Some(14));
    let r = tonelli_shanks_general(10, 13).unwrap();
    assert_eq!(square_mod(r, 13), 10);
}

#[test]
fn described_scenarios() {
    assert_eq!(pow_mod(2, 10, 1000), 24);
    assert_eq!(legendre_symbol(3, 7), -1);
    assert_eq!(legendre_symbol(2, 7), 1);
    assert_eq!(find_quadratic_non_residue(7), 3);
    assert_eq!(tonelli_shanks(2, 7), Some(4));
    assert_eq!(tonelli_shanks(3, 7), None);
    assert_eq!(square_roots(2, 7), Some((3, 4)));
    assert_eq!(square_roots(4, 7), Some((2, 5)));
    assert_eq!(tonelli_shanks(0, 7), Some(0));
}

#[test]
fn modulus_two() {
    assert_eq!(tonelli_shanks(5, 2), Some(1));
    assert_eq!(tonelli_shanks(8, 2), Some(0));
    assert_eq!(square_roots(5, 2), Some((1, 1)));
    assert_eq!(square_roots(8, 2), Some((0, 0)));
    assert_eq!(legendre_symbol(3, 2), 1);
}

#[test]
fn multiples_of_the_modulus() {
    assert_eq!(tonelli_shanks(34, 17), Some(0));
    assert_eq!(square_roots(0, 7), Some((0, 0)));
    assert_eq!(square_roots(14, 7), Some((0, 0)));
    assert_eq!(legendre_symbol(21, 7), 0);
}

#[test]
fn large_products_do_not_overflow() {
    let m = u64::MAX;
    assert_eq!(pow_mod(m - 1, 2, m), 1);
    assert_eq!(pow_mod(m - 1, 3, m), m - 1);
    assert_eq!(pow_mod(3, 5, 1), 0);
}

#[test]
fn non_residue_is_smallest() {
    assert_eq!(find_quadratic_non_residue(3), 2);
    assert_eq!(find_quadratic_non_residue(17), 3);
    assert_eq!(find_quadratic_non_residue(41), 3);
    assert_eq!(find_quadratic_non_residue(71), 7);
}

#[test]
fn reduced_inputs_above_the_modulus() {
    assert_eq!(tonelli_shanks(9, 7), tonelli_shanks(2, 7));
    assert_eq!(legendre_symbol(10, 7), -1);
    assert_eq!(square_roots(19, 17), Some((6, 11)));
}

#[test]
fn legendre_zero_only_on_multiples() {
    for &p in SMALL_PRIMES.iter() {
        for a in 0..(3 * p) {
            let symbol = legendre_symbol(a, p);
            assert_eq!(symbol == 0, a % p == 0);
            assert!(symbol == 0 || symbol == 1 || symbol == -1);
        }
    }
}
