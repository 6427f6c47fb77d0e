use golomb_vanguard::primality::{is_prime_bpsw, miller_rabin_strong, strong_lucas_test};

#[test]
fn test_small_primes() {
    let primes = [2, 3, 5, 7, 11, 13, 97, 7919];
    for &p in &primes {
        assert!(is_prime_bpsw(p), "{} should be prime", p);
    }
}

#[test]
fn test_small_composites() {
    let composites = [4u64, 6, 9, 15, 21, 35];
    for &c in &composites {
        assert!(!is_prime_bpsw(c), "{} should be composite", c);
    }
}

#[test]
fn test_carmichael_numbers() {
    let carmichaels = [561u64, 1105, 1729];
    for &c in &carmichaels {
        assert!(!is_prime_bpsw(c), "Carmichael {} should be composite", c);
    }
}

#[test]
fn test_large_prime() {
    assert!(is_prime_bpsw(4_294_967_291));
}

#[test]
fn test_edge_cases() {
    assert!(!is_prime_bpsw(0));
    assert!(!is_prime_bpsw(1));
    assert!(is_prime_bpsw(2));
    assert!(is_prime_bpsw(3));
}

#[test]
fn test_pseudoprime_base_2() {
    assert!(!is_prime_bpsw(2047));
    assert!(!is_prime_bpsw(1_373_653));
}

#[test]
fn test_more_primes() {
    let primes = [
        101, 103, 107, 109, 113, 127, 131, 137, 139, 149, 997, 1009, 1013, 1019, 65537,
    ];
    for &p in &primes {
        assert!(is_prime_bpsw(p), "{} should be prime", p);
    }
}

#[test]
fn test_more_composites() {
    let composites = [49, 77, 91, 121, 143, 169, 221, 323, 999, 1001, 3215031751];
    for &c in &composites {
        assert!(!is_prime_bpsw(c), "{} should be composite", c);
    }
}

#[test]
fn test_miller_rabin_base2_strong_pseudoprimes() {
    assert!(!is_prime_bpsw(2047));
    assert!(!is_prime_bpsw(3277));
    assert!(!is_prime_bpsw(4033));
    assert!(!is_prime_bpsw(4681));
}

#[test]
fn miller_rabin_base_two_passes_its_pseudoprimes() {
    assert!(miller_rabin_strong(2047, 2));
    assert!(miller_rabin_strong(3277, 2));
    assert!(!miller_rabin_strong(2047, 3));
    assert!(!miller_rabin_strong(561, 2));
    assert!(miller_rabin_strong(7919, 2));
    assert!(miller_rabin_strong(4_294_967_291, 7));
}

#[test]
fn strong_lucas_rejects_base_two_pseudoprimes() {
    for &c in &[2047u64, 3277, 4033, 4681, 1_373_653] {
        assert!(!strong_lucas_test(c), "{} should fail the Lucas test", c);
    }
    for &p in &[101u64, 7919, 65537, 4_294_967_291] {
        assert!(strong_lucas_test(p), "{} should pass the Lucas test", p);
    }
}

#[test]
fn strong_lucas_catches_a_square() {
    assert!(!strong_lucas_test(9));
    assert!(!strong_lucas_test(25));
    assert!(!strong_lucas_test(10_201));
}

#[test]
fn bpsw_on_primes_above_trial_range() {
    let primes = [101u64, 1_000_003, 998_244_353, 2_147_483_647];
    for &p in &primes {
        assert!(is_prime_bpsw(p), "{} should be prime", p);
    }
    let composites = [10_403u64, 1_000_001, 2_147_483_649, 4_294_967_297];
    for &c in &composites {
        assert!(!is_prime_bpsw(c), "{} should be composite", c);
    }
}

#[test]
fn miller_rabin_accepts_every_odd_prime() {
    let limit = 5000usize;
    let mut sieve = vec![true; limit];
    sieve[0] = false;
    sieve[1] = false;
    for i in 2..limit {
        if sieve[i] {
            let mut j = i * i;
            while j < limit {
                sieve[j] = false;
                j += i;
            }
        }
    }
    for p in 3..limit {
        if sieve[p] {
            for base in [2u64, 3, 5, 10, 1234] {
                if base % p as u64 != 0 {
                    assert!(miller_rabin_strong(p as u64, base), "{} should pass base {}", p, base);
                }
            }
        }
    }
}

#[test]
fn bpsw_agrees_with_a_sieve() {
    let limit = 20000usize;
    let mut sieve = vec![true; limit];
    sieve[0] = false;
    sieve[1] = false;
    for i in 2..limit {
        if sieve[i] {
            let mut j = i * i;
            while j < limit {
                sieve[j] = false;
                j += i;
            }
        }
    }
    for n in 0..limit {
        assert_eq!(is_prime_bpsw(n as u64), sieve[n], "n={}", n);
    }
}

#[test]
fn bpsw_above_two_to_the_63() {
    assert!(is_prime_bpsw(18446744073709551557));
    assert!(is_prime_bpsw(9223372036854775783));
    assert!(!is_prime_bpsw(18446743979220271189));
    assert!(!is_prime_bpsw(18446744073709551615));
    assert!(!is_prime_bpsw(18446744073709551556));
    assert!(strong_lucas_test(18446744073709551557));
    assert!(miller_rabin_strong(18446744073709551557, 2));
}
