use bagalstreatcrab::number_theory::{gcd_u128, inverse_mod_u128, is_prime_u128};

#[test]
fn gcd_of_small_numbers() {
    assert_eq!(gcd_u128(0, 0), 0);
    assert_eq!(gcd_u128(0, 9), 9);
    assert_eq!(gcd_u128(9, 0), 9);
    assert_eq!(gcd_u128(12, 18), 6);
    assert_eq!(gcd_u128(18, 12), 6);
    assert_eq!(gcd_u128(17, 5), 1);
    assert_eq!(gcd_u128(128, 256), 128);
    assert_eq!(gcd_u128(3, 256), 1);
    assert_eq!(gcd_u128(u128::MAX, u128::MAX - 1), 1);
}

#[test]
fn inverse_modulo() {
    assert_eq!(inverse_mod_u128(3, 7), 5);
    assert_eq!(inverse_mod_u128(5, 7), 3);
    assert_eq!(inverse_mod_u128(1, 2), 1);
    assert_eq!(inverse_mod_u128(6, 7), 6);
    assert_eq!(inverse_mod_u128(7, 10), 3);
    assert_eq!(inverse_mod_u128(3, 1 << 64), 12297829382473034411);
    for m in 2u128..60 {
        for a in 1..m {
            if gcd_u128(a, m) == 1 {
                let x = inverse_mod_u128(a, m);
                assert!(x < m);
                assert_eq!((a * x) % m, 1);
            }
        }
    }
}

#[test]
fn primality() {
    let primes = [2u128, 3, 5, 7, 11, 13, 97, 65521];
    for p in primes {
        assert!(is_prime_u128(p));
    }
    for c in [0u128, 1, 4, 6, 9, 91, 65535] {
        assert!(!is_prime_u128(c));
    }
}
