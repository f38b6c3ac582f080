use group::const_utils::{const_gcd, const_totient};
use group::utils::{euclidean, euler_totient, extended_euclidean, mod_inv};

#[test]
fn const_utils_gcd() {
    assert_eq!(const_gcd(3, 7), 1);
    assert_eq!(const_gcd(3, 6), 3);

    assert_eq!(const_gcd(27, 121), 1);
    assert_eq!(const_gcd(12009, 512384), 4003);
}

#[test]
fn const_utils_phi() {
    assert_eq!(const_totient(7), 6);
    assert_eq!(const_totient(19), 18);

    assert_eq!(const_totient(4), 2);
    assert_eq!(const_totient(24), 8);
    assert_eq!(const_totient(10), 4);
}

#[test]
fn utils_gcd() {
    assert_eq!(euclidean(3, 7), 1);
    assert_eq!(euclidean(3, 6), 3);

    assert_eq!(euclidean(27, 121), 1);
    assert_eq!(euclidean(12009, 512384), 4003);

    assert_eq!(euclidean(-30, 12), -6);
}

#[test]
fn bezout() {
    assert_eq!(extended_euclidean(15, 69), (-9, 2, 3));

    assert_eq!(extended_euclidean(-30, 12), (1, 2, -6));
}

#[test]
fn inverse() {
    assert_eq!(mod_inv(8, 26), None);
    assert_eq!(mod_inv(7, 26), Some(15));
    assert_eq!(mod_inv(4, 9), Some(7));
    assert_eq!(mod_inv(4, 19), Some(5));
}

#[test]
fn utils_phi() {
    assert_eq!(euler_totient(7), 6);
    assert_eq!(euler_totient(19), 18);

    assert_eq!(euler_totient(4), 2);
    assert_eq!(euler_totient(24), 8);
    assert_eq!(euler_totient(10), 4);
}

#[test]
fn gcd_with_zero() {
    assert_eq!(const_gcd(0, 0), 0);
    assert_eq!(const_gcd(0, 9), 9);
    assert_eq!(const_gcd(9, 0), 9);
    assert_eq!(euclidean(0, 0), 0);
    assert_eq!(euclidean(0, -9), -9);
    assert_eq!(euclidean(-9, 0), -9);
}

#[test]
fn euclidean_sign_follows_the_remainders() {
    assert_eq!(euclidean(30, -12), 6);
    assert_eq!(euclidean(-30, -12), -6);
    assert_eq!(euclidean(12, -30), -6);
    assert_eq!(euclidean(-12, 30), 6);
}

#[test]
fn euclidean_at_the_edge_of_the_range() {
    assert_eq!(euclidean(isize::MIN, 1), 1);
    assert_eq!(euclidean(isize::MIN, 2), 2);
    assert_eq!(euclidean(isize::MIN, isize::MIN), isize::MIN);
    assert_eq!(euclidean(isize::MAX, isize::MIN), -1);
    assert_eq!(euclidean(1, isize::MIN), 1);
}

#[test]
fn extended_euclidean_with_zero() {
    assert_eq!(extended_euclidean(7, 0), (1, 0, 7));
    assert_eq!(extended_euclidean(0, 7), (0, 1, 7));
    assert_eq!(extended_euclidean(0, 0), (1, 0, 0));
    assert_eq!(extended_euclidean(-7, 0), (1, 0, -7));
}

#[test]
fn bezout_identity_holds() {
    let samples: [isize; 11] = [-69, -30, -12, -1, 0, 1, 7, 12, 15, 69, 512384];
    for &a in samples.iter() {
        for &b in samples.iter() {
            let (x, y, g) = extended_euclidean(a, b);
            assert_eq!(a * x + b * y, g);
            assert_eq!(g, euclidean(a, b));
            assert_eq!(g.unsigned_abs(), const_gcd(a.unsigned_abs(), b.unsigned_abs()));
        }
    }
}

#[test]
fn bezout_identity_holds_for_large_inputs() {
    let a: isize = isize::MAX;
    let b: isize = isize::MAX - 1;
    let (x, y, g) = extended_euclidean(a, b);
    assert_eq!(g, 1);
    assert_eq!((a as i128) * (x as i128) + (b as i128) * (y as i128), 1);
    let (x, y, g) = extended_euclidean(-isize::MAX, 4_000_000_007);
    assert_eq!(
        (-isize::MAX as i128) * (x as i128) + 4_000_000_007i128 * (y as i128),
        g as i128
    );
}

#[test]
fn inverse_multiplies_to_one() {
    for n in 1usize..60 {
        for a in 0usize..(2 * n) {
            match mod_inv(a, n) {
                Some(x) => {
                    assert!(x < n);
                    assert_eq!((a * x) % n, 1 % n);
                    assert_eq!(const_gcd(a, n), 1);
                }
                None => assert_ne!(const_gcd(a, n), 1),
            }
        }
    }
}

#[test]
fn inverse_round_trip() {
    for n in 1usize..60 {
        for a in 0usize..n {
            if let Some(x) = mod_inv(a, n) {
                assert_eq!(mod_inv(x, n), Some(a));
            }
        }
    }
    assert_eq!(mod_inv(33, 26), Some(15));
    assert_eq!(mod_inv(15, 26), Some(7));
}

#[test]
fn inverse_modulo_one() {
    assert_eq!(mod_inv(0, 1), Some(0));
    assert_eq!(mod_inv(5, 1), Some(0));
}

#[test]
fn inverse_for_a_large_modulus() {
    let n: usize = isize::MAX as usize;
    let x = mod_inv(2, n).unwrap();
    assert_eq!(((2u128 * x as u128) % n as u128) as usize, 1);
    assert_eq!(mod_inv(7, n), None);
}

#[test]
fn totients_agree() {
    for n in 2usize..400 {
        assert_eq!(euler_totient(n), const_totient(n));
    }
    assert_eq!(euler_totient(0), 0);
    assert_eq!(const_totient(0), 0);
}

#[test]
fn totient_counts_coprime_residues() {
    for n in 2usize..200 {
        let count = (1..n).filter(|&v| const_gcd(v, n) == 1).count();
        assert_eq!(euler_totient(n), count);
    }
}

#[test]
fn totient_of_one() {
    assert_eq!(euler_totient(1), 1);
    assert_eq!(const_totient(1), 0);
}

#[test]
fn totient_of_prime_powers_and_products() {
    assert_eq!(euler_totient(2), 1);
    assert_eq!(euler_totient(8), 4);
    assert_eq!(euler_totient(81), 54);
    assert_eq!(euler_totient(97), 96);
    assert_eq!(euler_totient(360), 96);
    assert_eq!(euler_totient(1_000_000_007), 1_000_000_006);
    assert_eq!(euler_totient(4_294_967_296), 2_147_483_648);
}

#[test]
fn totient_near_the_top_of_the_range() {
    assert_eq!(euler_totient(usize::MAX), 9_208_981_628_670_443_520);
}
