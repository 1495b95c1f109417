use modular_inverse::error::InverseError;
use modular_inverse::inverse::{get_inverse, InverseResult};

#[test]
fn three_modulo_seven() {
    assert_eq!(get_inverse(3, 7), Ok(InverseResult::Invertible(5)));
}

#[test]
fn four_modulo_eight() {
    assert_eq!(get_inverse(4, 8), Ok(InverseResult::NotInvertible(4)));
}

#[test]
fn minus_three_modulo_seven() {
    // -3 * 2 = -6, one above -7.
    assert_eq!(get_inverse(-3, 7), Ok(InverseResult::Invertible(2)));
}

#[test]
fn one_modulo_one() {
    assert_eq!(get_inverse(1, 1), Ok(InverseResult::Invertible(0)));
}

#[test]
fn everything_modulo_one_has_inverse_zero() {
    for n in [-7, -1, 0, 1, 2, 100, i32::MAX, i32::MIN] {
        assert_eq!(get_inverse(n, 1), Ok(InverseResult::Invertible(0)));
    }
}

#[test]
fn ten_modulo_seventeen() {
    assert_eq!(get_inverse(10, 17), Ok(InverseResult::Invertible(12)));
}

#[test]
fn negative_coefficient_is_raised_by_the_modulus() {
    // The coefficient of 3 for (3, 7) is -2.
    assert_eq!(get_inverse(3, 7), Ok(InverseResult::Invertible(-2 + 7)));
    // The coefficient of 5 for (5, 3) is -1.
    assert_eq!(get_inverse(5, 3), Ok(InverseResult::Invertible(2)));
}

#[test]
fn zero_has_no_inverse_above_modulus_one() {
    assert_eq!(get_inverse(0, 5), Ok(InverseResult::NotInvertible(5)));
}

#[test]
fn zero_modulus_is_rejected() {
    assert_eq!(get_inverse(1, 0), Err(InverseError::InvalidModulus));
    assert_eq!(get_inverse(-1, 0), Err(InverseError::InvalidModulus));
    assert_eq!(get_inverse(6, 0), Err(InverseError::InvalidModulus));
}

#[test]
fn negative_modulus_is_rejected() {
    assert_eq!(get_inverse(3, -7), Err(InverseError::InvalidModulus));
    assert_eq!(get_inverse(i32::MIN, -1), Err(InverseError::InvalidModulus));
    assert_eq!(get_inverse(-1, i32::MIN), Err(InverseError::InvalidModulus));
}

#[test]
fn positive_modulus_never_fails() {
    for n in [i32::MIN, i32::MIN + 1, -1, 0, 1, i32::MAX] {
        for m in [1, 2, 3, i32::MAX - 1, i32::MAX] {
            assert!(get_inverse(n, m).is_ok(), "n = {n}, m = {m}");
        }
    }
}

#[test]
fn reported_inverse_multiplies_to_one() {
    for m in 2i32..=60 {
        for n in -120i32..=120 {
            if let Ok(InverseResult::Invertible(x)) = get_inverse(n, m) {
                assert!(0 <= x && x < m, "n = {n}, m = {m}");
                assert_eq!((n * x).rem_euclid(m), 1, "n = {n}, m = {m}");
            }
        }
    }
}

#[test]
fn inverse_of_large_numbers() {
    let m = i32::MAX; // a prime
    for n in [2, 3, 65_537, i32::MAX - 1, -1, -5, i32::MIN + 2, i32::MIN] {
        match get_inverse(n, m) {
            Ok(InverseResult::Invertible(x)) => {
                assert!(0 <= x && x < m);
                assert_eq!((i64::from(n) * i64::from(x)).rem_euclid(i64::from(m)), 1);
            }
            other => panic!("n = {n}: {other:?}"),
        }
    }
    assert_eq!(get_inverse(2, i32::MAX), Ok(InverseResult::Invertible(1_073_741_824)));
    assert_eq!(get_inverse(-1, i32::MAX), Ok(InverseResult::Invertible(i32::MAX - 1)));
    assert_eq!(get_inverse(i32::MAX, i32::MAX), Ok(InverseResult::NotInvertible(i32::MAX)));
    assert_eq!(get_inverse(-i32::MAX, i32::MAX), Ok(InverseResult::NotInvertible(i32::MAX)));
}

#[test]
fn numbers_that_are_not_negative_are_invertible_exactly_when_coprime() {
    fn gcd(a: i32, b: i32) -> i32 {
        if b == 0 { a } else { gcd(b, a % b) }
    }
    for m in 1i32..=60 {
        for n in 0i32..=120 {
            let coprime = gcd(n, m) == 1;
            match get_inverse(n, m).unwrap() {
                InverseResult::Invertible(_) => assert!(coprime, "n = {n}, m = {m}"),
                InverseResult::NotInvertible(g) => {
                    assert!(!coprime, "n = {n}, m = {m}");
                    assert_eq!(g, gcd(n, m));
                }
            }
        }
    }
}

#[test]
fn not_invertible_carries_the_signed_divisor() {
    assert_eq!(get_inverse(-4, 8), Ok(InverseResult::NotInvertible(-4)));
    assert_eq!(get_inverse(6, 9), Ok(InverseResult::NotInvertible(3)));
    assert_eq!(get_inverse(12, 4), Ok(InverseResult::NotInvertible(4)));
}

#[test]
fn divisor_minus_one_still_gives_the_inverse() {
    // The triples are (-1, 1, 0), (-1, 1, 0) and (-1, 2, 1).
    assert_eq!(get_inverse(-1, 2), Ok(InverseResult::Invertible(1)));
    assert_eq!(get_inverse(-1, 5), Ok(InverseResult::Invertible(4)));
    assert_eq!(get_inverse(-3, 5), Ok(InverseResult::Invertible(3)));
}

#[test]
fn divisor_one_on_a_negative_number() {
    assert_eq!(get_inverse(-2, 5), Ok(InverseResult::Invertible(2)));
    assert_eq!(get_inverse(-3, 7), Ok(InverseResult::Invertible(2)));
}

#[test]
fn negative_number_has_the_inverse_of_its_residue() {
    for m in 1i32..=40 {
        for n in -80i32..0 {
            match (get_inverse(n, m), get_inverse(n.rem_euclid(m), m)) {
                (Ok(InverseResult::Invertible(x)), Ok(InverseResult::Invertible(z))) => {
                    assert_eq!(x, z, "n = {n}, m = {m}");
                }
                (Ok(InverseResult::NotInvertible(g)), Ok(InverseResult::NotInvertible(h))) => {
                    assert_eq!(g.abs(), h, "n = {n}, m = {m}");
                }
                other => panic!("n = {n}, m = {m}: {other:?}"),
            }
        }
    }
}

#[test]
fn numbers_of_either_sign_are_invertible_exactly_when_coprime() {
    fn gcd(a: i32, b: i32) -> i32 {
        if b == 0 { a.abs() } else { gcd(b, a % b) }
    }
    for m in 1i32..=40 {
        for n in -80i32..=80 {
            let coprime = gcd(n, m) == 1;
            match get_inverse(n, m).unwrap() {
                InverseResult::Invertible(x) => {
                    assert!(coprime, "n = {n}, m = {m}");
                    assert!(0 <= x && x < m, "n = {n}, m = {m}");
                    assert_eq!((n * x).rem_euclid(m), 1 % m, "n = {n}, m = {m}");
                }
                InverseResult::NotInvertible(g) => {
                    assert!(!coprime, "n = {n}, m = {m}");
                    assert_eq!(g.abs(), gcd(n, m), "n = {n}, m = {m}");
                }
            }
        }
    }
}

#[test]
fn same_inputs_same_answer() {
    for (n, m) in [(3, 7), (4, 8), (-3, 7), (1, 1), (5, 0), (5, -3)] {
        assert_eq!(get_inverse(n, m), get_inverse(n, m));
    }
}
