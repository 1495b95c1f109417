//! Modular multiplicative inverses.
//!
//! The inverse of `number` modulo `modulo` is the `x` in `[0, modulo)` with
//! `number * x` congruent to 1. It exists exactly when the greatest common
//! divisor of the two is 1, and [`get_inverse`] reads it off the triple
//! `(g, x, y)` of the extended Euclidean algorithm on `(number, modulo)`.
//!
//! The divisor `g` of the triple carries a sign, so number and modulus are
//! coprime where `g` is 1 or -1. Then `number * (g * x)` is congruent to 1:
//! the coefficient is taken with the sign of `g`, and adding the modulus once
//! to a negative one brings it into range. A negative number is treated like
//! any other: it has the inverse of the residue that it is congruent to.
//!
//! A modulus that is zero or negative is rejected. Modulo 1 every number is
//! congruent to 0, and the inverse reported is 0.

use vstd::prelude::*;
use vstd::arithmetic::div_mod::{
    lemma_fundamental_div_mod, lemma_mod_multiples_vanish, lemma_small_mod,
};
use crate::error::InverseError;
use crate::euclid::{
    bezout, extended_euclidean_algorithm, is_gcd, lemma_bezout_bounds, lemma_bezout_identity,
    lemma_gcd_unique, signed_gcd,
};
use crate::trunc::{magnitude, trunc_rem};

verus! {

/// What is known of a number modulo a modulus.
#[derive(Clone, Copy, Debug, PartialEq, Eq, Structural)]
pub enum InverseResult {
    /// The number has an inverse: the residue held here, in `[0, modulo)`.
    Invertible(i32),
    /// The number has no inverse. Held here is the divisor that the extended
    /// Euclidean algorithm found for number and modulus, with its sign: its
    /// magnitude, their greatest common divisor, is not 1.
    NotInvertible(i32),
}

/// `x` is the inverse of `number` modulo `modulo`: the residue in
/// `[0, modulo)` whose product with `number` is congruent to 1. For a modulus
/// above 1 the product leaves the remainder 1 itself; modulo 1 it leaves 0,
/// as 1 does.
pub open spec fn is_inverse(x: int, number: int, modulo: int) -> bool {
    &&& 0 <= x < modulo
    &&& (number * x) % modulo == 1int % modulo
}

/// The representative in `[0, modulo)` of a coefficient `x` that lies in
/// `(-modulo, modulo)`.
pub open spec fn residue(x: int, modulo: int) -> int {
    if x < 0 {
        x + modulo
    } else {
        x
    }
}

/// A coefficient `c` of `number` in a combination of number and modulus that
/// makes 1 gives the inverse of `number`: its residue.
pub proof fn lemma_coefficient_is_inverse(c: int, y: int, number: int, modulo: int)
    requires
        modulo > 0,
        -modulo < c < modulo,
        number * c + modulo * y == 1,
    ensures
        is_inverse(residue(c, modulo), number, modulo),
{
    let rc = residue(c, modulo);
    let k = if c < 0 {
        number - y
    } else {
        -y
    };
    assert(number * rc == modulo * k + 1) by (nonlinear_arith)
        requires
            number * c + modulo * y == 1,
            rc == c + modulo && k == number - y || rc == c && k == -y,
    ;
    lemma_mod_multiples_vanish(k, 1, modulo);
}

/// Where the divisor `g` of the triple of `(number, modulo)` is 1 or -1, the
/// coefficient `x` of `number` is smaller in magnitude than the modulus, and
/// the residue of `g * x` is the inverse of `number`.
pub proof fn lemma_unit_divisor_gives_inverse(number: int, modulo: int)
    requires
        modulo > 0,
        magnitude(signed_gcd(number, modulo)) == 1,
    ensures
        -modulo < bezout(number, modulo).1 < modulo,
        signed_gcd(number, modulo) * bezout(number, modulo).1 == (if signed_gcd(number, modulo)
            == 1 {
            bezout(number, modulo).1
        } else {
            -bezout(number, modulo).1
        }),
        is_inverse(
            residue(signed_gcd(number, modulo) * bezout(number, modulo).1, modulo),
            number,
            modulo,
        ),
{
    let (g, x, y) = bezout(number, modulo);
    lemma_bezout_bounds(number, modulo);
    if trunc_rem(number, modulo) != 0 {
        assert(magnitude(x) * magnitude(g) == magnitude(x)) by (nonlinear_arith)
            requires
                magnitude(g) == 1,
        ;
    }
    lemma_bezout_identity(number, modulo);
    assert(g * x == (if g == 1 { x } else { -x }) && number * (g * x) + modulo * (g * y) == 1)
        by (nonlinear_arith)
        requires
            g == 1 || g == -1,
            number * x + modulo * y == g,
    ;
    lemma_coefficient_is_inverse(g * x, g * y, number, modulo);
}

/// A number has at most one inverse modulo a given modulus.
pub proof fn lemma_inverse_unique(x1: int, x2: int, number: int, modulo: int)
    requires
        is_inverse(x1, number, modulo),
        is_inverse(x2, number, modulo),
    ensures
        x1 == x2,
{
    let k1 = (number * x1) / modulo;
    let k2 = (number * x2) / modulo;
    lemma_fundamental_div_mod(number * x1, modulo);
    lemma_fundamental_div_mod(number * x2, modulo);
    if modulo > 1 {
        lemma_small_mod(1, modulo as nat);
        let t = k1 * x2 - k2 * x1;
        assert(x1 - x2 == modulo * t) by (nonlinear_arith)
            requires
                number * x1 == modulo * k1 + 1,
                number * x2 == modulo * k2 + 1,
                t == k1 * x2 - k2 * x1,
        ;
        assert(t == 0) by (nonlinear_arith)
            requires
                x1 - x2 == modulo * t,
                -modulo < x1 - x2 < modulo,
        ;
    }
}

/// What [`get_inverse`] returns on `(number, modulo)`, where `(g, x, y)` is
/// the triple of the two: the error for a modulus that is not positive, the
/// residue of `g * x` where `g` is 1 or -1, and `g` otherwise.
pub open spec fn inverse_of(number: int, modulo: int) -> Result<InverseResult, InverseError> {
    if modulo <= 0 {
        Err(InverseError::InvalidModulus)
    } else if magnitude(signed_gcd(number, modulo)) != 1 {
        Ok(InverseResult::NotInvertible(signed_gcd(number, modulo) as i32))
    } else {
        Ok(
            InverseResult::Invertible(
                residue(signed_gcd(number, modulo) * bezout(number, modulo).1, modulo) as i32,
            ),
        )
    }
}

/// Finds the inverse of `number` modulo `modulo`.
///
/// A modulus that is zero or negative is an error, and the only one: with a
/// positive modulus no step of the algorithm overflows. Otherwise the answer
/// is `Invertible` exactly when the greatest common divisor of number and
/// modulus is 1, whatever the sign of the number, and it holds the inverse.
/// Where the two are not coprime the answer is `NotInvertible`, with the
/// divisor that the algorithm found.
pub fn get_inverse(number: i32, modulo: i32) -> (res: Result<InverseResult, InverseError>)
    ensures
        res == inverse_of(number as int, modulo as int),
        res is Err <==> modulo <= 0,
        res matches Ok(InverseResult::Invertible(_)) <==> modulo > 0 && is_gcd(
            1,
            number as int,
            modulo as int,
        ),
        res matches Ok(InverseResult::NotInvertible(_)) <==> modulo > 0 && !is_gcd(
            1,
            number as int,
            modulo as int,
        ),
        res matches Ok(InverseResult::Invertible(x)) ==> {
            &&& is_inverse(x as int, number as int, modulo as int)
            &&& modulo > 1 ==> (number * x) % (modulo as int) == 1
        },
        res matches Ok(InverseResult::NotInvertible(g)) ==> {
            &&& g == signed_gcd(number as int, modulo as int)
            &&& is_gcd(magnitude(g as int), number as int, modulo as int)
        },
{
    if modulo <= 0 {
        return Err(InverseError::InvalidModulus);
    }
    let (g, x, _y): (i32, i32, i32) = match extended_euclidean_algorithm(number, modulo) {
        Ok(triple) => triple,
        Err(e) => {
            return Err(e);
        },
    };
    if g != 1 && g != -1 {
        proof {
            if is_gcd(1, number as int, modulo as int) {
                lemma_gcd_unique(1, magnitude(g as int), number as int, modulo as int);
            }
        }
        return Ok(InverseResult::NotInvertible(g));
    }
    proof {
        lemma_unit_divisor_gives_inverse(number as int, modulo as int);
        if modulo > 1 {
            lemma_small_mod(1, modulo as nat);
        }
    }
    let coefficient: i32 = if g == 1 {
        x
    } else {
        -x
    };
    if coefficient < 0 {
        Ok(InverseResult::Invertible(coefficient + modulo))
    } else {
        Ok(InverseResult::Invertible(coefficient))
    }
}

} // verus!
