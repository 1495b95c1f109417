//! The extended Euclidean algorithm.
//!
//! For two integers `a` and `b` the algorithm finds `g`, `x` and `y` with
//! `a*x + b*y == g`, where `g` is a greatest common divisor of `a` and `b`.
//! [`bezout`] defines the three numbers over mathematical integers, the
//! lemmas of this module say what holds of them, and
//! [`extended_euclidean_algorithm`] computes them over `i32`.
//!
//! # Sign of the divisor
//!
//! Division rounds towards zero, so remainders take the sign of the dividend
//! and `g` takes the sign of the operand on which the recursion ends: its
//! magnitude is the greatest common divisor, it is non-negative when both
//! inputs are, and negating both inputs negates `g` and keeps `x` and `y`.

use vstd::prelude::*;
use vstd::arithmetic::div_mod::lemma_div_basics_1;
use crate::error::InverseError;
use crate::trunc::{
    lemma_trunc_div_rem, lemma_trunc_fits_i32, magnitude, trunc_div, trunc_rem,
};

verus! {

/// The triple `(g, x, y)` of the extended Euclidean algorithm on `(a, b)`.
///
/// On `(a, 0)` it is `(a, 1, 0)`. Otherwise it is built from the triple
/// `(g, x1, y1)` of `(b, a rem b)` as `(g, y1, x1 - (a div b) * y1)`, with
/// division rounded towards zero.
pub open spec fn bezout(a: int, b: int) -> (int, int, int)
    decreases magnitude(b),
{
    if b == 0 {
        (a, 1, 0)
    } else {
        proof {
            lemma_trunc_div_rem(a, b);
        }
        let (g, x1, y1) = bezout(b, trunc_rem(a, b));
        (g, y1, x1 - trunc_div(a, b) * y1)
    }
}

/// The first component of [`bezout`]: the divisor with its sign.
pub open spec fn signed_gcd(a: int, b: int) -> int {
    bezout(a, b).0
}

/// `d` divides `n`: some multiple of `d` is `n`.
pub open spec fn divides(d: int, n: int) -> bool {
    exists|k: int| n == #[trigger] (d * k)
}

/// `g` is the greatest common divisor of `a` and `b`: it is not negative, it
/// divides both, and every common divisor divides it.
pub open spec fn is_gcd(g: int, a: int, b: int) -> bool {
    &&& g >= 0
    &&& divides(g, a)
    &&& divides(g, b)
    &&& forall|d: int| divides(d, a) && divides(d, b) ==> #[trigger] divides(d, g)
}

/// The inputs on which a quotient of the recursion leaves `i32`: the most
/// negative number is divided by `-1`, at the first step or at the second.
pub open spec fn quotient_overflows(a: int, b: int) -> bool {
    (a == i32::MIN && b == -1) || (a == -1 && b == i32::MIN)
}

/// Bézout's identity: the triple `(g, x, y)` of `(a, b)` satisfies
/// `a*x + b*y == g`.
pub proof fn lemma_bezout_identity(a: int, b: int)
    ensures
        a * bezout(a, b).1 + b * bezout(a, b).2 == bezout(a, b).0,
    decreases magnitude(b),
{
    if b != 0 {
        let r = trunc_rem(a, b);
        let q = trunc_div(a, b);
        let (g, x1, y1) = bezout(b, r);
        lemma_trunc_div_rem(a, b);
        lemma_bezout_identity(b, r);
        assert(a * y1 + b * (x1 - q * y1) == g) by (nonlinear_arith)
            requires
                a == q * b + r,
                b * x1 + r * y1 == g,
        ;
    }
}

/// The divisor of the triple divides both inputs.
pub proof fn lemma_gcd_divides_inputs(a: int, b: int)
    ensures
        divides(signed_gcd(a, b), a),
        divides(signed_gcd(a, b), b),
    decreases magnitude(b),
{
    let g = signed_gcd(a, b);
    if b == 0 {
        assert(a == g * 1);
        assert(b == g * 0);
    } else {
        let r = trunc_rem(a, b);
        let q = trunc_div(a, b);
        lemma_trunc_div_rem(a, b);
        lemma_gcd_divides_inputs(b, r);
        let kb = choose|k: int| b == #[trigger] (g * k);
        let kr = choose|k: int| r == #[trigger] (g * k);
        assert(a == g * (q * kb + kr)) by (nonlinear_arith)
            requires
                a == q * b + r,
                b == g * kb,
                r == g * kr,
        ;
    }
}

/// Every common divisor of the inputs divides the divisor of the triple.
pub proof fn lemma_common_divisor_divides_gcd(a: int, b: int, d: int)
    requires
        divides(d, a),
        divides(d, b),
    ensures
        divides(d, signed_gcd(a, b)),
{
    let (g, x, y) = bezout(a, b);
    lemma_bezout_identity(a, b);
    let ka = choose|k: int| a == #[trigger] (d * k);
    let kb = choose|k: int| b == #[trigger] (d * k);
    assert(g == d * (ka * x + kb * y)) by (nonlinear_arith)
        requires
            a * x + b * y == g,
            a == d * ka,
            b == d * kb,
    ;
}

/// Divisibility does not depend on the sign of either side.
pub proof fn lemma_divides_magnitude(d: int, n: int)
    requires
        divides(d, n),
    ensures
        divides(magnitude(d), n),
        divides(d, magnitude(n)),
{
    let k = choose|k: int| n == #[trigger] (d * k);
    assert(n == (-d) * (-k) && -n == d * (-k)) by (nonlinear_arith)
        requires
            n == d * k,
    ;
    assert(n == magnitude(d) * (if d >= 0 { k } else { -k }));
    assert(magnitude(n) == d * (if n >= 0 { k } else { -k }));
}

/// The magnitude of the divisor of the triple is the greatest common divisor
/// of the inputs.
pub proof fn lemma_gcd_is_greatest(a: int, b: int)
    ensures
        is_gcd(magnitude(signed_gcd(a, b)), a, b),
{
    let g = signed_gcd(a, b);
    lemma_gcd_divides_inputs(a, b);
    lemma_divides_magnitude(g, a);
    lemma_divides_magnitude(g, b);
    assert forall|d: int| divides(d, a) && divides(d, b) implies #[trigger] divides(
        d,
        magnitude(g),
    ) by {
        lemma_common_divisor_divides_gcd(a, b, d);
        lemma_divides_magnitude(d, g);
    }
}

/// At most one number is the greatest common divisor of `a` and `b`.
pub proof fn lemma_gcd_unique(g1: int, g2: int, a: int, b: int)
    requires
        is_gcd(g1, a, b),
        is_gcd(g2, a, b),
    ensures
        g1 == g2,
{
    assert(divides(g1, g2));
    assert(divides(g2, g1));
    let k = choose|k: int| g2 == #[trigger] (g1 * k);
    let l = choose|l: int| g1 == #[trigger] (g2 * l);
    assert(g1 == g2) by (nonlinear_arith)
        requires
            g1 >= 0,
            g2 >= 0,
            g2 == g1 * k,
            g1 == g2 * l,
    ;
}

/// On inputs that are not negative the divisor of the triple is not negative:
/// it is the greatest common divisor itself.
pub proof fn lemma_gcd_of_nonnegative(a: int, b: int)
    requires
        a >= 0,
        b >= 0,
    ensures
        signed_gcd(a, b) >= 0,
        is_gcd(signed_gcd(a, b), a, b),
    decreases b,
{
    if b != 0 {
        lemma_trunc_div_rem(a, b);
        lemma_gcd_of_nonnegative(b, trunc_rem(a, b));
    }
    lemma_gcd_is_greatest(a, b);
}

/// Negating both inputs negates the divisor and keeps the coefficients.
pub proof fn lemma_bezout_negated(a: int, b: int)
    ensures
        bezout(-a, -b) == (-bezout(a, b).0, bezout(a, b).1, bezout(a, b).2),
    decreases magnitude(b),
{
    if b != 0 {
        lemma_trunc_div_rem(a, b);
        lemma_bezout_negated(b, trunc_rem(a, b));
        assert(trunc_rem(-a, -b) == -trunc_rem(a, b));
        assert(trunc_div(-a, -b) == trunc_div(a, b)) by {
            if a == 0 {
                lemma_div_basics_1(magnitude(b));
            }
        }
    }
}

/// How large the coefficients can be, for a divisor `b` that is not zero.
///
/// Where `b` divides `a`, the triple is `(b, 0, 1)`. Otherwise twice the
/// product of `x` and `g` is at most `b` in magnitude, and twice the product
/// of `y` and `g` at most `a`.
pub proof fn lemma_bezout_bounds(a: int, b: int)
    requires
        b != 0,
    ensures
        signed_gcd(a, b) != 0,
        trunc_rem(a, b) == 0 ==> bezout(a, b) == (b, 0int, 1int),
        trunc_rem(a, b) != 0 ==> 2 * (magnitude(bezout(a, b).1) * magnitude(signed_gcd(a, b)))
            <= magnitude(b),
        trunc_rem(a, b) != 0 ==> 2 * (magnitude(bezout(a, b).2) * magnitude(signed_gcd(a, b)))
            <= magnitude(a),
    decreases magnitude(b),
{
    let r = trunc_rem(a, b);
    let q = trunc_div(a, b);
    lemma_trunc_div_rem(a, b);
    if r != 0 {
        let (g, x1, y1) = bezout(b, r);
        let y = x1 - q * y1;
        lemma_bezout_bounds(b, r);
        lemma_trunc_div_rem(b, r);
        let (ma, mb, mr, mq, mg) = (
            magnitude(a),
            magnitude(b),
            magnitude(r),
            magnitude(q),
            magnitude(g),
        );
        if trunc_rem(b, r) == 0 {
            let mq2 = magnitude(trunc_div(b, r));
            assert(2 * (1 * mr) <= mb) by (nonlinear_arith)
                requires
                    mb == mq2 * mr,
                    0 < mr < mb,
                    mq2 >= 0,
            ;
            assert(magnitude(y) == mq);
            assert(2 * (mq * mr) <= ma) by (nonlinear_arith)
                requires
                    ma == mq * mb + mr,
                    2 * mr <= mb,
                    mr >= 0,
                    mq >= 0,
            ;
        } else {
            let (mx1, my1) = (magnitude(x1), magnitude(y1));
            assert(magnitude(y) <= mx1 + mq * my1) by (nonlinear_arith)
                requires
                    y == x1 - q * y1,
                    mx1 == magnitude(x1),
                    my1 == magnitude(y1),
                    mq == magnitude(q),
            ;
            assert(2 * (magnitude(y) * mg) <= ma) by (nonlinear_arith)
                requires
                    0 <= magnitude(y) <= mx1 + mq * my1,
                    2 * (mx1 * mg) <= mr,
                    2 * (my1 * mg) <= mb,
                    ma == mq * mb + mr,
                    mq >= 0,
                    mg >= 0,
            ;
        }
    } else {
        let y1 = bezout(b, r).2;
        assert(bezout(b, r) == (b, 1int, 0int));
        assert(q * y1 == 0) by (nonlinear_arith)
            requires
                y1 == 0,
        ;
    }
}

/// On `i32` inputs whose quotients fit, every number of one step of the
/// recursion fits too: the product of the quotient and the inner `y`, and
/// the difference that becomes the new `y`.
proof fn lemma_step_fits_i32(a: int, b: int)
    requires
        i32::MIN <= a <= i32::MAX,
        i32::MIN <= b <= i32::MAX,
        b != 0,
        !quotient_overflows(a, b),
    ensures
        !quotient_overflows(b, trunc_rem(a, b)),
        i32::MIN <= trunc_div(a, b) * bezout(b, trunc_rem(a, b)).2 <= i32::MAX,
        i32::MIN <= bezout(a, b).2 <= i32::MAX,
{
    let r = trunc_rem(a, b);
    let q = trunc_div(a, b);
    let (g, x1, y1) = bezout(b, r);
    let y = x1 - q * y1;
    lemma_trunc_div_rem(a, b);
    lemma_trunc_fits_i32(a, b);
    lemma_bezout_bounds(a, b);
    if r != 0 {
        lemma_bezout_bounds(b, r);
        lemma_trunc_div_rem(b, r);
        let (mg, mx1, my) = (magnitude(g), magnitude(x1), magnitude(y));
        if trunc_rem(b, r) == 0 {
            assert(mx1 * mg == 0) by (nonlinear_arith)
                requires
                    mx1 == 0,
            ;
        }
        assert(2 * mx1 <= magnitude(r) && 2 * my <= magnitude(a)) by (nonlinear_arith)
            requires
                mg >= 1,
                mx1 >= 0,
                my >= 0,
                2 * (mx1 * mg) <= magnitude(r),
                2 * (my * mg) <= magnitude(a),
        ;
    } else {
        assert(q * y1 == 0) by (nonlinear_arith)
            requires
                y1 == 0,
        ;
    }
}

/// What [`extended_euclidean_algorithm`] returns on `(a, b)`: the triple of
/// [`bezout`], or the error where a quotient overflows.
pub open spec fn solve(a: int, b: int) -> Result<(i32, i32, i32), InverseError> {
    if quotient_overflows(a, b) {
        Err(InverseError::ArithmeticOverflow)
    } else {
        Ok((bezout(a, b).0 as i32, bezout(a, b).1 as i32, bezout(a, b).2 as i32))
    }
}

/// Solves `a*x + b*y == g` for a greatest common divisor `g` of `a` and `b`,
/// and returns `(g, x, y)`: the triple that [`bezout`] defines.
///
/// The result depends on the two inputs alone. It is an error on exactly two
/// inputs, `(i32::MIN, -1)` and `(-1, i32::MIN)`, where the recursion has to
/// divide `i32::MIN` by `-1`; on every other input each intermediate number
/// fits in `i32`. The magnitude of `g` is the greatest common divisor; see
/// the module's head for its sign.
pub fn extended_euclidean_algorithm(a: i32, b: i32) -> (res: Result<
    (i32, i32, i32),
    InverseError,
>)
    ensures
        res == solve(a as int, b as int),
        res is Err <==> quotient_overflows(a as int, b as int),
        res matches Ok((g, x, y)) ==> (g as int, x as int, y as int) == bezout(
            a as int,
            b as int,
        ),
        res matches Ok((g, x, y)) ==> a * x + b * y == g,
        res matches Ok((g, x, y)) ==> is_gcd(magnitude(g as int), a as int, b as int),
    decreases magnitude(b as int),
{
    proof {
        lemma_bezout_identity(a as int, b as int);
        lemma_gcd_is_greatest(a as int, b as int);
    }
    if b == 0 {
        return Ok((a, 1, 0));
    }
    proof {
        lemma_trunc_div_rem(a as int, b as int);
        lemma_trunc_fits_i32(a as int, b as int);
    }
    let (q, r): (i32, i32) = match (a.checked_div(b), a.checked_rem(b)) {
        (Some(q), Some(r)) => (q, r),
        _ => {
            return Err(InverseError::ArithmeticOverflow);
        },
    };
    assert(q == trunc_div(a as int, b as int));
    assert(r == trunc_rem(a as int, b as int));
    let (g, x1, y1): (i32, i32, i32) = match extended_euclidean_algorithm(b, r) {
        Ok(inner) => inner,
        Err(e) => {
            return Err(e);
        },
    };
    proof {
        lemma_step_fits_i32(a as int, b as int);
    }
    let y: i32 = match q.checked_mul(y1) {
        Some(product) => match x1.checked_sub(product) {
            Some(y) => y,
            None => {
                return Err(InverseError::ArithmeticOverflow);
            },
        },
        None => {
            return Err(InverseError::ArithmeticOverflow);
        },
    };
    Ok((g, y1, y))
}

} // verus!
