//! Division that rounds towards zero, over mathematical integers.
//!
//! Machine division on signed integers rounds the quotient towards zero and
//! gives the remainder the sign of the dividend. Division on `int` is
//! Euclidean instead, so the two operations are modelled here by
//! [`trunc_div`] and [`trunc_rem`], with the facts that the Euclidean
//! recursion needs of them.

use vstd::prelude::*;
use vstd::arithmetic::div_mod::{
    lemma_div_pos_is_pos, lemma_fundamental_div_mod, lemma_mod_pos_bound,
};

verus! {

/// The absolute value of `v`.
pub open spec fn magnitude(v: int) -> int {
    if v >= 0 {
        v
    } else {
        -v
    }
}

/// The quotient of `a` by `b`, rounded towards zero.
pub open spec fn trunc_div(a: int, b: int) -> int
    recommends
        b != 0,
{
    if (a >= 0) == (b >= 0) {
        magnitude(a) / magnitude(b)
    } else {
        -(magnitude(a) / magnitude(b))
    }
}

/// The remainder that goes with [`trunc_div`]: it has the sign of `a`.
pub open spec fn trunc_rem(a: int, b: int) -> int
    recommends
        b != 0,
{
    if a >= 0 {
        magnitude(a) % magnitude(b)
    } else {
        -(magnitude(a) % magnitude(b))
    }
}

/// Quotient and remainder rebuild the dividend, the remainder is smaller in
/// magnitude than the divisor, and no cancellation occurs between the two
/// summands: the magnitudes add up as well.
pub proof fn lemma_trunc_div_rem(a: int, b: int)
    requires
        b != 0,
    ensures
        a == trunc_div(a, b) * b + trunc_rem(a, b),
        magnitude(trunc_rem(a, b)) < magnitude(b),
        magnitude(a) == magnitude(trunc_div(a, b)) * magnitude(b) + magnitude(trunc_rem(a, b)),
        a >= 0 ==> trunc_rem(a, b) >= 0,
        a <= 0 ==> trunc_rem(a, b) <= 0,
{
    let ma = magnitude(a);
    let mb = magnitude(b);
    let q = ma / mb;
    let r = ma % mb;
    lemma_fundamental_div_mod(ma, mb);
    lemma_mod_pos_bound(ma, mb);
    lemma_div_pos_is_pos(ma, mb);
    assert(ma == q * mb + r) by (nonlinear_arith)
        requires
            ma == mb * q + r,
    ;
    assert(a == trunc_div(a, b) * b + trunc_rem(a, b)) by (nonlinear_arith)
        requires
            ma == q * mb + r,
            ma == magnitude(a),
            mb == magnitude(b),
            trunc_div(a, b) == (if (a >= 0) == (b >= 0) { q } else { -q }),
            trunc_rem(a, b) == (if a >= 0 { r } else { -r }),
    ;
}

/// On `i32` operands the quotient leaves `i32` on one input only, the most
/// negative number divided by `-1`, and the remainder never does.
pub proof fn lemma_trunc_fits_i32(a: int, b: int)
    requires
        i32::MIN <= a <= i32::MAX,
        i32::MIN <= b <= i32::MAX,
        b != 0,
    ensures
        i32::MIN <= trunc_rem(a, b) <= i32::MAX,
        i32::MIN <= trunc_div(a, b) <= i32::MAX + 1,
        trunc_div(a, b) == i32::MAX + 1 <==> a == i32::MIN && b == -1,
{
    let q = trunc_div(a, b);
    let r = trunc_rem(a, b);
    let (ma, mb, mq, mr) = (magnitude(a), magnitude(b), magnitude(q), magnitude(r));
    lemma_trunc_div_rem(a, b);
    assert(mq <= ma && (mq == ma ==> mq == 0 || mb == 1)) by (nonlinear_arith)
        requires
            ma == mq * mb + mr,
            mb >= 1,
            mq >= 0,
            mr >= 0,
    ;
    if mb == 1 {
        assert(q * b == (if b == 1 { q } else { -q })) by (nonlinear_arith)
            requires
                b == 1 || b == -1,
        ;
    }
}

} // verus!
