//! Truncating division on signed integers and the remainder sequence that the
//! Euclidean algorithm walks.
//!
//! Machine division of signed integers rounds towards zero, so a remainder
//! carries the sign of its dividend. The specifications here describe that
//! operation on mathematical integers, the sequence of remainders it
//! produces, and the cofactors that the extended algorithm keeps beside it.
use crate::divisibility::{gcd, lemma_gcd_step, lemma_gcd_zero};
use vstd::arithmetic::div_mod::{lemma_fundamental_div_mod, lemma_mod_bound};
use vstd::math::abs;
use vstd::prelude::*;

verus! {

/// The quotient of `a` by `b`, rounded towards zero: the quotient of the
/// magnitude of `a`, with the sign of `a` put back.
pub open spec fn trunc_div(a: int, b: int) -> int {
    if a >= 0 {
        a / b
    } else {
        -((-a) / b)
    }
}

/// The remainder that goes with `trunc_div`: it has the sign of `a`.
pub open spec fn trunc_rem(a: int, b: int) -> int {
    if a >= 0 {
        a % b
    } else {
        -((-a) % b)
    }
}

/// The last non-zero term of the remainder sequence that starts with `a`, `b`
/// (or `a` itself when `b` is zero). Its magnitude is `gcd(a, b)`; its sign is
/// whatever the truncating remainders leave.
pub open spec fn remainder_sequence_end(a: int, b: int) -> int
    decreases abs(b),
    via remainder_sequence_decreases
{
    if b == 0 {
        a
    } else {
        remainder_sequence_end(b, trunc_rem(a, b))
    }
}

#[via_fn]
proof fn remainder_sequence_decreases(a: int, b: int) {
    if b != 0 {
        lemma_trunc_div_rem(a, b);
    }
}

/// The cofactors `(x, y)` that the extended Euclidean algorithm ends with:
/// `a * x + b * y == remainder_sequence_end(a, b)`.
pub open spec fn bezout_coefficients(a: int, b: int) -> (int, int)
    decreases abs(b),
    via bezout_coefficients_decreases
{
    if b == 0 {
        (1, 0)
    } else {
        let c = bezout_coefficients(b, trunc_rem(a, b));
        (c.1, c.0 - trunc_div(a, b) * c.1)
    }
}

#[via_fn]
proof fn bezout_coefficients_decreases(a: int, b: int) {
    if b != 0 {
        lemma_trunc_div_rem(a, b);
    }
}

/// Two numbers of which one is non-negative and the other non-positive
/// (`alternating`), or which are both non-negative or both non-positive.
spec fn sign_pattern(alternating: bool, u: int, v: int) -> bool {
    if alternating {
        (u >= 0 && v <= 0) || (u <= 0 && v >= 0)
    } else {
        (u >= 0 && v >= 0) || (u <= 0 && v <= 0)
    }
}

/// Division of a non-negative number by a non-zero one of either sign.
proof fn lemma_div_rem_of_magnitude(n: int, b: int)
    requires
        n >= 0,
        b != 0,
    ensures
        n == (n / b) * b + n % b,
        0 <= n % b < abs(b),
        abs(n / b) <= n,
        abs(n / b) * abs(b) == (n / b) * b,
        b > 0 ==> n / b >= 0,
        b < 0 ==> n / b <= 0,
{
    let q = n / b;
    let r = n % b;
    lemma_fundamental_div_mod(n, b);
    if b > 0 {
        lemma_mod_bound(n, b);
    }
    assert(0 <= r < abs(b));
    assert(n == q * b + r && (b > 0 ==> q >= 0 && q <= n && q * b == q * b) && (b < 0 ==> q <= 0
        && -q <= n)) by (nonlinear_arith)
        requires
            n == b * q + r,
            0 <= r,
            b > 0 ==> r < b,
            b < 0 ==> r < -b,
            b != 0,
            n >= 0,
    ;
    assert(abs(q) * abs(b) == q * b) by (nonlinear_arith)
        requires
            (b > 0 && q >= 0) || (b < 0 && q <= 0),
            abs(q) == (if q < 0 { -q } else { q }),
            abs(b) == (if b < 0 { -b } else { b }),
    ;
}

/// What truncating division guarantees of its quotient and remainder.
pub proof fn lemma_trunc_div_rem(a: int, b: int)
    requires
        b != 0,
    ensures
        a == trunc_div(a, b) * b + trunc_rem(a, b),
        abs(trunc_rem(a, b)) < abs(b),
        abs(trunc_rem(a, b)) == abs(a) - abs(trunc_div(a, b)) * abs(b),
        abs(trunc_div(a, b)) <= abs(a),
        a >= 0 ==> trunc_rem(a, b) >= 0,
        a <= 0 ==> trunc_rem(a, b) <= 0,
        (a >= 0 && b > 0) || (a <= 0 && b < 0) ==> trunc_div(a, b) >= 0,
        (a >= 0 && b < 0) || (a <= 0 && b > 0) ==> trunc_div(a, b) <= 0,
{
    let n = abs(a) as int;
    lemma_div_rem_of_magnitude(n, b);
    let q = n / b;
    let r = n % b;
    if a < 0 {
        assert((-q) * b == -(q * b)) by (nonlinear_arith);
    }
    if a == 0 {
        assert(q == 0);
    }
}

/// Truncating division of an exact multiple gives the other factor back.
pub proof fn lemma_trunc_div_exact(t: int, b: int)
    requires
        b != 0,
    ensures
        trunc_div(t * b, b) == t,
        trunc_rem(t * b, b) == 0,
{
    let a = t * b;
    lemma_trunc_div_rem(a, b);
    let q = trunc_div(a, b);
    let r = trunc_rem(a, b);
    assert(q == t && r == 0) by (nonlinear_arith)
        requires
            t * b == q * b + r,
            b != 0,
            (if r < 0 { -r } else { r }) < (if b < 0 { -b } else { b }),
    ;
}

/// One step of the Euclidean algorithm keeps the end of the remainder
/// sequence and the greatest common divisor.
pub proof fn lemma_remainder_step(a: int, b: int)
    requires
        b != 0,
    ensures
        remainder_sequence_end(b, trunc_rem(a, b)) == remainder_sequence_end(a, b),
        gcd(b, trunc_rem(a, b)) == gcd(a, b),
{
    lemma_trunc_div_rem(a, b);
    lemma_gcd_step(a, b, trunc_div(a, b));
}

/// The remainder sequence ends in plus or minus the greatest common divisor.
pub proof fn lemma_remainder_sequence_gcd(a: int, b: int)
    ensures
        abs(remainder_sequence_end(a, b)) == gcd(a, b),
    decreases abs(b),
{
    if b == 0 {
        lemma_gcd_zero(a);
    } else {
        lemma_trunc_div_rem(a, b);
        lemma_remainder_step(a, b);
        lemma_remainder_sequence_gcd(b, trunc_rem(a, b));
    }
}

/// On non-negative numbers the remainder sequence stays non-negative, so it
/// ends in the greatest common divisor itself.
pub proof fn lemma_remainder_sequence_nonnegative(a: int, b: int)
    requires
        a >= 0,
        b >= 0,
    ensures
        remainder_sequence_end(a, b) == gcd(a, b),
    decreases b,
{
    lemma_remainder_sequence_gcd(a, b);
    if b != 0 {
        lemma_trunc_div_rem(a, b);
        lemma_remainder_step(a, b);
        lemma_remainder_sequence_nonnegative(b, trunc_rem(a, b));
    }
}

/// The cofactors of `bezout_coefficients` combine `a` and `b` into the end of
/// their remainder sequence.
pub proof fn lemma_bezout_coefficients(a: int, b: int)
    ensures
        a * bezout_coefficients(a, b).0 + b * bezout_coefficients(a, b).1
            == remainder_sequence_end(a, b),
    decreases abs(b),
{
    if b == 0 {
        assert(a * 1 + b * 0 == a) by (nonlinear_arith)
            requires
                b == 0,
        ;
    } else {
        lemma_trunc_div_rem(a, b);
        lemma_bezout_coefficients(b, trunc_rem(a, b));
        let c = bezout_coefficients(b, trunc_rem(a, b));
        let q = trunc_div(a, b);
        let r = trunc_rem(a, b);
        let g = remainder_sequence_end(a, b);
        assert(a * c.1 + b * (c.0 - q * c.1) == g) by (nonlinear_arith)
            requires
                a == q * b + r,
                b * c.0 + r * c.1 == g,
        ;
    }
}

/// How the magnitude of a cofactor grows in one step of the extended
/// algorithm, given the signs that the step finds.
proof fn lemma_cofactor_step(alternating: bool, s: int, s_next: int, q: int)
    requires
        sign_pattern(alternating, s, s_next),
        if alternating {
            q >= 0
        } else {
            q <= 0
        },
    ensures
        abs(s - q * s_next) == abs(s) + abs(q) * abs(s_next),
        abs(q * s_next) == abs(q) * abs(s_next),
        sign_pattern(alternating, s_next, s - q * s_next),
{
    let p = q * s_next;
    let m = abs(q) * abs(s_next);
    assert(m >= 0 && (p == m || p == -m) && (q == 0 || s_next == 0 ==> p == 0) && (s_next > 0 && q
        > 0 ==> p > 0) && (s_next < 0 && q < 0 ==> p > 0) && (s_next > 0 && q < 0 ==> p < 0) && (
    s_next < 0 && q > 0 ==> p < 0)) by (nonlinear_arith)
        requires
            p == q * s_next,
            m == (if q < 0 { -q } else { q }) * (if s_next < 0 { -s_next } else { s_next }),
    ;
}

/// The weighted sum that bounds the cofactors is kept by one step.
proof fn lemma_weight_step(
    x: int,
    y: int,
    s: int,
    s_next: int,
    q: int,
    r: int,
    s_new: int,
    total: int,
)
    requires
        x * s_next + y * s == total,
        r == x - q * y,
        s_new == s + q * s_next,
    ensures
        y * s_new + r * s_next == total,
{
    assert(y * s_new + r * s_next == total) by (nonlinear_arith)
        requires
            x * s_next + y * s == total,
            r == x - q * y,
            s_new == s + q * s_next,
    ;
}

/// How the cofactors of a pair follow from those of the next pair of the
/// remainder sequence.
proof fn lemma_cofactor_unfold(a: int, b: int, s: int, s_next: int, target: int)
    requires
        b != 0,
        target == bezout_coefficients(a, b).0 * s + bezout_coefficients(a, b).1 * s_next,
    ensures
        target == bezout_coefficients(b, trunc_rem(a, b)).0 * s_next + bezout_coefficients(
            b,
            trunc_rem(a, b),
        ).1 * (s - trunc_div(a, b) * s_next),
{
    let c = bezout_coefficients(b, trunc_rem(a, b));
    let q = trunc_div(a, b);
    assert(c.1 * s + (c.0 - q * c.1) * s_next == c.0 * s_next + c.1 * (s - q * s_next))
        by (nonlinear_arith);
}

/// If `factor * bounded + rest == total` with a positive factor and a
/// non-negative rest, then `bounded` is at most `total`.
proof fn lemma_factor_bound(factor: int, bounded: int, rest: int, total: int)
    requires
        factor >= 1,
        bounded >= 0,
        rest >= 0,
        factor * bounded + rest == total,
    ensures
        bounded <= total,
{
    assert(bounded <= total) by (nonlinear_arith)
        requires
            factor >= 1,
            bounded >= 0,
            rest >= 0,
            factor * bounded + rest == total,
    ;
}

/// What the extended Euclidean algorithm knows of its state between steps.
///
/// `x`, `y` are two successive remainders and `s`, `s_next` the cofactors of
/// `a` that the algorithm keeps; `t`, `t_next` are the cofactors of `b` that
/// go with them. The state combines to the remainders, it leads to the
/// cofactors that `bezout_coefficients` names, and the weighted sums of the
/// magnitudes stay at `|b|` and `|a|`, which bounds every cofactor.
pub closed spec fn cofactor_state(
    a: int,
    b: int,
    x: int,
    y: int,
    s: int,
    s_next: int,
    t: int,
    t_next: int,
) -> bool {
    let alternating = (a >= 0) == (b >= 0);
    let rest = bezout_coefficients(x, y);
    let target = bezout_coefficients(a, b);
    &&& remainder_sequence_end(x, y) == remainder_sequence_end(a, b)
    &&& x == s * a + t * b
    &&& y == s_next * a + t_next * b
    &&& abs(x) * abs(s_next) + abs(y) * abs(s) == abs(b)
    &&& abs(x) * abs(t_next) + abs(y) * abs(t) == abs(a)
    &&& sign_pattern(alternating, s, s_next)
    &&& sign_pattern(alternating, t, t_next)
    &&& sign_pattern(!alternating, x, y)
    &&& (abs(t) <= abs(a) || abs(t) <= 1)
    &&& (abs(t_next) <= abs(a) || abs(t_next) <= 1)
    &&& target.0 == rest.0 * s + rest.1 * s_next
    &&& target.1 == rest.0 * t + rest.1 * t_next
}

/// The state in which the extended algorithm starts.
pub proof fn lemma_cofactor_state_start(a: int, b: int)
    ensures
        cofactor_state(a, b, a, b, 1, 0, 0, 1),
{
    let c = bezout_coefficients(a, b);
    assert(c.0 * 1 + c.1 * 0 == c.0 && c.0 * 0 + c.1 * 1 == c.1) by (nonlinear_arith);
    assert(1 * a + 0 * b == a && 0 * a + 1 * b == b) by (nonlinear_arith);
    assert(abs(a) * 0 + abs(b) * 1 == abs(b) && abs(a) * 1 + abs(b) * 0 == abs(a))
        by (nonlinear_arith);
}

/// One step of the extended algorithm keeps the state, and the numbers it
/// computes on the way are no larger in magnitude than `a` and `b`.
pub proof fn lemma_cofactor_state_step(
    a: int,
    b: int,
    x: int,
    y: int,
    s: int,
    s_next: int,
    t: int,
    t_next: int,
)
    requires
        cofactor_state(a, b, x, y, s, s_next, t, t_next),
        y != 0,
    ensures
        cofactor_state(
            a,
            b,
            y,
            trunc_rem(x, y),
            s_next,
            s - trunc_div(x, y) * s_next,
            t_next,
            t - trunc_div(x, y) * t_next,
        ),
        abs(trunc_div(x, y)) <= abs(x),
        abs(trunc_rem(x, y)) < abs(y),
        abs(trunc_div(x, y) * s_next) <= abs(b),
        abs(s - trunc_div(x, y) * s_next) <= abs(b),
{
    let alternating = (a >= 0) == (b >= 0);
    let target = bezout_coefficients(a, b);
    let q = trunc_div(x, y);
    let r = trunc_rem(x, y);
    lemma_trunc_div_rem(x, y);
    lemma_remainder_step(x, y);
    lemma_cofactor_step(alternating, s, s_next, q);
    lemma_cofactor_step(alternating, t, t_next, q);
    lemma_weight_step(
        abs(x) as int,
        abs(y) as int,
        abs(s) as int,
        abs(s_next) as int,
        abs(q) as int,
        abs(r) as int,
        abs(s - q * s_next) as int,
        abs(b) as int,
    );
    lemma_weight_step(
        abs(x) as int,
        abs(y) as int,
        abs(t) as int,
        abs(t_next) as int,
        abs(q) as int,
        abs(r) as int,
        abs(t - q * t_next) as int,
        abs(a) as int,
    );
    lemma_factor_bound(
        abs(y) as int,
        abs(s - q * s_next) as int,
        (abs(r) * abs(s_next)) as int,
        abs(b) as int,
    );
    lemma_factor_bound(
        abs(y) as int,
        abs(t - q * t_next) as int,
        (abs(r) * abs(t_next)) as int,
        abs(a) as int,
    );
    lemma_cofactor_unfold(x, y, s, s_next, target.0);
    lemma_cofactor_unfold(x, y, t, t_next, target.1);
    assert(r == (s - q * s_next) * a + (t - q * t_next) * b) by (nonlinear_arith)
        requires
            x == s * a + t * b,
            y == s_next * a + t_next * b,
            x == q * y + r,
    ;
}

/// When the remainders have run out, the state holds the result: the end of
/// the remainder sequence with its cofactors, of which the second can be
/// had back from the first by an exact division.
pub proof fn lemma_cofactor_state_end(
    a: int,
    b: int,
    x: int,
    s: int,
    s_next: int,
    t: int,
    t_next: int,
)
    requires
        cofactor_state(a, b, x, 0, s, s_next, t, t_next),
    ensures
        x == remainder_sequence_end(a, b),
        (s, t) == bezout_coefficients(a, b),
        a * s + b * t == x,
        abs(t) <= abs(a) || abs(t) <= 1,
        b != 0 ==> trunc_div(x - s * a, b) == t,
        b == 0 ==> t == 0,
{
    let c = bezout_coefficients(x, 0);
    assert(c.0 * s + c.1 * s_next == s && c.0 * t + c.1 * t_next == t) by (nonlinear_arith)
        requires
            c.0 == 1,
            c.1 == 0,
    ;
    assert(a * s + b * t == x && x - s * a == t * b) by (nonlinear_arith)
        requires
            x == s * a + t * b,
    ;
    if b != 0 {
        lemma_trunc_div_exact(t, b);
    }
}

} // verus!
