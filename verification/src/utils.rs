//! The Euclidean algorithm on signed integers, its extended form, modular
//! inverses and Euler's totient function.
use crate::divisibility::{
    common_divisor, coprime, divides, gcd, is_prime, lemma_coprime_common_divisor,
    lemma_coprime_factor, lemma_coprime_mod, lemma_coprime_product, lemma_coprime_symmetric,
    lemma_divides_quotient, lemma_divides_self, lemma_divides_transitive, lemma_gcd_positive,
    lemma_multiple_divides, lemma_prime_coprime,
};
use crate::modular::{
    lemma_coprime_one, lemma_inverse_from_bezout, lemma_mod_inverse_is, mod_inverse,
};
use crate::remainder::{
    bezout_coefficients, cofactor_state, lemma_cofactor_state_end, lemma_cofactor_state_start,
    lemma_cofactor_state_step, lemma_remainder_sequence_gcd,
    lemma_remainder_sequence_nonnegative, lemma_trunc_div_rem, remainder_sequence_end,
    trunc_div, trunc_rem,
};
use crate::totient::{
    lemma_coprime_power, lemma_totient_new_prime_factor, lemma_totient_prime_power_factor,
    lemma_totient_small, totient,
};
use vstd::arithmetic::div_mod::{
    lemma_div_multiples_vanish, lemma_fundamental_div_mod, lemma_fundamental_div_mod_converse,
    lemma_mod_bound, lemma_mul_mod_noop_general, lemma_small_mod,
};
use vstd::arithmetic::power::{lemma_pow0, lemma_pow_positive, pow};
use vstd::math::abs;
use vstd::prelude::*;

verus! {

/// Runs the Euclidean algorithm on `a` and `b`.
///
/// The result is the last non-zero remainder: its magnitude is the greatest
/// common divisor, and its sign is the one the truncating remainders leave, so
/// it may be negative. The two excluded inputs are those on which a remainder
/// of the sequence is not representable.
pub fn euclidean(a: isize, b: isize) -> (g: isize)
    requires
        !(a == isize::MIN && b == -1),
        !(a == -1 && b == isize::MIN),
    ensures
        g == remainder_sequence_end(a as int, b as int),
        abs(g as int) == gcd(a as int, b as int),
{
    let mut x: isize = a;
    let mut y: isize = b;
    while y != 0
        invariant
            remainder_sequence_end(x as int, y as int) == remainder_sequence_end(
                a as int,
                b as int,
            ),
            x == isize::MIN ==> y != -1,
            y == isize::MIN ==> x != -1,
        decreases abs(y as int),
    {
        proof {
            lemma_trunc_div_rem(x as int, y as int);
            if x != isize::MIN && y == isize::MIN {
                // the remainder is `x` itself, which is not -1
                lemma_small_mod(abs(x as int), abs(y as int));
            }
        }
        let r: isize = x % y;
        x = y;
        y = r;
    }
    proof {
        lemma_remainder_sequence_gcd(a as int, b as int);
    }
    x
}

/// Runs the extended Euclidean algorithm on `a` and `b`.
///
/// Returns `(x, y, g)` with `a * x + b * y == g`, where `g` is what
/// `euclidean` returns and `x`, `y` are the cofactors that the iteration
/// arrives at. Both inputs must have a representable magnitude.
pub fn extended_euclidean(a: isize, b: isize) -> (r: (isize, isize, isize))
    requires
        a > isize::MIN,
        b > isize::MIN,
    ensures
        r.2 == remainder_sequence_end(a as int, b as int),
        (r.0 as int, r.1 as int) == bezout_coefficients(a as int, b as int),
        a * r.0 + b * r.1 == r.2,
        abs(r.2 as int) == gcd(a as int, b as int),
{
    let mut x: isize = a;
    let mut y: isize = b;
    let mut s: isize = 1;
    let mut s_next: isize = 0;
    let ghost mut t: int = 0;
    let ghost mut t_next: int = 1;
    proof {
        lemma_cofactor_state_start(a as int, b as int);
    }
    while y != 0
        invariant
            a > isize::MIN,
            b > isize::MIN,
            x > isize::MIN,
            y > isize::MIN,
            cofactor_state(
                a as int,
                b as int,
                x as int,
                y as int,
                s as int,
                s_next as int,
                t,
                t_next,
            ),
        decreases abs(y as int),
    {
        proof {
            lemma_cofactor_state_step(
                a as int,
                b as int,
                x as int,
                y as int,
                s as int,
                s_next as int,
                t,
                t_next,
            );
        }
        let q: isize = x / y;
        let r: isize = x % y;
        let s_new: isize = s - q * s_next;
        x = y;
        y = r;
        s = s_next;
        s_next = s_new;
        proof {
            let t_new = t - q * t_next;
            t = t_next;
            t_next = t_new;
        }
    }
    proof {
        lemma_remainder_sequence_gcd(a as int, b as int);
        lemma_cofactor_state_end(a as int, b as int, x as int, s as int, s_next as int, t, t_next);
    }
    let y_out: isize = if b != 0 {
        proof {
            assert(-0x4000_0000_0000_0000_0000_0000_0000_0000 <= s * a
                <= 0x4000_0000_0000_0000_0000_0000_0000_0000) by (nonlinear_arith)
                requires
                    -0x8000_0000_0000_0000 <= s < 0x8000_0000_0000_0000,
                    -0x8000_0000_0000_0000 <= a < 0x8000_0000_0000_0000,
            ;
            lemma_trunc_div_rem(x - s * a, b as int);
        }
        let wide: i128 = (x as i128) - (s as i128) * (a as i128);
        (wide / (b as i128)) as isize
    } else {
        0
    };
    (s, y_out, x)
}

/// Computes the inverse of `a` modulo `n`.
///
/// Returns the inverse reduced into `[0, n)` when `a` and `n` are coprime, and
/// `None` when they are not: then no inverse exists.
pub fn mod_inv(a: usize, n: usize) -> (r: Option<usize>)
    requires
        0 < n <= isize::MAX,
    ensures
        r is Some <==> coprime(a as int, n as int),
        match r {
            Some(x) => mod_inverse(a as int, n as int) == Some(x as int),
            None => mod_inverse(a as int, n as int) is None,
        },
{
    let modulus: isize = n as isize;
    let reduced: isize = (a % n) as isize;
    let (x, y, g) = extended_euclidean(reduced, modulus);
    proof {
        lemma_mod_bound(a as int, n as int);
        lemma_remainder_sequence_nonnegative(reduced as int, modulus as int);
        lemma_coprime_mod(a as int, n as int);
        lemma_gcd_positive(reduced as int, n as int);
    }
    if g > 1 {
        None
    } else {
        let m: isize = x % modulus;
        let inverse: isize = if m < 0 {
            m + modulus
        } else {
            m
        };
        proof {
            lemma_trunc_div_rem(x as int, modulus as int);
            let q = trunc_div(x as int, modulus as int);
            assert(m == trunc_rem(x as int, modulus as int));
            if m < 0 {
                assert(x == (q - 1) * modulus + (m + modulus)) by (nonlinear_arith)
                    requires
                        x == q * modulus + m,
                ;
                lemma_fundamental_div_mod_converse(
                    x as int,
                    modulus as int,
                    q - 1,
                    m + modulus,
                );
            } else {
                lemma_fundamental_div_mod_converse(x as int, modulus as int, q, m as int);
            }
            assert(inverse == (x as int) % (n as int));
            lemma_inverse_from_bezout(reduced as int, x as int, n as int, y as int);
            lemma_mul_mod_noop_general(a as int, inverse as int, n as int);
            lemma_mod_inverse_is(a as int, n as int, inverse as int);
        }
        Some(inverse as usize)
    }
}

/// Computes Euler's totient function: the number of units modulo `n`.
///
/// Works by trial division: every prime `p` found in `n` takes the `p`-th
/// part off the running value, which starts at `n`.
pub fn euler_totient(n: usize) -> (phi: usize)
    ensures
        phi == totient(n as int),
{
    let mut phi: usize = n;
    let mut rest: usize = n;
    let mut p: usize = 2;
    let ghost mut done: int = 1;
    proof {
        lemma_totient_small();
        lemma_coprime_one(n as int);
        assert(n == 1 * n && n * 1 == n) by (nonlinear_arith);
    }
    while p <= rest / p
        invariant
            p >= 2,
            done >= 1,
            n == done * rest,
            coprime(done, rest as int),
            forall|d: int| 2 <= d < p ==> !#[trigger] divides(d, rest as int),
            phi == rest * totient(done),
            rest <= n,
        decreases n - p,
    {
        proof {
            lemma_square_bound(rest as int, p as int);
        }
        if rest % p == 0 {
            let ghost rest_before = rest as int;
            let ghost phi_before = phi as int;
            let ghost mut j: nat = 0;
            proof {
                lemma_pow0(p as int);
                assert(1 * rest == rest) by (nonlinear_arith);
            }
            while rest % p == 0
                invariant
                    p >= 2,
                    rest >= 1,
                    rest <= rest_before,
                    rest_before == pow(p as int, j) * rest,
                    j >= 1 || rest % p == 0,
                decreases rest,
            {
                proof {
                    lemma_fundamental_div_mod(rest as int, p as int);
                    let q = (rest as int) / (p as int);
                    let pw = pow(p as int, j);
                    assert(pow(p as int, j + 1) == p * pw) by {
                        reveal(pow);
                    }
                    assert(q >= 1 && q < rest && (p * pw) * q == pw * rest) by (nonlinear_arith)
                        requires
                            rest == p * q,
                            p >= 2,
                            rest >= 1,
                    ;
                }
                rest /= p;
                proof {
                    j = j + 1;
                }
            }
            proof {
                lemma_strip_prime(
                    n as int,
                    done,
                    rest_before,
                    p as int,
                    j,
                    rest as int,
                    phi_before,
                );
                done = pow(p as int, j) * done;
            }
            phi -= phi / p;
        }
        p += 1;
    }
    proof {
        lemma_square_bound(rest as int, p as int);
        if rest > 1 {
            lemma_last_prime(n as int, done, rest as int, p as int, phi as int);
        } else if rest == 1 {
            assert(done * 1 == done && 1 * totient(done) == totient(done)) by (nonlinear_arith);
        } else {
            assert(done * rest == 0 && rest * totient(done) == 0) by (nonlinear_arith)
                requires
                    rest == 0,
            ;
        }
    }
    if rest > 1 {
        phi -= phi / rest;
    }
    phi
}

/// `p <= rest / p` says that the square of `p` is at most `rest`.
proof fn lemma_square_bound(rest: int, p: int)
    requires
        rest >= 0,
        p >= 1,
    ensures
        p <= rest / p <==> p * p <= rest,
        p <= rest / p ==> p < rest || p == 1,
{
    lemma_fundamental_div_mod(rest, p);
    lemma_mod_bound(rest, p);
    let q = rest / p;
    let r = rest % p;
    assert((p <= q <==> p * p <= rest) && (p <= q ==> p < rest || p == 1)) by (nonlinear_arith)
        requires
            rest == p * q + r,
            0 <= r < p,
            p >= 1,
    ;
}

/// What one round of trial division does: once every factor `p` has been taken
/// out of `rest_before`, the part of `n` that is dealt with has grown by a
/// power of the prime `p`, and the running value loses its `p`-th part.
proof fn lemma_strip_prime(
    n: int,
    done: int,
    rest_before: int,
    p: int,
    j: nat,
    rest: int,
    phi: int,
)
    requires
        p >= 2,
        done >= 1,
        rest >= 1,
        j >= 1,
        n == done * rest_before,
        coprime(done, rest_before),
        forall|d: int| 2 <= d < p ==> !#[trigger] divides(d, rest_before),
        divides(p, rest_before),
        rest_before == pow(p, j) * rest,
        !divides(p, rest),
        phi == rest_before * totient(done),
    ensures
        pow(p, j) * done >= 1,
        n == (pow(p, j) * done) * rest,
        coprime(pow(p, j) * done, rest),
        forall|d: int| 2 <= d < p + 1 ==> !#[trigger] divides(d, rest),
        phi - phi / p == rest * totient(pow(p, j) * done),
        0 <= phi / p <= phi,
{
    let pw = pow(p, j);
    let pl = pow(p, (j - 1) as nat);
    let t = totient(done) as int;
    assert(pw == p * pl) by {
        reveal(pow);
    }
    lemma_pow_positive(p, j);
    lemma_pow_positive(p, (j - 1) as nat);
    assert forall|d: int| 2 <= d < p implies !#[trigger] divides(d, p) by {
        if divides(d, p) {
            lemma_divides_transitive(d, p, rest_before);
        }
    }
    assert(is_prime(p));
    if divides(p, done) {
        assert(common_divisor(p, done, rest_before));
        lemma_coprime_common_divisor(p, done, rest_before);
    }
    lemma_totient_prime_power_factor(p, j, done);
    let inner = pl * rest * t;
    assert(phi == p * inner && inner >= 0) by (nonlinear_arith)
        requires
            phi == rest_before * t,
            rest_before == pw * rest,
            pw == p * pl,
            inner == pl * rest * t,
            pl > 0,
            rest >= 1,
            t >= 0,
    ;
    lemma_div_multiples_vanish(inner, p);
    assert(phi - inner == rest * (pl * (p - 1) * t) && inner <= phi) by (nonlinear_arith)
        requires
            phi == p * inner,
            inner == pl * rest * t,
            inner >= 0,
            p >= 2,
    ;
    assert(n == (pw * done) * rest && pw * done >= 1) by (nonlinear_arith)
        requires
            n == done * rest_before,
            rest_before == pw * rest,
            pw >= 1,
            done >= 1,
    ;
    lemma_coprime_factor(done, pw, rest);
    lemma_coprime_symmetric(done, rest);
    lemma_prime_coprime(p, rest);
    lemma_coprime_symmetric(p, rest);
    lemma_coprime_power(p, j, rest);
    lemma_coprime_product(rest, pw, done);
    lemma_coprime_symmetric(rest, pw * done);
    assert forall|d: int| 2 <= d < p + 1 implies !#[trigger] divides(d, rest) by {
        if d < p && divides(d, rest) {
            lemma_multiple_divides(rest, pw);
            assert(rest * pw == pw * rest) by (nonlinear_arith);
            lemma_divides_transitive(d, rest, rest_before);
        }
    }
}

/// What is left after trial division up to its square root is a prime, and
/// it takes its own part off the running value.
proof fn lemma_last_prime(n: int, done: int, rest: int, p: int, phi: int)
    requires
        rest > 1,
        p >= 2,
        p * p > rest,
        done >= 1,
        n == done * rest,
        coprime(done, rest),
        forall|d: int| 2 <= d < p ==> !#[trigger] divides(d, rest),
        phi == rest * totient(done),
    ensures
        phi - phi / rest == totient(n),
        0 <= phi / rest <= phi,
{
    let t = totient(done) as int;
    assert forall|d: int| 2 <= d < rest implies !#[trigger] divides(d, rest) by {
        if divides(d, rest) && d >= p {
            lemma_divides_quotient(d, rest);
            let k = rest / d;
            assert(2 <= k < p && k * d == rest) by (nonlinear_arith)
                requires
                    rest == d * k,
                    p <= d < rest,
                    p * p > rest,
                    p >= 2,
            ;
            lemma_multiple_divides(k, d);
        }
    }
    assert(is_prime(rest));
    if divides(rest, done) {
        lemma_divides_self(rest);
        assert(common_divisor(rest, done, rest));
        lemma_coprime_common_divisor(rest, done, rest);
    }
    lemma_totient_new_prime_factor(rest, done);
    lemma_div_multiples_vanish(t, rest);
    assert(rest * done == n && rest * t - t == (rest - 1) * t && t <= rest * t)
        by (nonlinear_arith)
        requires
            n == done * rest,
            rest > 1,
            t >= 0,
    ;
}

} // verus!
