//! Divisibility, greatest common divisors and coprimality over the integers.
//!
//! Everything here is specification and proof: the definitions say what a
//! greatest common divisor *is*, and the lemmas are the facts about it that
//! the executable number theory and the modular groups are proved against.
use vstd::arithmetic::div_mod::{lemma_fundamental_div_mod, lemma_fundamental_div_mod_converse};
use vstd::math::abs;
use vstd::prelude::*;

verus! {

/// `n` is an integer multiple of `d`. Zero divides only zero.
pub open spec fn divides(d: int, n: int) -> bool {
    if d == 0 {
        n == 0
    } else {
        n % d == 0
    }
}

/// `d` is a positive divisor of both `a` and `b`.
pub open spec fn common_divisor(d: int, a: int, b: int) -> bool {
    d > 0 && divides(d, a) && divides(d, b)
}

/// `g` is the greatest common divisor of `a` and `b`: a non-negative common
/// divisor that every other common divisor divides.
pub open spec fn is_gcd(g: int, a: int, b: int) -> bool {
    &&& g >= 0
    &&& divides(g, a)
    &&& divides(g, b)
    &&& forall|d: int| #[trigger] common_divisor(d, a, b) ==> divides(d, g)
}

/// The greatest common divisor of `a` and `b`; `gcd(0, 0)` is `0`.
pub open spec fn gcd(a: int, b: int) -> int {
    choose|g: int| is_gcd(g, a, b)
}

/// `a` and `b` have no common divisor besides one.
pub open spec fn coprime(a: int, b: int) -> bool {
    gcd(a, b) == 1
}

/// `p` is a prime number.
pub open spec fn is_prime(p: int) -> bool {
    p >= 2 && forall|d: int| 2 <= d < p ==> !#[trigger] divides(d, p)
}

/// The last non-zero term of the remainder sequence of two naturals.
pub open spec fn euclid(a: nat, b: nat) -> nat
    decreases b,
{
    if b == 0 {
        a
    } else {
        euclid(b, a % b)
    }
}

/// A divisor comes with its quotient.
pub proof fn lemma_divides_quotient(d: int, n: int)
    requires
        divides(d, n),
    ensures
        n == d * (n / d),
{
    if d != 0 {
        lemma_fundamental_div_mod(n, d);
    } else {
        assert(d * (n / d) == 0) by (nonlinear_arith)
            requires
                d == 0,
        ;
    }
}

/// Every multiple of `d` is divisible by `d`.
pub proof fn lemma_multiple_divides(d: int, k: int)
    requires
        d >= 0,
    ensures
        divides(d, d * k),
{
    if d > 0 {
        assert(d * k == k * d + 0) by (nonlinear_arith);
        lemma_fundamental_div_mod_converse(d * k, d, k, 0);
    } else {
        assert(d * k == 0) by (nonlinear_arith)
            requires
                d == 0,
        ;
    }
}

/// A common divisor of `a` and `b` divides every integer combination of them.
pub proof fn lemma_divides_combination(d: int, a: int, x: int, b: int, y: int)
    requires
        d >= 0,
        divides(d, a),
        divides(d, b),
    ensures
        divides(d, a * x + b * y),
{
    lemma_divides_quotient(d, a);
    lemma_divides_quotient(d, b);
    let ka = a / d;
    let kb = b / d;
    assert(a * x + b * y == d * (ka * x + kb * y)) by (nonlinear_arith)
        requires
            a == d * ka,
            b == d * kb,
    ;
    lemma_multiple_divides(d, ka * x + kb * y);
}

/// Divisibility is transitive.
pub proof fn lemma_divides_transitive(d: int, m: int, n: int)
    requires
        d >= 0,
        m >= 0,
        divides(d, m),
        divides(m, n),
    ensures
        divides(d, n),
{
    lemma_divides_quotient(m, n);
    lemma_divides_combination(d, m, n / m, m, 0);
    assert(m * (n / m) + m * 0 == n) by (nonlinear_arith)
        requires
            n == m * (n / m),
    ;
}

/// A positive divisor of a positive number is no larger than it.
pub proof fn lemma_divides_le(d: int, n: int)
    requires
        d > 0,
        n > 0,
        divides(d, n),
    ensures
        d <= n,
{
    lemma_divides_quotient(d, n);
    let k = n / d;
    assert(d <= n) by (nonlinear_arith)
        requires
            n == d * k,
            d > 0,
            n > 0,
    ;
}

/// Two non-negative numbers that divide each other are equal.
pub proof fn lemma_divides_antisymmetric(a: int, b: int)
    requires
        a >= 0,
        b >= 0,
        divides(a, b),
        divides(b, a),
    ensures
        a == b,
{
    if a > 0 && b > 0 {
        lemma_divides_le(a, b);
        lemma_divides_le(b, a);
    }
}

/// Every non-negative number divides itself and zero.
pub proof fn lemma_divides_self(d: int)
    requires
        d >= 0,
    ensures
        divides(d, d),
        divides(d, 0),
        divides(d, -d),
{
    lemma_multiple_divides(d, 1);
    lemma_multiple_divides(d, 0);
    lemma_multiple_divides(d, -1);
    assert(d * 1 == d && d * 0 == 0 && d * (-1) == -d) by (nonlinear_arith);
}

/// The common divisors of `(a, b)` are those of `(b, a - q * b)`, so the two
/// pairs share their greatest common divisor.
pub proof fn lemma_is_gcd_step(g: int, a: int, b: int, q: int)
    requires
        is_gcd(g, b, a - q * b),
    ensures
        is_gcd(g, a, b),
{
    let r = a - q * b;
    lemma_divides_combination(g, r, 1, b, q);
    assert(r * 1 + b * q == a) by (nonlinear_arith)
        requires
            r == a - q * b,
    ;
    assert forall|d: int| #[trigger] common_divisor(d, a, b) implies divides(d, g) by {
        lemma_divides_combination(d, a, 1, b, -q);
        assert(a * 1 + b * (-q) == r) by (nonlinear_arith)
            requires
                r == a - q * b,
        ;
        assert(common_divisor(d, b, r));
    }
}

/// Negating either argument leaves the greatest common divisor unchanged.
pub proof fn lemma_is_gcd_abs(g: int, a: int, b: int)
    requires
        is_gcd(g, abs(a) as int, abs(b) as int),
    ensures
        is_gcd(g, a, b),
{
    let pa = abs(a) as int;
    let pb = abs(b) as int;
    lemma_divides_combination(g, pa, if a < 0 { -1int } else { 1int }, pb, 0);
    lemma_divides_combination(g, pa, 0, pb, if b < 0 { -1int } else { 1int });
    assert forall|d: int| #[trigger] common_divisor(d, a, b) implies divides(d, g) by {
        lemma_divides_combination(d, a, if a < 0 { -1int } else { 1int }, b, 0);
        lemma_divides_combination(d, a, 0, b, if b < 0 { -1int } else { 1int });
        assert(common_divisor(d, pa, pb));
    }
}

/// The remainder sequence of two naturals ends in their greatest common divisor.
pub proof fn lemma_euclid_is_gcd(a: nat, b: nat)
    ensures
        is_gcd(euclid(a, b) as int, a as int, b as int),
    decreases b,
{
    if b == 0 {
        lemma_divides_self(a as int);
    } else {
        lemma_euclid_is_gcd(b, a % b);
        lemma_fundamental_div_mod(a as int, b as int);
        let q = (a as int) / (b as int);
        assert(a as int - q * (b as int) == (a % b) as int) by (nonlinear_arith)
            requires
                a as int == (b as int) * q + (a as int) % (b as int),
        ;
        lemma_is_gcd_step(euclid(a, b) as int, a as int, b as int, q);
    }
}

/// Every pair of integers has a greatest common divisor, and `gcd` names it.
pub proof fn lemma_gcd_is_gcd(a: int, b: int)
    ensures
        is_gcd(gcd(a, b), a, b),
{
    lemma_euclid_is_gcd(abs(a), abs(b));
    lemma_is_gcd_abs(euclid(abs(a), abs(b)) as int, a, b);
}

/// The greatest common divisor is unique.
pub proof fn lemma_gcd_unique(g: int, a: int, b: int)
    requires
        is_gcd(g, a, b),
    ensures
        g == gcd(a, b),
{
    let h = gcd(a, b);
    lemma_gcd_is_gcd(a, b);
    if g > 0 {
        assert(common_divisor(g, a, b));
    }
    if h > 0 {
        assert(common_divisor(h, a, b));
    }
    if g == 0 && h > 0 {
        lemma_divides_self(h + 1);
        assert(common_divisor(h + 1, a, b));
        lemma_divides_le(h + 1, h);
    }
    if h == 0 && g > 0 {
        lemma_divides_self(g + 1);
        assert(common_divisor(g + 1, a, b));
        lemma_divides_le(g + 1, g);
    }
    lemma_divides_antisymmetric(g, h);
}

/// `gcd(a, b) == gcd(b, a - q * b)` for every `q`.
pub proof fn lemma_gcd_step(a: int, b: int, q: int)
    ensures
        gcd(a, b) == gcd(b, a - q * b),
{
    lemma_gcd_is_gcd(b, a - q * b);
    lemma_is_gcd_step(gcd(b, a - q * b), a, b, q);
    lemma_gcd_unique(gcd(b, a - q * b), a, b);
}

/// `gcd(a, 0)` is the magnitude of `a`.
pub proof fn lemma_gcd_zero(a: int)
    ensures
        gcd(a, 0) == abs(a),
{
    lemma_divides_self(abs(a) as int);
    lemma_is_gcd_abs(abs(a) as int, a, 0);
    lemma_gcd_unique(abs(a) as int, a, 0);
}

/// The greatest common divisor does not depend on the order or the signs of
/// its arguments.
pub proof fn lemma_gcd_symmetric(a: int, b: int)
    ensures
        gcd(a, b) == gcd(b, a),
        gcd(a, b) == gcd(abs(a) as int, abs(b) as int),
        gcd(a, b) >= 0,
{
    lemma_gcd_is_gcd(b, a);
    let g = gcd(b, a);
    assert forall|d: int| #[trigger] common_divisor(d, a, b) implies divides(d, g) by {
        assert(common_divisor(d, b, a));
    }
    lemma_gcd_unique(g, a, b);
    lemma_gcd_is_gcd(abs(a) as int, abs(b) as int);
    lemma_is_gcd_abs(gcd(abs(a) as int, abs(b) as int), a, b);
    lemma_gcd_unique(gcd(abs(a) as int, abs(b) as int), a, b);
}

/// The greatest common divisor of two numbers that are not both zero is positive.
pub proof fn lemma_gcd_positive(a: int, b: int)
    requires
        a != 0 || b != 0,
    ensures
        gcd(a, b) > 0,
{
    lemma_gcd_is_gcd(a, b);
}

/// Bezout coefficients for the remainder sequence of two naturals.
pub proof fn lemma_bezout_nat(a: nat, b: nat) -> (c: (int, int))
    ensures
        a * c.0 + b * c.1 == euclid(a, b),
    decreases b,
{
    if b == 0 {
        assert(a * 1 + b * 0 == a) by (nonlinear_arith)
            requires
                b == 0,
        ;
        (1, 0)
    } else {
        let r = lemma_bezout_nat(b, a % b);
        lemma_fundamental_div_mod(a as int, b as int);
        let q = (a as int) / (b as int);
        let m = (a as int) % (b as int);
        let g = euclid(a, b) as int;
        assert(a * r.1 + b * (r.0 - q * r.1) == g) by (nonlinear_arith)
            requires
                a as int == (b as int) * q + m,
                b * r.0 + m * r.1 == g,
        ;
        (r.1, r.0 - q * r.1)
    }
}

/// Bezout's identity: the greatest common divisor is an integer combination
/// of the two numbers.
pub proof fn lemma_bezout(a: int, b: int) -> (c: (int, int))
    ensures
        a * c.0 + b * c.1 == gcd(a, b),
{
    let r = lemma_bezout_nat(abs(a), abs(b));
    lemma_euclid_is_gcd(abs(a), abs(b));
    lemma_is_gcd_abs(euclid(abs(a), abs(b)) as int, a, b);
    lemma_gcd_unique(euclid(abs(a), abs(b)) as int, a, b);
    let x = if a < 0 { -r.0 } else { r.0 };
    let y = if b < 0 { -r.1 } else { r.1 };
    assert(a * x + b * y == abs(a) * r.0 + abs(b) * r.1) by (nonlinear_arith)
        requires
            x == (if a < 0 { -r.0 } else { r.0 }),
            y == (if b < 0 { -r.1 } else { r.1 }),
            abs(a) == (if a < 0 { -a } else { a }),
            abs(b) == (if b < 0 { -b } else { b }),
    ;
    (x, y)
}

/// Two numbers with an integer combination equal to one are coprime.
pub proof fn lemma_coprime_from_bezout(a: int, b: int, x: int, y: int)
    requires
        a * x + b * y == 1,
    ensures
        coprime(a, b),
{
    assert forall|d: int| #[trigger] common_divisor(d, a, b) implies divides(d, 1) by {
        lemma_divides_combination(d, a, x, b, y);
    }
    assert(a % 1 == 0 && b % 1 == 0);
    lemma_gcd_unique(1, a, b);
}

/// A common divisor of two coprime numbers is one.
pub proof fn lemma_coprime_common_divisor(d: int, a: int, b: int)
    requires
        coprime(a, b),
        common_divisor(d, a, b),
    ensures
        d == 1,
{
    lemma_gcd_is_gcd(a, b);
    lemma_divides_le(d, 1);
}

/// Coprimality is symmetric.
pub proof fn lemma_coprime_symmetric(a: int, b: int)
    requires
        coprime(a, b),
    ensures
        coprime(b, a),
{
    lemma_gcd_symmetric(a, b);
}

/// A number coprime to two others is coprime to their product.
pub proof fn lemma_coprime_product(v: int, a: int, b: int)
    requires
        coprime(v, a),
        coprime(v, b),
    ensures
        coprime(v, a * b),
{
    let c = lemma_bezout(v, a);
    let e = lemma_bezout(v, b);
    let t = b * e.1;
    let x = e.0 + c.0 * t;
    let y = c.1 * e.1;
    assert((v * c.0 + a * c.1) * t == v * (c.0 * t) + (a * b) * y) by (nonlinear_arith)
        requires
            t == b * e.1,
            y == c.1 * e.1,
    ;
    assert(v * x == v * e.0 + v * (c.0 * t)) by (nonlinear_arith)
        requires
            x == e.0 + c.0 * t,
    ;
    assert((v * c.0 + a * c.1) * t == t) by (nonlinear_arith)
        requires
            v * c.0 + a * c.1 == 1,
    ;
    lemma_coprime_from_bezout(v, a * b, x, y);
}

/// A number coprime to a product is coprime to each factor.
pub proof fn lemma_coprime_factor(v: int, a: int, b: int)
    requires
        coprime(v, a * b),
    ensures
        coprime(v, a),
        coprime(v, b),
{
    let c = lemma_bezout(v, a * b);
    assert(v * c.0 + a * (b * c.1) == 1 && v * c.0 + b * (a * c.1) == 1) by (nonlinear_arith)
        requires
            v * c.0 + (a * b) * c.1 == 1,
    ;
    lemma_coprime_from_bezout(v, a, c.0, b * c.1);
    lemma_coprime_from_bezout(v, b, c.0, a * c.1);
}

/// Adding a multiple of `n` to `v` does not change whether it is coprime to `n`.
pub proof fn lemma_coprime_shift(v: int, n: int, k: int)
    ensures
        coprime(v + k * n, n) == coprime(v, n),
{
    if coprime(v, n) {
        let c = lemma_bezout(v, n);
        assert((v + k * n) * c.0 + n * (c.1 - k * c.0) == 1) by (nonlinear_arith)
            requires
                v * c.0 + n * c.1 == 1,
        ;
        lemma_coprime_from_bezout(v + k * n, n, c.0, c.1 - k * c.0);
    }
    if coprime(v + k * n, n) {
        let c = lemma_bezout(v + k * n, n);
        assert(v * c.0 + n * (c.1 + k * c.0) == 1) by (nonlinear_arith)
            requires
                (v + k * n) * c.0 + n * c.1 == 1,
        ;
        lemma_coprime_from_bezout(v, n, c.0, c.1 + k * c.0);
    }
}

/// Reducing `v` modulo `n` does not change whether it is coprime to `n`.
pub proof fn lemma_coprime_mod(v: int, n: int)
    requires
        n > 0,
    ensures
        coprime(v % n, n) == coprime(v, n),
{
    lemma_fundamental_div_mod(v, n);
    let k = -(v / n);
    assert(v + k * n == v % n) by (nonlinear_arith)
        requires
            v == n * (v / n) + v % n,
            k == -(v / n),
    ;
    lemma_coprime_shift(v, n, k);
}

/// Gauss's lemma: if `n` divides `a * b` and is coprime to `a`, it divides `b`.
pub proof fn lemma_coprime_cancel(n: int, a: int, b: int)
    requires
        n >= 0,
        coprime(a, n),
        divides(n, a * b),
    ensures
        divides(n, b),
{
    let c = lemma_bezout(a, n);
    lemma_divides_self(n);
    lemma_divides_combination(n, a * b, c.0, n, b * c.1);
    assert((a * b) * c.0 + n * (b * c.1) == b) by (nonlinear_arith)
        requires
            a * c.0 + n * c.1 == 1,
    ;
}

/// A divisor of a prime is one or the prime itself.
pub proof fn lemma_prime_divisors(p: int, d: int)
    requires
        is_prime(p),
        d > 0,
        divides(d, p),
    ensures
        d == 1 || d == p,
{
    lemma_divides_le(d, p);
}

/// A prime is coprime to exactly the numbers it does not divide.
pub proof fn lemma_prime_coprime(p: int, v: int)
    requires
        is_prime(p),
    ensures
        coprime(p, v) == !divides(p, v),
{
    if divides(p, v) {
        if coprime(p, v) {
            lemma_divides_self(p);
            lemma_coprime_common_divisor(p, p, v);
        }
    } else {
        assert forall|d: int| #[trigger] common_divisor(d, p, v) implies divides(d, 1) by {
            lemma_prime_divisors(p, d);
        }
        assert(p % 1 == 0 && v % 1 == 0);
        lemma_gcd_unique(1, p, v);
    }
}

} // verus!
