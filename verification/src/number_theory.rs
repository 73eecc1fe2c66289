use vstd::prelude::*;
use vstd::arithmetic::div_mod::*;

verus! {

/// Greatest common divisor, by Euclid's algorithm (`gcd(a, 0) == a`).
pub open spec fn gcd(a: nat, b: nat) -> nat
    decreases b,
{
    if b == 0 {
        a
    } else {
        gcd(b, a % b)
    }
}

/// Coefficients `(x, y)` with `x * a + y * b == gcd(a, b)`, by the extended
/// Euclidean algorithm.
pub closed spec fn bezout(a: nat, b: nat) -> (int, int)
    decreases b,
{
    if b == 0 {
        (1, 0)
    } else {
        let (x, y) = bezout(b, a % b);
        (y, x - (a / b) as int * y)
    }
}

/// `g * a` leaves remainder one modulo `b`.
pub open spec fn is_inverse(a: nat, b: nat, g: nat) -> bool {
    (g * a) % b == 1
}

/// `g` is the least positive multiplier of `a` that leaves remainder one
/// modulo `b`: the least modular inverse of `a` modulo `b`.
pub open spec fn is_least_inverse(a: nat, b: nat, g: nat) -> bool {
    &&& 1 <= g
    &&& is_inverse(a, b, g)
    &&& forall|h: nat| 1 <= h < g ==> !#[trigger] is_inverse(a, b, h)
}

/// The least modular inverse of `a` modulo `b`, where one exists.
pub open spec fn least_inverse(a: nat, b: nat) -> nat {
    choose|g: nat| is_least_inverse(a, b, g)
}

pub proof fn lemma_gcd_symmetric(a: nat, b: nat)
    ensures
        gcd(a, b) == gcd(b, a),
{
    if a < b {
        lemma_small_mod(a, b);
        assert(gcd(a, b) == gcd(b, a % b));
    } else if b < a {
        lemma_small_mod(b, a);
        assert(gcd(b, a) == gcd(a, b % a));
    }
}

/// The step of Euclid's algorithm that the loop of `gcd` takes.
pub proof fn lemma_gcd_step(n: nat, m: nat)
    requires
        n > 0,
    ensures
        gcd(n, m) == gcd(n, m % n),
{
    lemma_gcd_symmetric(n, m);
    assert(gcd(m, n) == gcd(n, m % n));
}

/// `gcd(a, b)` is positive and divides both `a` and `b`.
pub proof fn lemma_gcd_divides(a: nat, b: nat)
    requires
        a > 0 || b > 0,
    ensures
        gcd(a, b) > 0,
        a % gcd(a, b) == 0,
        b % gcd(a, b) == 0,
    decreases b,
{
    if b == 0 {
        lemma_mod_self_0(a as int);
        lemma_small_mod(0, a);
    } else {
        let r = a % b;
        lemma_gcd_divides(b, r);
        let g = gcd(b, r);
        let q = a / b;
        lemma_fundamental_div_mod(a as int, b as int);
        lemma_fundamental_div_mod(b as int, g as int);
        lemma_fundamental_div_mod(r as int, g as int);
        let kb = b as int / g as int;
        let kr = r as int / g as int;
        assert(a == (q * kb + kr) * g) by (nonlinear_arith)
            requires
                a == b * q + r,
                b == g * kb + 0,
                r == g * kr + 0,
        ;
        lemma_mod_multiples_basic(q * kb + kr, g as int);
    }
}

/// Every common divisor of `a` and `b` divides `gcd(a, b)`.
pub proof fn lemma_common_divisor_divides_gcd(a: nat, b: nat, c: nat)
    requires
        c > 0,
        a % c == 0,
        b % c == 0,
    ensures
        gcd(a, b) % c == 0,
    decreases b,
{
    if b > 0 {
        let q = a / b;
        let r = a % b;
        lemma_fundamental_div_mod(a as int, b as int);
        lemma_fundamental_div_mod(a as int, c as int);
        lemma_fundamental_div_mod(b as int, c as int);
        let ka = a as int / c as int;
        let kb = b as int / c as int;
        assert(r == (ka - q * kb) * c) by (nonlinear_arith)
            requires
                a == b * q + r,
                a == c * ka + 0,
                b == c * kb + 0,
        ;
        lemma_mod_multiples_basic(ka - q * kb, c as int);
        lemma_common_divisor_divides_gcd(b, r, c);
    }
}

/// Bezout's identity for the coefficients of `bezout`.
pub proof fn lemma_bezout(a: nat, b: nat)
    ensures
        bezout(a, b).0 * a + bezout(a, b).1 * b == gcd(a, b),
    decreases b,
{
    if b > 0 {
        let r = a % b;
        let q = a / b;
        lemma_bezout(b, r);
        let (x, y) = bezout(b, r);
        lemma_fundamental_div_mod(a as int, b as int);
        assert(bezout(a, b) == (y, x - q * y));
        assert(gcd(a, b) == gcd(b, r));
        assert(y * a + (x - q * y) * b == x * b + y * r) by (nonlinear_arith)
            requires
                a == b * q + r,
        ;
    } else {
        assert(bezout(a, b) == (1int, 0int));
    }
}

/// A least inverse is unique.
pub proof fn lemma_least_inverse_unique(a: nat, b: nat, g: nat)
    requires
        is_least_inverse(a, b, g),
    ensures
        least_inverse(a, b) == g,
{
    let h = least_inverse(a, b);
    assert(is_least_inverse(a, b, h));
    if h < g {
        assert(!is_inverse(a, b, h));
    } else if g < h {
        assert(!is_inverse(a, b, g));
    }
}

/// Where `a` and `b` are coprime (some combination of them is one) and
/// `b > 1`, `a` has an inverse modulo `b` below `b`.
pub proof fn lemma_inverse_exists(a: nat, b: nat, x: int, y: int)
    requires
        b > 1,
        x * a + y * b == 1,
    ensures
        exists|g: nat| 1 <= g < b && #[trigger] is_inverse(a, b, g),
{
    let g = x % (b as int);
    lemma_mod_bound(x, b as int);
    lemma_mul_mod_noop_left(x, a as int, b as int);
    assert(x * a == b * (-y) + 1) by (nonlinear_arith)
        requires
            x * a + y * b == 1,
    ;
    lemma_mod_multiples_vanish(-y, 1, b as int);
    lemma_small_mod(1, b);
    assert((g * a) % (b as int) == 1);
    if g == 0 {
        assert(g * a == 0);
        lemma_small_mod(0, b);
    }
    let gn = g as nat;
    assert(1 <= gn < b && is_inverse(a, b, gn));
}

} // verus!
