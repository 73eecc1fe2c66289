use vstd::prelude::*;
use crate::number_theory;
use crate::number_theory::{is_inverse, is_least_inverse, least_inverse};
use crate::unsigned::UnsignedInt;
use crate::residual::residual_contains;
use vstd::arithmetic::div_mod::{
    lemma_fundamental_div_mod, lemma_mod_bound, lemma_mod_equivalence, lemma_mod_multiples_vanish,
    lemma_small_mod,
};

verus! {

/// What `meziriac` returns: one where the modulus is one, zero where the two
/// arguments are equal, and otherwise the least inverse.
pub open spec fn meziriac_spec(a: nat, b: nat) -> nat {
    if b == 1 {
        1
    } else if a == b {
        0
    } else {
        least_inverse(a, b)
    }
}

/// The distance between two naturals.
pub open spec fn abs_diff(a: nat, b: nat) -> nat {
    if a <= b {
        (b - a) as nat
    } else {
        (a - b) as nat
    }
}

/// What `intersection` computes for the classes `m1@s1` and `m2@s2`, with
/// all arithmetic in `u128`: `None` where a step overflows, otherwise the
/// modulus and the shift of the resulting class.
pub open spec fn intersection_spec(m1: nat, m2: nat, s1: nat, s2: nat) -> Option<(nat, nat)> {
    if m1 == 0 || m2 == 0 {
        Some((0, 0))
    } else {
        let a = s1 % m1;
        let b = s2 % m2;
        let d = number_theory::gcd(m1, m2);
        let span = abs_diff(a, b);
        if d != 1 && span % d != 0 {
            Some((0, 0))
        } else {
            let md1 = m1 / d;
            let md2 = m2 / d;
            let m = md1 * md2 * d;
            if m > u128::MAX {
                None
            } else {
                let raw = a + meziriac_spec(md1, md2) * span * md1;
                if raw > u128::MAX {
                    None
                } else {
                    Some((m, raw % m))
                }
            }
        }
    }
}

/// Find the greatest common divisor.
pub fn gcd(n: u128, m: u128) -> (r: Result<u128, &'static str>)
    ensures
        r is Err <==> (n == 0 || m == 0),
        r matches Err(e) ==> e@ == "zero or negative values not supported"@,
        r matches Ok(g) ==> g == number_theory::gcd(n as nat, m as nat),
{
    if n == 0 || m == 0 {
        return Err("zero or negative values not supported");
    }
    let ghost start = number_theory::gcd(n as nat, m as nat);
    let mut n = n;
    let mut m = m;
    while m != 0
        invariant
            n > 0,
            number_theory::gcd(n as nat, m as nat) == start,
        decreases m,
    {
        if m < n {
            proof {
                number_theory::lemma_gcd_symmetric(n as nat, m as nat);
            }
            std::mem::swap(&mut m, &mut n);
        }
        proof {
            number_theory::lemma_gcd_step(n as nat, m as nat);
        }
        m = m % n;
    }
    Ok(n)
}

/// This is a brute-force implementation of modular inverse: the least `g`
/// from one upward with `(g * a) % b == 1`. A modulus of one gives one, and
/// equal arguments give zero.
pub fn meziriac(a: u128, b: u128) -> (r: Result<u128, &'static str>)
    requires
        b == 1 || a == b || (b > 0 && exists|w: nat|
            1 <= w && w * a <= u128::MAX && #[trigger] is_inverse(a as nat, b as nat, w)),
    ensures
        r matches Ok(g) && g == meziriac_spec(a as nat, b as nat),
        b != 1 && a != b ==> (r matches Ok(g) && is_least_inverse(a as nat, b as nat, g as nat)),
{
    let mut g: u128 = 1;
    if b == 1 {
        g = 1;
    } else if a == b {
        g = 0;
    } else {
        let ghost w: nat = choose|w: nat|
            1 <= w && w * a <= u128::MAX && #[trigger] is_inverse(a as nat, b as nat, w);
        proof {
            if a == 0 {
                assert(w * a == 0) by (nonlinear_arith)
                    requires a == 0;
                vstd::arithmetic::div_mod::lemma_small_mod(0, b as nat);
            }
            assert(w * a >= w) by (nonlinear_arith)
                requires a >= 1;
        }
        while g < u128::MAX
            invariant_except_break
                1 <= g <= w,
                a >= 1,
                b > 1,
                w * a <= u128::MAX,
                w <= u128::MAX,
                is_inverse(a as nat, b as nat, w),
                forall|h: nat| 1 <= h < g ==> !#[trigger] is_inverse(a as nat, b as nat, h),
            ensures
                is_least_inverse(a as nat, b as nat, g as nat),
            decreases u128::MAX - g,
        {
            assert(g * a <= w * a) by (nonlinear_arith)
                requires g <= w, a >= 1;
            if ((g * a) % b) == 1 {
                assert(is_inverse(a as nat, b as nat, g as nat));
                break;
            }
            g += 1;
        }
    }
    proof {
        if b != 1 && a != b {
            number_theory::lemma_least_inverse_unique(a as nat, b as nat, g as nat);
        }
    }
    Ok(g)
}

/// What `intersection` returns given what `intersection_spec` computes: an
/// error where the arithmetic overflows or where a part of the result does
/// not fit in `T`, and otherwise the modulus and the shift.
pub open spec fn intersection_outcome<T: UnsignedInt>(
    expected: Option<(nat, nat)>,
    r: Result<(T, T), &'static str>,
) -> bool {
    match expected {
        None => r matches Err(e) && e@ == "intersection overflow"@,
        Some((m, sh)) => if m <= T::max_value() && sh <= T::max_value() {
            r matches Ok((x, y)) && x.as_nat() == m && y.as_nat() == sh
        } else {
            r matches Err(e) && e@ == "intersection conversion failure"@
        },
    }
}

/// The pair of zeros, the empty class.
fn zero_pair<T: UnsignedInt>() -> (r: Result<(T, T), &'static str>)
    ensures
        r matches Ok((x, y)) && x.as_nat() == 0 && y.as_nat() == 0,
{
    let zero_m = match T::from_u128(0) {
        Some(v) => v,
        None => return Err("intersection conversion failure"),
    };
    let zero_s = match T::from_u128(0) {
        Some(v) => v,
        None => return Err("intersection conversion failure"),
    };
    Ok((zero_m, zero_s))
}

/// Core implementation of intersection of two residual classes.
pub fn intersection<T: UnsignedInt>(m1: T, m2: T, s1: T, s2: T) -> (r: Result<(T, T), &'static str>)
    ensures
        intersection_outcome::<T>(
            intersection_spec(m1.as_nat(), m2.as_nat(), s1.as_nat(), s2.as_nat()),
            r,
        ),
{
    let ghost expected = intersection_spec(m1.as_nat(), m2.as_nat(), s1.as_nat(), s2.as_nat());
    proof {
        T::lemma_range(m1);
    }
    let m1: u128 = m1.to_u128();
    let m2: u128 = m2.to_u128();
    let s1: u128 = s1.to_u128();
    let s2: u128 = s2.to_u128();

    if m1 == 0 || m2 == 0 {
        // intersection of null and anything is null
        return zero_pair::<T>();
    }
    // normalize shifts
    let s1 = s1 % m1;
    let s2 = s2 % m2;

    // use common divisor
    let d = match gcd(m1, m2) {
        Ok(v) => v,
        Err(e) => return Err(e),
    };
    proof {
        number_theory::lemma_gcd_divides(m1 as nat, m2 as nat);
    }
    let md1 = m1 / d;
    let md2 = m2 / d;
    let span = if s2 >= s1 { s2 - s1 } else { s1 - s2 };
    assert(span == abs_diff(s1 as nat, s2 as nat));

    if d != 1 && !span.is_multiple_of(d) {
        // no intersection
        return zero_pair::<T>();
    }

    proof {
        vstd::arithmetic::div_mod::lemma_fundamental_div_mod(m1 as int, d as int);
        vstd::arithmetic::div_mod::lemma_fundamental_div_mod(m2 as int, d as int);
        assert(md1 >= 1 && md2 >= 1) by (nonlinear_arith)
            requires m1 == d * md1 + 0, m2 == d * md2 + 0, m1 > 0, m2 > 0, d > 0;
    }

    // d might be 1
    let m = match md1.checked_mul(md2) {
        Some(v) => match v.checked_mul(d) {
            Some(w) => w,
            None => return Err("intersection overflow"),
        },
        None => {
            assert(md1 * md2 * d >= md1 * md2) by (nonlinear_arith)
                requires d >= 1, md1 >= 1, md2 >= 1;
            return Err("intersection overflow");
        },
    };

    assert(m >= 1) by (nonlinear_arith)
        requires m == md1 * md2 * d, d >= 1, md1 >= 1, md2 >= 1;
    proof {
        if md2 != 1 && md1 != md2 {
            lemma_inverse_within_bound(m1 as nat, m2 as nat, d as nat, md1 as nat, md2 as nat);
        }
    }
    let g = match meziriac(md1, md2) {
        Ok(v) => v,
        Err(e) => return Err(e),
    };

    let step = match g.checked_mul(span) {
        Some(v) => v.checked_mul(md1),
        None => {
            assert(g * span * md1 >= g * span) by (nonlinear_arith)
                requires md1 >= 1;
            None
        },
    };
    let step = match step {
        Some(v) => v,
        None => return Err("intersection overflow"),
    };
    let raw = match s1.checked_add(step) {
        Some(v) => v,
        None => return Err("intersection overflow"),
    };
    let shift = raw % m;
    proof {
        vstd::arithmetic::div_mod::lemma_mod_bound(raw as int, m as int);
    }
    let m_out = match T::from_u128(m) {
        Some(v) => v,
        None => return Err("intersection conversion failure"),
    };
    let shift_out = match T::from_u128(shift) {
        Some(v) => v,
        None => return Err("intersection conversion failure"),
    };
    Ok((m_out, shift_out))
}

/// The inputs on which `intersection_spec` gives exactly the common
/// members of its two classes: all but those where both classes have a
/// positive modulus, the reduced shift of the first is above that of the
/// second, they have common members, and twice the distance between the
/// reduced shifts is not a multiple of the second modulus.
pub open spec fn intersection_exact(m1: nat, m2: nat, s1: nat, s2: nat) -> bool {
    let a = s1 % m1;
    let b = s2 % m2;
    let span = abs_diff(a, b);
    ||| m1 == 0
    ||| m2 == 0
    ||| a <= b
    ||| span % number_theory::gcd(m1, m2) != 0
    ||| (2 * span) % m2 == 0
}

/// Intersection of residual classes: where `intersection_spec` gives a
/// class (no step overflows) and the inputs are among those of
/// `intersection_exact`, an integer belongs to that class exactly when it
/// belongs to both `m1@s1` and `m2@s2`.
pub proof fn lemma_intersection_law(m1: nat, m2: nat, s1: nat, s2: nat, v: int)
    requires
        intersection_spec(m1, m2, s1, s2) is Some,
        intersection_exact(m1, m2, s1, s2),
    ensures
        ({
            let (m, sh) = intersection_spec(m1, m2, s1, s2)->0;
            residual_contains(m, sh, v) <==> (residual_contains(m1, s1, v) && residual_contains(m2, s2, v))
        }),
{
    if m1 > 0 && m2 > 0 {
        let a = s1 % m1;
        let b = s2 % m2;
        let d = number_theory::gcd(m1, m2);
        let span = abs_diff(a, b);
        number_theory::lemma_gcd_divides(m1, m2);
        lemma_fundamental_div_mod(m1 as int, d as int);
        lemma_fundamental_div_mod(m2 as int, d as int);
        let md1 = m1 / d;
        let md2 = m2 / d;
        lemma_mod_bound(s1 as int, m1 as int);
        lemma_mod_bound(s2 as int, m2 as int);
        assert(m1 == d * md1 && m2 == d * md2);
        if d == 1 {
            lemma_small_mod(0, 1);
            lemma_mod_multiples_vanish(span as int, 0, 1);
            assert(span % d == 0);
        }
        if span % d != 0 {
            lemma_no_common_member(m1, m2, d, md1, md2, a, b, v);
        } else {
            lemma_common_members(m1, m2, d, md1, md2, a, b, v);
            let m = md1 * md2 * d;
            let raw = a + meziriac_spec(md1, md2) * span * md1;
            assert(intersection_spec(m1, m2, s1, s2) == Some((m, raw % m)));
            vstd::arithmetic::div_mod::lemma_mod_twice(raw as int, m as int);
        }
    }
}

/// Where the distance between the reduced shifts is not a multiple of the
/// common divisor, no integer is in both classes.
proof fn lemma_no_common_member(m1: nat, m2: nat, d: nat, md1: nat, md2: nat, a: nat, b: nat, v: int)
    requires
        d > 0,
        m1 == d * md1,
        m2 == d * md2,
        m1 > 0,
        m2 > 0,
        a < m1,
        b < m2,
        abs_diff(a, b) % d != 0,
    ensures
        !(v % (m1 as int) == a && v % (m2 as int) == b),
{
    if v % (m1 as int) == a && v % (m2 as int) == b {
        lemma_fundamental_div_mod(v, m1 as int);
        lemma_fundamental_div_mod(v, m2 as int);
        let q1 = v / (m1 as int);
        let q2 = v / (m2 as int);
        let diff = abs_diff(a, b) as int;
        let k = if a <= b { q1 * md1 - q2 * md2 } else { q2 * md2 - q1 * md1 };
        assert(diff == (d as int) * k + 0) by (nonlinear_arith)
            requires
                v == (m1 as int) * q1 + a,
                v == (m2 as int) * q2 + b,
                m1 == d * md1,
                m2 == d * md2,
                diff == if a <= b { b - a } else { a - b },
                k == if a <= b { q1 * md1 - q2 * md2 } else { q2 * md2 - q1 * md1 },
        ;
        lemma_mod_multiples_vanish(k, 0, d as int);
        lemma_small_mod(0, d);
    }
}

/// The case of `lemma_intersection_law` where the classes have common
/// members.
proof fn lemma_common_members(m1: nat, m2: nat, d: nat, md1: nat, md2: nat, a: nat, b: nat, v: int)
    requires
        d == number_theory::gcd(m1, m2),
        d > 0,
        m1 == d * md1,
        m2 == d * md2,
        m1 > 0,
        m2 > 0,
        a < m1,
        b < m2,
        abs_diff(a, b) % d == 0,
        a <= b || (2 * abs_diff(a, b)) % m2 == 0,
        md1 * md2 * d <= u128::MAX,
    ensures
        md1 * md2 * d > 0,
        ({
            let m = md1 * md2 * d;
            let raw = a + meziriac_spec(md1, md2) * abs_diff(a, b) * md1;
            (m > 0 && v % (m as int) == (raw % m) as int) <==> (v % (m1 as int) == a && v % (m2 as int) == b)
        }),
{
    let span = abs_diff(a, b);
    let m = md1 * md2 * d;
    let g = meziriac_spec(md1, md2);
    let raw = a + g * span * md1;
    assert(md1 >= 1 && md2 >= 1 && m >= 1) by (nonlinear_arith)
        requires m1 == d * md1, m2 == d * md2, m1 > 0, m2 > 0, d > 0, m == md1 * md2 * d;
    // g * md1 leaves remainder one modulo md2 (or md2 is one)
    let e: int = lemma_inverse_multiplier(m1, m2, d, md1, md2);
    lemma_fundamental_div_mod(span as int, d as int);
    let t = span as int / d as int;
    // raw is a modulo m1 and b modulo m2
    assert(raw == (m1 as int) * (g * t) + a) by (nonlinear_arith)
        requires raw == a + g * span * md1, span == d * t + 0, m1 == d * md1;
    lemma_mod_multiples_vanish(g * t, a as int, m1 as int);
    lemma_small_mod(a, m1);
    assert(raw == (m2 as int) * (e * t) + (a + span)) by (nonlinear_arith)
        requires
            raw == a + g * span * md1,
            span == d * t + 0,
            m2 == d * md2,
            g * md1 == 1 + e * md2,
    ;
    lemma_mod_multiples_vanish(e * t, (a + span) as int, m2 as int);
    if a > b {
        lemma_fundamental_div_mod((2 * span) as int, m2 as int);
        let k = (2 * span) as int / (m2 as int);
        assert((a + span) as int == (m2 as int) * k + b) by (nonlinear_arith)
            requires (2 * span) as int == (m2 as int) * k + 0, span == a - b;
        lemma_mod_multiples_vanish(k, b as int, m2 as int);
    }
    lemma_small_mod(b, m2);
    assert(raw % (m1 as nat) == a && raw % (m2 as nat) == b);
    // v agrees with raw modulo m exactly when it does modulo m1 and m2
    lemma_mod_equivalence(v, raw as int, m as int);
    lemma_mod_equivalence(v, raw as int, m1 as int);
    lemma_mod_equivalence(v, raw as int, m2 as int);
    lemma_mod_bound(raw as int, m as int);
    lemma_small_mod(raw % m, m);
    lemma_mod_bound(v, m as int);
    let y = v - raw;
    if y % (m as int) == 0 {
        lemma_fundamental_div_mod(y, m as int);
        let k = y / (m as int);
        assert(y == (m1 as int) * (k * md2) + 0 && y == (m2 as int) * (k * md1) + 0) by (nonlinear_arith)
            requires y == (m as int) * k + 0, m == md1 * md2 * d, m1 == d * md1, m2 == d * md2;
        lemma_mod_multiples_vanish(k * md2, 0, m1 as int);
        lemma_mod_multiples_vanish(k * md1, 0, m2 as int);
        lemma_small_mod(0, m1);
        lemma_small_mod(0, m2);
    }
    if y % (m1 as int) == 0 && y % (m2 as int) == 0 {
        lemma_fundamental_div_mod(y, m1 as int);
        lemma_fundamental_div_mod(y, m2 as int);
        let k1 = y / (m1 as int);
        let k2 = y / (m2 as int);
        assert(k1 * md1 == k2 * md2) by (nonlinear_arith)
            requires y == (m1 as int) * k1 + 0, y == (m2 as int) * k2 + 0, m1 == d * md1, m2 == d * md2, d > 0,
        {
            assert((k1 * md1 - k2 * md2) * d == 0);
        }
        let k = g * k2 - k1 * e;
        assert(y == (m as int) * k + 0) by (nonlinear_arith)
            requires
                y == (m1 as int) * k1 + 0,
                m1 == d * md1,
                m == md1 * md2 * d,
                k1 * md1 == k2 * md2,
                g * md1 == 1 + e * md2,
                k == g * k2 - k1 * e,
        {
            assert(k1 == k1 * (g * md1) - k1 * e * md2);
            assert(k1 * (g * md1) == g * (k1 * md1));
            assert(k1 == k * md2);
        }
        lemma_mod_multiples_vanish(k, 0, m as int);
        lemma_small_mod(0, m);
    }
}

/// `meziriac_spec(md1, md2) * md1` is one more than a multiple of `md2`,
/// where `md1` and `md2` are the two moduli divided by their greatest common
/// divisor; returns that multiple's factor.
proof fn lemma_inverse_multiplier(m1: nat, m2: nat, d: nat, md1: nat, md2: nat) -> (e: int)
    requires
        d == number_theory::gcd(m1, m2),
        d > 0,
        m1 == d * md1,
        m2 == d * md2,
        md1 >= 1,
        md2 >= 1,
    ensures
        meziriac_spec(md1, md2) * md1 == 1 + e * md2,
{
    let g = meziriac_spec(md1, md2);
    number_theory::lemma_bezout(m1, m2);
    let (x, y) = number_theory::bezout(m1, m2);
    assert(x * md1 + y * md2 == 1) by (nonlinear_arith)
        requires
            x * m1 + y * m2 == d,
            m1 == d * md1,
            m2 == d * md2,
            d > 0,
    {
        assert((x * md1 + y * md2) * d == 1 * d);
    }
    if md2 == 1 {
        (md1 - 1) as int
    } else {
        if md1 == md2 {
            assert(md2 * (x + y) == 1) by (nonlinear_arith)
                requires x * md1 + y * md2 == 1, md1 == md2;
            assert(false) by (nonlinear_arith)
                requires md2 * (x + y) == 1, md2 > 1;
        }
        number_theory::lemma_inverse_exists(md1, md2, x, y);
        let w = choose|w: nat| 1 <= w < md2 && #[trigger] is_inverse(md1, md2, w);
        lemma_least_inverse_exists(md1, md2, w);
        assert(is_least_inverse(md1, md2, g));
        lemma_fundamental_div_mod((g * md1) as int, md2 as int);
        (g * md1) as int / (md2 as int)
    }
}

/// Where some inverse exists, a least one does.
proof fn lemma_least_inverse_exists(a: nat, b: nat, w: nat)
    requires
        1 <= w,
        is_inverse(a, b, w),
    ensures
        exists|g: nat| is_least_inverse(a, b, g),
    decreases w,
{
    if !is_least_inverse(a, b, w) {
        let h = choose|h: nat| 1 <= h < w && #[trigger] is_inverse(a, b, h);
        lemma_least_inverse_exists(a, b, h);
    }
}

/// Where `d` is the greatest common divisor of `m1 == md1 * d` and
/// `m2 == md2 * d`, with `md2 > 1` and the product of all three in `u128`,
/// `md1` has an inverse modulo `md2` whose product with `md1` is in `u128`.
proof fn lemma_inverse_within_bound(m1: nat, m2: nat, d: nat, md1: nat, md2: nat)
    requires
        m1 > 0,
        m2 > 0,
        d == number_theory::gcd(m1, m2),
        m1 == d * md1,
        m2 == d * md2,
        md2 > 1,
        md1 * md2 * d <= u128::MAX,
    ensures
        exists|w: nat| 1 <= w && w * md1 <= u128::MAX && #[trigger] is_inverse(md1, md2, w),
{
    number_theory::lemma_gcd_divides(m1, m2);
    number_theory::lemma_bezout(m1, m2);
    let (x, y) = number_theory::bezout(m1, m2);
    assert(x * md1 + y * md2 == 1) by (nonlinear_arith)
        requires
            x * m1 + y * m2 == d,
            m1 == d * md1,
            m2 == d * md2,
            d > 0,
    {
        assert((x * md1 + y * md2) * d == 1 * d);
    }
    number_theory::lemma_inverse_exists(md1, md2, x, y);
    let w = choose|w: nat| 1 <= w < md2 && #[trigger] is_inverse(md1, md2, w);
    assert(w * md1 <= md1 * md2 * d) by (nonlinear_arith)
        requires w < md2, d >= 1;
}

/// Where `md1` and `md2` are the two moduli divided by their greatest
/// common divisor, `meziriac_spec(md1, md2)` is at most `md2`.
proof fn lemma_meziriac_bound(m1: nat, m2: nat, d: nat, md1: nat, md2: nat)
    requires
        d == number_theory::gcd(m1, m2),
        d > 0,
        m1 == d * md1,
        m2 == d * md2,
        md1 >= 1,
        md2 >= 1,
    ensures
        meziriac_spec(md1, md2) <= md2,
{
    if md2 > 1 {
        number_theory::lemma_bezout(m1, m2);
        let (x, y) = number_theory::bezout(m1, m2);
        assert(x * md1 + y * md2 == 1) by (nonlinear_arith)
            requires
                x * m1 + y * m2 == d,
                m1 == d * md1,
                m2 == d * md2,
                d > 0,
        {
            assert((x * md1 + y * md2) * d == 1 * d);
        }
        if md1 == md2 {
            assert(md2 * (x + y) == 1) by (nonlinear_arith)
                requires x * md1 + y * md2 == 1, md1 == md2;
            assert(false) by (nonlinear_arith)
                requires md2 * (x + y) == 1, md2 > 1;
        }
        number_theory::lemma_inverse_exists(md1, md2, x, y);
        let w = choose|w: nat| 1 <= w < md2 && #[trigger] is_inverse(md1, md2, w);
        lemma_least_inverse_exists(md1, md2, w);
        let g = least_inverse(md1, md2);
        assert(is_least_inverse(md1, md2, g));
        if g > w {
            assert(!is_inverse(md1, md2, w));
        }
    }
}

/// The intersection of two classes with positive moduli is always
/// computed where the moduli are small enough for its arithmetic
/// (`m1 * m2 * (m1 + m2)` fits in a `u128`): the result is the empty class
/// `0@0` exactly when no integer is in both classes, and otherwise a class
/// whose modulus is the least common multiple of `m1` and `m2` (its product
/// with their greatest common divisor is `m1 * m2`) and whose shift lies
/// below that modulus.
pub proof fn lemma_intersection_total(m1: nat, m2: nat, s1: nat, s2: nat)
    requires
        m1 > 0,
        m2 > 0,
        m1 * m2 * (m1 + m2) <= u128::MAX,
    ensures
        intersection_spec(m1, m2, s1, s2) is Some,
        ({
            let (m, sh) = intersection_spec(m1, m2, s1, s2)->0;
            &&& (m == 0 && sh == 0) <==> !(exists|v: int| #[trigger] residual_contains(m1, s1, v)
                && residual_contains(m2, s2, v))
            &&& m > 0 ==> m * number_theory::gcd(m1, m2) == m1 * m2 && sh < m
            &&& m == 0 ==> sh == 0
        }),
{
    let a = s1 % m1;
    let b = s2 % m2;
    let d = number_theory::gcd(m1, m2);
    let span = abs_diff(a, b);
    number_theory::lemma_gcd_divides(m1, m2);
    lemma_fundamental_div_mod(m1 as int, d as int);
    lemma_fundamental_div_mod(m2 as int, d as int);
    let md1 = m1 / d;
    let md2 = m2 / d;
    lemma_mod_bound(s1 as int, m1 as int);
    lemma_mod_bound(s2 as int, m2 as int);
    assert(m1 == d * md1 && m2 == d * md2);
    assert(md1 >= 1 && md2 >= 1) by (nonlinear_arith)
        requires m1 == d * md1, m2 == d * md2, m1 > 0, m2 > 0, d > 0;
    if d == 1 {
        lemma_small_mod(0, 1);
        lemma_mod_multiples_vanish(span as int, 0, 1);
        assert(span % d == 0);
    }
    if span % d != 0 {
        assert(intersection_spec(m1, m2, s1, s2) == Some((0nat, 0nat)));
        assert forall|v: int| !(#[trigger] residual_contains(m1, s1, v) && residual_contains(m2, s2, v)) by {
            lemma_no_common_member(m1, m2, d, md1, md2, a, b, v);
        }
    } else {
        let m = md1 * md2 * d;
        let g = meziriac_spec(md1, md2);
        lemma_meziriac_bound(m1, m2, d, md1, md2);
        assert(m * d == m1 * m2 && m <= m1 * m2 && m >= 1) by (nonlinear_arith)
            requires m == md1 * md2 * d, m1 == d * md1, m2 == d * md2, d >= 1, md1 >= 1, md2 >= 1;
        assert(m1 * m2 <= m1 * m2 * (m1 + m2)) by (nonlinear_arith)
            requires m1 > 0, m2 > 0;
        assert(span < m1 + m2);
        let raw = a + g * span * md1;
        assert(raw <= m1 * m2 * (m1 + m2)) by (nonlinear_arith)
            requires
                raw == a + g * span * md1,
                a < m1,
                g <= md2,
                span < m1 + m2,
                md1 * md2 * d == m,
                m <= m1 * m2,
                d >= 1,
                m1 >= 1,
                m2 >= 1,
        {
            assert(g * md1 <= md2 * md1);
            assert(md2 * md1 <= m);
            assert(g * span * md1 == (g * md1) * span);
            assert((g * md1) * span <= (m1 * m2) * span);
            assert((m1 * m2) * span <= (m1 * m2) * (m1 + m2 - 1));
            assert((m1 * m2) * (m1 + m2 - 1) == m1 * m2 * (m1 + m2) - m1 * m2);
        }
        assert(intersection_spec(m1, m2, s1, s2) == Some((m, raw % m)));
        lemma_mod_bound(raw as int, m as int);
        // a common member: a + m1 * g * delta, where b - a == d * delta
        let e: int = lemma_inverse_multiplier(m1, m2, d, md1, md2);
        lemma_fundamental_div_mod(span as int, d as int);
        let t = span as int / d as int;
        let delta: int = if a <= b { t } else { -t };
        assert(b - a == d * delta) by (nonlinear_arith)
            requires span == d * t + 0, span == if a <= b { b - a } else { a - b },
                delta == if a <= b { t } else { -t };
        let v = a + (m1 as int) * (g * delta);
        assert(v == (m2 as int) * (delta * e) + b) by (nonlinear_arith)
            requires
                v == a + (m1 as int) * (g * delta),
                m1 == d * md1,
                m2 == d * md2,
                g * md1 == 1 + e * md2,
                b - a == d * delta,
        {
            assert((m1 as int) * (g * delta) == d * delta * (g * md1));
        }
        assert(v == (m1 as int) * (g * delta) + a);
        lemma_mod_multiples_vanish(g * delta, a as int, m1 as int);
        lemma_small_mod(a, m1);
        lemma_mod_multiples_vanish(delta * e, b as int, m2 as int);
        lemma_small_mod(b, m2);
        assert(residual_contains(m1, s1, v) && residual_contains(m2, s2, v));
    }
}

} // verus!
