use vstd::prelude::*;
use crate::unsigned::UnsignedInt;
use crate::text::{decimal, push_decimal, string_from_chars};
use crate::util::{intersection, intersection_exact, intersection_spec, lemma_intersection_law, lemma_intersection_total};
use crate::number_theory;
use core::cmp::Ordering;
use core::ops::BitAnd;
use vstd::std_specs::cmp::{PartialEqIs, PartialEqSpec, PartialOrdIs, PartialOrdSpec};
use vstd::std_specs::ops::BitAndSpecImpl;

verus! {

/// A residual class: the integers congruent to `shift` modulo `modulus`.
/// A modulus of zero stands for the empty class.
#[derive(Clone, Copy, Debug, Eq, Ord)]
pub struct Residual<T> {
    modulus: T,
    shift: T,
}

/// Two classes are `==` when their moduli and their shifts are.
impl<T: PartialEq> PartialEq for Residual<T> {
    fn eq(&self, other: &Self) -> (r: bool) {
        self.modulus.eq(&other.modulus) && self.shift.eq(&other.shift)
    }
}

impl<T: PartialEq> vstd::std_specs::cmp::PartialEqSpecImpl for Residual<T> {
    open spec fn obeys_eq_spec() -> bool {
        T::obeys_eq_spec()
    }

    closed spec fn eq_spec(&self, other: &Self) -> bool {
        self.modulus.eq_spec(&other.modulus) && self.shift.eq_spec(&other.shift)
    }
}

/// Classes are ordered by their moduli, then by their shifts.
impl<T: PartialOrd> PartialOrd for Residual<T> {
    fn partial_cmp(&self, other: &Self) -> (r: Option<Ordering>) {
        match self.modulus.partial_cmp(&other.modulus) {
            Some(Ordering::Equal) => self.shift.partial_cmp(&other.shift),
            by_modulus => by_modulus,
        }
    }
}

impl<T: PartialOrd> vstd::std_specs::cmp::PartialOrdSpecImpl for Residual<T> {
    open spec fn obeys_partial_cmp_spec() -> bool {
        T::obeys_partial_cmp_spec()
    }

    closed spec fn partial_cmp_spec(&self, other: &Self) -> Option<Ordering> {
        match self.modulus.partial_cmp_spec(&other.modulus) {
            Some(Ordering::Equal) => self.shift.partial_cmp_spec(&other.shift),
            by_modulus => by_modulus,
        }
    }
}

/// Whether the integer `v` belongs to the class `m@s`.
pub open spec fn residual_contains(m: nat, s: nat, v: int) -> bool {
    m != 0 && v % (m as int) == (s % m) as int
}

impl<T: UnsignedInt> Residual<T> {
    pub closed spec fn modulus_nat(self) -> nat {
        self.modulus.as_nat()
    }

    pub closed spec fn shift_nat(self) -> nat {
        self.shift.as_nat()
    }

    /// Two classes are the same value exactly when their moduli and their
    /// stored shifts are the same numbers. With `new`, which stores the
    /// reduced shift, `new(m, a)` and `new(m, b)` are equal exactly when
    /// `m` is zero or `a` and `b` agree modulo `m`.
    pub proof fn lemma_residual_eq(self, other: Self)
        ensures
            self == other <==> (self.modulus_nat() == other.modulus_nat()
                && self.shift_nat() == other.shift_nat()),
    {
        self.modulus.lemma_injective(other.modulus);
        self.shift.lemma_injective(other.shift);
    }

    /// `==` on classes compares their moduli and their stored shifts, and
    /// `<`, `<=`, `>`, `>=` order classes by modulus, then by shift.
    pub proof fn lemma_residual_compare(self, other: Self)
        ensures
            Self::obeys_eq_spec(),
            Self::obeys_partial_cmp_spec(),
            self.is_eq(&other) == (self.modulus_nat() == other.modulus_nat()
                && self.shift_nat() == other.shift_nat()),
            self.is_lt(&other) == (self.modulus_nat() < other.modulus_nat()
                || (self.modulus_nat() == other.modulus_nat() && self.shift_nat() < other.shift_nat())),
            self.is_le(&other) == (self.modulus_nat() < other.modulus_nat()
                || (self.modulus_nat() == other.modulus_nat() && self.shift_nat() <= other.shift_nat())),
            self.is_gt(&other) == (self.modulus_nat() > other.modulus_nat()
                || (self.modulus_nat() == other.modulus_nat() && self.shift_nat() > other.shift_nat())),
            self.is_ge(&other) == (self.modulus_nat() > other.modulus_nat()
                || (self.modulus_nat() == other.modulus_nat() && self.shift_nat() >= other.shift_nat())),
    {
        self.modulus.lemma_compare(other.modulus);
        self.shift.lemma_compare(other.shift);
    }

    /// Two classes built by `new` with the same modulus `m` from the shifts
    /// `a` and `b` are equal exactly when `m` is zero or `a` and `b` agree
    /// modulo `m`.
    pub proof fn lemma_new_eq(m: T, a: T, b: T, r1: Self, r2: Self)
        requires
            r1.modulus_nat() == m.as_nat(),
            r1.shift_nat() == if m.as_nat() == 0 { 0 } else { a.as_nat() % m.as_nat() },
            r2.modulus_nat() == m.as_nat(),
            r2.shift_nat() == if m.as_nat() == 0 { 0 } else { b.as_nat() % m.as_nat() },
        ensures
            r1 == r2 <==> (m.as_nat() == 0 || a.as_nat() % m.as_nat() == b.as_nat() % m.as_nat()),
    {
        r1.lemma_residual_eq(r2);
    }

    /// Builds the class `modulus@shift`, with the shift reduced modulo the
    /// modulus (and zero for the empty class).
    pub fn new(modulus: T, shift: T) -> (r: Self)
        ensures
            r.modulus_nat() == modulus.as_nat(),
            r.shift_nat() == if modulus.as_nat() == 0 { 0 } else { shift.as_nat() % modulus.as_nat() },
    {
        let m = modulus.to_u128();
        if m == 0 {
            Residual { modulus, shift: modulus }
        } else {
            let s = shift.to_u128() % m;
            proof { modulus.lemma_range(); }
            let shift = T::from_u128(s).unwrap();
            Residual { modulus, shift }
        }
    }
}

impl<T: UnsignedInt> Residual<T> {
    /// Whether `value` belongs to this class.
    pub fn contains(&self, value: i128) -> (r: bool)
        ensures
            r == residual_contains(self.modulus_nat(), self.shift_nat(), value as int),
    {
        let modulus: u128 = self.modulus.to_u128();
        if modulus == 0 {
            return false;
        }
        let shift = self.shift.to_u128() % modulus;
        let value_mod = if value >= 0 {
            (value as u128) % modulus
        } else {
            let mag = unsigned_magnitude(value) % modulus;
            if mag == 0 {
                0
            } else {
                modulus - mag
            }
        };
        proof {
            lemma_negative_mod(value as int, modulus as int);
        }
        value_mod == shift
    }
}

/// The magnitude of a negative `i128`, which always fits in a `u128`.
fn unsigned_magnitude(value: i128) -> (r: u128)
    requires
        value < 0,
    ensures
        r == -(value as int),
{
    let less: i128 = -(value + 1);
    (less as u128) + 1
}

/// For a negative `v`, the Euclidean remainder modulo `m` is `m - (|v| % m)`,
/// or zero when `m` divides `v`.
proof fn lemma_negative_mod(v: int, m: int)
    requires
        m > 0,
    ensures
        v < 0 ==> v % m == if (-v) % m == 0 { 0 } else { m - (-v) % m },
{
    if v < 0 {
        let a = -v;
        vstd::arithmetic::div_mod::lemma_fundamental_div_mod(a, m);
        let q = a / m;
        let r = a % m;
        assert(v == (-q) * m + (-r)) by (nonlinear_arith)
            requires a == q * m + r, v == -a;
        if r == 0 {
            vstd::arithmetic::div_mod::lemma_fundamental_div_mod_converse(v, m, -q, 0);
        } else {
            assert(v == (-q - 1) * m + (m - r)) by (nonlinear_arith)
                requires v == (-q) * m + (-r);
            vstd::arithmetic::div_mod::lemma_mod_bound(a, m);
            vstd::arithmetic::div_mod::lemma_fundamental_div_mod_converse(v, m, -q - 1, m - r);
        }
    }
}

/// The notation `modulus@shift` of a class.
pub open spec fn residual_text(m: nat, s: nat) -> Seq<char> {
    decimal(m) + seq!['@'] + decimal(s)
}

impl<T: UnsignedInt> Residual<T> {
    /// Appends the notation `modulus@shift` of this class to `out`.
    pub fn write_to(&self, out: &mut Vec<char>)
        ensures
            final(out)@ == old(out)@ + residual_text(self.modulus_nat(), self.shift_nat()),
    {
        push_decimal(out, self.modulus.to_u128());
        out.push('@');
        push_decimal(out, self.shift.to_u128());
        proof {
            assert(out@ == old(out)@ + residual_text(self.modulus_nat(), self.shift_nat()));
        }
    }

    /// The notation `modulus@shift` of this class.
    pub fn to_string(&self) -> (r: String)
        ensures
            r@ == residual_text(self.modulus_nat(), self.shift_nat()),
    {
        let mut out: Vec<char> = Vec::new();
        self.write_to(&mut out);
        proof {
            assert(out@ == residual_text(self.modulus_nat(), self.shift_nat()));
        }
        string_from_chars(&out)
    }
}

/// The notation that `to_string` writes for a class reads back as that
/// class: its two numbers are the modulus and the shift.
pub proof fn lemma_residual_text_roundtrip(m: nat, s: nat)
    ensures
        crate::parser::residual_value(residual_text(m, s)) == Some((m, s)),
{
    let dm = decimal(m);
    let ds = decimal(s);
    let t = residual_text(m, s);
    crate::text::lemma_decimal_digits(m);
    crate::text::lemma_decimal_digits(s);
    assert(t == dm + seq!['@'] + ds);
    assert forall|j: int| 0 <= j < dm.len() implies t[j] != '@' by {
        assert(t[j] == dm[j]);
        assert(crate::parser::is_digit(dm[j]));
    }
    assert(t[dm.len() as int] == '@');
    crate::parser::lemma_at_index(t, dm.len() as int);
    assert(t.take(dm.len() as int) == dm);
    assert(t.skip(dm.len() as int + 1) == ds);
}

/// The class that `r1 & r2` gives, where one can be had: the class that
/// `intersection` computes, built with `Residual::new`.
pub open spec fn residual_and_spec(m1: nat, s1: nat, m2: nat, s2: nat) -> Option<(nat, nat)> {
    match intersection_spec(m1, m2, s1, s2) {
        None => None,
        Some((m, sh)) => Some((m, if m == 0 { 0 } else { sh % m })),
    }
}

impl<T: UnsignedInt> Residual<T> {
    /// Whether `self & rhs` can be computed: no step of the intersection
    /// overflows and its modulus and shift fit in `T`.
    pub open spec fn and_defined(self, rhs: Self) -> bool {
        match intersection_spec(self.modulus_nat(), rhs.modulus_nat(), self.shift_nat(), rhs.shift_nat()) {
            None => false,
            Some((m, sh)) => m <= T::max_value() && sh <= T::max_value(),
        }
    }

    /// `self & rhs` is defined for classes with positive moduli where the
    /// moduli are small enough for the arithmetic of the intersection
    /// (`m1 * m2 * (m1 + m2)` fits in a `u128`) and their least common
    /// multiple fits in `T` (`m1 * m2` is at most `T`'s largest value times
    /// their greatest common divisor).
    pub proof fn lemma_and_total(self, rhs: Self)
        requires
            self.modulus_nat() > 0,
            rhs.modulus_nat() > 0,
            self.modulus_nat() * rhs.modulus_nat() * (self.modulus_nat() + rhs.modulus_nat()) <= u128::MAX,
            self.modulus_nat() * rhs.modulus_nat()
                <= T::max_value() * number_theory::gcd(self.modulus_nat(), rhs.modulus_nat()),
        ensures
            self.and_defined(rhs),
    {
        let m1 = self.modulus_nat();
        let m2 = rhs.modulus_nat();
        let g = number_theory::gcd(m1, m2);
        let max = T::max_value();
        lemma_intersection_total(m1, m2, self.shift_nat(), rhs.shift_nat());
        number_theory::lemma_gcd_divides(m1, m2);
        let (m, sh) = intersection_spec(m1, m2, self.shift_nat(), rhs.shift_nat())->0;
        if m > 0 {
            assert(m <= max) by (nonlinear_arith)
                requires m * g == m1 * m2, m1 * m2 <= max * g, g > 0;
        }
        assert(m <= max && sh <= max);
    }

    /// The class `self & rhs`.
    pub open spec fn and_spec(self, rhs: Self) -> Self {
        let (m, s) = residual_and_spec(self.modulus_nat(), self.shift_nat(), rhs.modulus_nat(), rhs.shift_nat())->0;
        Self::from_nats(m, s)
    }

    /// The residual with the given modulus and shift, where the numbers fit in
    /// `T`.
    pub open spec fn from_nats(m: nat, s: nat) -> Self {
        choose|r: Self| r.modulus_nat() == m && r.shift_nat() == s
    }
}

impl<T: UnsignedInt> BitAnd for Residual<T> {
    type Output = Residual<T>;

    fn bitand(self, rhs: Self) -> Self::Output {
        let (m, s) = intersection(self.modulus, rhs.modulus, self.shift, rhs.shift).unwrap();
        let r = Self::new(m, s);
        proof {
            let (mn, sn) = residual_and_spec(self.modulus_nat(), self.shift_nat(), rhs.modulus_nat(), rhs.shift_nat())->0;
            let c = Self::from_nats(mn, sn);
            assert(r.modulus_nat() == mn && r.shift_nat() == sn);
            r.modulus.lemma_injective(c.modulus);
            r.shift.lemma_injective(c.shift);
        }
        r
    }
}

impl<T: UnsignedInt> BitAndSpecImpl for Residual<T> {
    open spec fn obeys_bitand_spec() -> bool {
        true
    }

    open spec fn bitand_req(self, rhs: Self) -> bool {
        self.and_defined(rhs)
    }

    open spec fn bitand_spec(self, rhs: Self) -> Self {
        self.and_spec(rhs)
    }
}

/// Intersection of two residual classes by `&`: where `r1 & r2` can be
/// computed and the classes are among those of `intersection_exact`, an
/// integer belongs to `r1 & r2` exactly when it belongs to both `r1` and
/// `r2`.
pub proof fn lemma_residual_and<T: UnsignedInt>(r1: Residual<T>, r2: Residual<T>, v: int)
    requires
        r1.and_defined(r2),
        intersection_exact(r1.modulus_nat(), r2.modulus_nat(), r1.shift_nat(), r2.shift_nat()),
    ensures
        ({
            let r = r1.and_spec(r2);
            residual_contains(r.modulus_nat(), r.shift_nat(), v)
                <==> (residual_contains(r1.modulus_nat(), r1.shift_nat(), v)
                    && residual_contains(r2.modulus_nat(), r2.shift_nat(), v))
        }),
{
    lemma_intersection_law(r1.modulus_nat(), r2.modulus_nat(), r1.shift_nat(), r2.shift_nat(), v);
    let (m, sh) = intersection_spec(r1.modulus_nat(), r2.modulus_nat(), r1.shift_nat(), r2.shift_nat())->0;
    let (mn, sn) = residual_and_spec(r1.modulus_nat(), r1.shift_nat(), r2.modulus_nat(), r2.shift_nat())->0;
    T::lemma_range(r1.modulus);
    T::lemma_surjective(mn);
    T::lemma_surjective(sn);
    let wm = choose|x: T| x.as_nat() == mn;
    let ws = choose|x: T| x.as_nat() == sn;
    let w = Residual::<T> { modulus: wm, shift: ws };
    assert(w.modulus_nat() == mn && w.shift_nat() == sn);
    if m != 0 {
        vstd::arithmetic::div_mod::lemma_mod_twice(sh as int, m as int);
    }
}

} // verus!
