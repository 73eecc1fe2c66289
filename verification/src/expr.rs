use vstd::prelude::*;
use crate::residual::{residual_contains, residual_text};

verus! {

/// The mathematical shape of a sieve: residual classes (the leaves)
/// combined by intersection, union, symmetric difference and inversion.
pub enum Expr<L> {
    Leaf(L),
    Intersection(Box<Expr<L>>, Box<Expr<L>>),
    Union(Box<Expr<L>>, Box<Expr<L>>),
    SymmetricDifference(Box<Expr<L>>, Box<Expr<L>>),
    Inversion(Box<Expr<L>>),
}

/// Whether the integer `v` belongs to the sieve `e`, whose leaves are
/// classes `(modulus, shift)`.
pub open spec fn expr_contains(e: Expr<(nat, nat)>, v: int) -> bool
    decreases e,
{
    match e {
        Expr::Leaf((m, s)) => residual_contains(m, s, v),
        Expr::Intersection(l, r) => expr_contains(*l, v) && expr_contains(*r, v),
        Expr::Union(l, r) => expr_contains(*l, v) || expr_contains(*r, v),
        Expr::SymmetricDifference(l, r) => expr_contains(*l, v) != expr_contains(*r, v),
        Expr::Inversion(p) => !expr_contains(*p, v),
    }
}

/// The notation of a sieve: each class as `modulus@shift`, the binary
/// operations written between their operands with `&`, `|` and `^`, and an
/// inversion written `!(...)` around its operand.
pub open spec fn render(e: Expr<(nat, nat)>) -> Seq<char>
    decreases e,
{
    match e {
        Expr::Leaf((m, s)) => residual_text(m, s),
        Expr::Intersection(l, r) => render(*l) + seq!['&'] + render(*r),
        Expr::Union(l, r) => render(*l) + seq!['|'] + render(*r),
        Expr::SymmetricDifference(l, r) => render(*l) + seq!['^'] + render(*r),
        Expr::Inversion(p) => seq!['!', '('] + render(*p) + seq![')'],
    }
}

/// A period of the sieve `e`: the product of the positive moduli of its
/// classes.
pub open spec fn period(e: Expr<(nat, nat)>) -> nat
    decreases e,
{
    match e {
        Expr::Leaf((m, s)) => if m == 0 { 1 } else { m },
        Expr::Intersection(l, r) => period(*l) * period(*r),
        Expr::Union(l, r) => period(*l) * period(*r),
        Expr::SymmetricDifference(l, r) => period(*l) * period(*r),
        Expr::Inversion(p) => period(*p),
    }
}

/// Sieves are periodic: `period(e)` is positive, and shifting an integer by
/// any multiple of it does not change whether it belongs to `e`.
pub proof fn lemma_sieve_periodic(e: Expr<(nat, nat)>, v: int, k: int)
    ensures
        period(e) >= 1,
        expr_contains(e, v + k * period(e)) == expr_contains(e, v),
    decreases e,
{
    lemma_period_positive(e);
    match e {
        Expr::Leaf((m, s)) => {
            if m != 0 {
                vstd::arithmetic::div_mod::lemma_mod_multiples_vanish(k, v, m as int);
                assert(v + k * m == (m as int) * k + v) by (nonlinear_arith);
            }
        },
        Expr::Inversion(p) => {
            lemma_sieve_periodic(*p, v, k);
        },
        Expr::Intersection(l, r) => {
            let pl = period(*l);
            let pr = period(*r);
            assert(k * (pl * pr) == (k * pr) * pl && k * (pl * pr) == (k * pl) * pr) by (nonlinear_arith);
            lemma_sieve_periodic(*l, v, k * pr);
            lemma_sieve_periodic(*r, v, k * pl);
        },
        Expr::Union(l, r) => {
            let pl = period(*l);
            let pr = period(*r);
            assert(k * (pl * pr) == (k * pr) * pl && k * (pl * pr) == (k * pl) * pr) by (nonlinear_arith);
            lemma_sieve_periodic(*l, v, k * pr);
            lemma_sieve_periodic(*r, v, k * pl);
        },
        Expr::SymmetricDifference(l, r) => {
            let pl = period(*l);
            let pr = period(*r);
            assert(k * (pl * pr) == (k * pr) * pl && k * (pl * pr) == (k * pl) * pr) by (nonlinear_arith);
            lemma_sieve_periodic(*l, v, k * pr);
            lemma_sieve_periodic(*r, v, k * pl);
        },
    }
}

/// Whether every positive modulus among the classes of `e` divides `p`.
pub open spec fn divides_moduli(e: Expr<(nat, nat)>, p: nat) -> bool
    decreases e,
{
    match e {
        Expr::Leaf((m, s)) => m == 0 || p % m == 0,
        Expr::Intersection(l, r) => divides_moduli(*l, p) && divides_moduli(*r, p),
        Expr::Union(l, r) => divides_moduli(*l, p) && divides_moduli(*r, p),
        Expr::SymmetricDifference(l, r) => divides_moduli(*l, p) && divides_moduli(*r, p),
        Expr::Inversion(q) => divides_moduli(*q, p),
    }
}

/// Sieves are periodic with any common multiple of their moduli, the least
/// common multiple among them: where every positive modulus of `e` divides
/// `p`, shifting an integer by any multiple of `p` does not change whether
/// it belongs to `e`.
pub proof fn lemma_sieve_common_period(e: Expr<(nat, nat)>, p: nat, v: int, k: int)
    requires
        divides_moduli(e, p),
    ensures
        expr_contains(e, v + k * p) == expr_contains(e, v),
    decreases e,
{
    match e {
        Expr::Leaf((m, s)) => {
            if m != 0 {
                let q = p / m;
                vstd::arithmetic::div_mod::lemma_fundamental_div_mod(p as int, m as int);
                assert(p == m * q);
                vstd::arithmetic::div_mod::lemma_mod_multiples_vanish(k * q, v, m as int);
                assert(v + k * p == (m as int) * (k * q) + v) by (nonlinear_arith)
                    requires p == m * q;
            }
        },
        Expr::Inversion(q) => {
            lemma_sieve_common_period(*q, p, v, k);
        },
        Expr::Intersection(l, r) => {
            lemma_sieve_common_period(*l, p, v, k);
            lemma_sieve_common_period(*r, p, v, k);
        },
        Expr::Union(l, r) => {
            lemma_sieve_common_period(*l, p, v, k);
            lemma_sieve_common_period(*r, p, v, k);
        },
        Expr::SymmetricDifference(l, r) => {
            lemma_sieve_common_period(*l, p, v, k);
            lemma_sieve_common_period(*r, p, v, k);
        },
    }
}

proof fn lemma_period_positive(e: Expr<(nat, nat)>)
    ensures
        period(e) >= 1,
    decreases e,
{
    match e {
        Expr::Leaf(_) => {},
        Expr::Inversion(p) => {
            lemma_period_positive(*p);
        },
        Expr::Intersection(l, r) => {
            lemma_period_positive(*l);
            lemma_period_positive(*r);
            assert(period(*l) * period(*r) >= 1) by (nonlinear_arith)
                requires period(*l) >= 1, period(*r) >= 1;
        },
        Expr::Union(l, r) => {
            lemma_period_positive(*l);
            lemma_period_positive(*r);
            assert(period(*l) * period(*r) >= 1) by (nonlinear_arith)
                requires period(*l) >= 1, period(*r) >= 1;
        },
        Expr::SymmetricDifference(l, r) => {
            lemma_period_positive(*l);
            lemma_period_positive(*r);
            assert(period(*l) * period(*r) >= 1) by (nonlinear_arith)
                requires period(*l) >= 1, period(*r) >= 1;
        },
    }
}

} // verus!
