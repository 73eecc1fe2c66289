use vstd::prelude::*;
use std::rc::Rc;
use core::ops::{BitAnd, BitOr, BitXor, Not};
use vstd::std_specs::ops::{BitAndSpecImpl, BitOrSpecImpl, BitXorSpecImpl, NotSpecImpl};
use vstd::std_specs::ops::{BitAndSpec, BitOrSpec, BitXorSpec, NotSpec};
use crate::unsigned::UnsignedInt;
use crate::residual::Residual;
use crate::expr::{expr_contains, render, Expr};
use crate::text::string_from_chars;
use crate::compose::{lemma_parse_compose, lemma_parse_operand, parenthesized};
use crate::parser::{
    infix_to_postfix, lemma_postfix_run, parse_text, postfix_run, postfix_step, postorder,
    residual_to_ints, residual_value, tokens_view, TextExpr, Token,
};

verus! {

/// The operators on sieves combine membership: an integer belongs to
/// `a & b` when it belongs to both, to `a | b` when it belongs to either, to
/// `a ^ b` when it belongs to exactly one, and to `!a` when it does not
/// belong to `a`.
pub proof fn lemma_sieve_operators<T: UnsignedInt>(a: Sieve<T>, b: Sieve<T>, v: int)
    ensures
        expr_contains(BitAndSpec::bitand_spec(a, b).to_expr(), v) == (expr_contains(a.to_expr(), v) && expr_contains(b.to_expr(), v)),
        expr_contains(BitOrSpec::bitor_spec(a, b).to_expr(), v) == (expr_contains(a.to_expr(), v) || expr_contains(b.to_expr(), v)),
        expr_contains(BitXorSpec::bitxor_spec(a, b).to_expr(), v) == (expr_contains(a.to_expr(), v) != expr_contains(b.to_expr(), v)),
        expr_contains(NotSpec::not_spec(a).to_expr(), v) == !expr_contains(a.to_expr(), v),
{
}

/// The operand text `t` denotes a class whose modulus and shift are at most
/// `max`.
pub open spec fn text_fits(t: Seq<char>, max: nat) -> bool {
    residual_value(t) matches Some((m, s)) && m <= max && s <= max
}

/// Every operand of `e` denotes a class whose numbers are at most `max`.
pub open spec fn leaves_fit(e: TextExpr, max: nat) -> bool
    decreases e,
{
    match e {
        Expr::Leaf(t) => text_fits(t, max),
        Expr::Intersection(l, r) => leaves_fit(*l, max) && leaves_fit(*r, max),
        Expr::Union(l, r) => leaves_fit(*l, max) && leaves_fit(*r, max),
        Expr::SymmetricDifference(l, r) => leaves_fit(*l, max) && leaves_fit(*r, max),
        Expr::Inversion(p) => leaves_fit(*p, max),
    }
}

/// `s` is a sieve expression whose numbers are at most `max`.
pub open spec fn valid_sieve_text(s: Seq<char>, max: nat) -> bool {
    parse_text(s) matches Some(e) && leaves_fit(e, max)
}

/// The class an operand text denotes, with its shift reduced as
/// `Residual::new` reduces it.
pub open spec fn text_class(t: Seq<char>) -> (nat, nat) {
    let (m, s) = residual_value(t)->0;
    (m, if m == 0 { 0 } else { s % m })
}

/// The sieve that an expression tree denotes.
pub open spec fn eval_text(e: TextExpr) -> Expr<(nat, nat)>
    decreases e,
{
    match e {
        Expr::Leaf(t) => Expr::Leaf(text_class(t)),
        Expr::Intersection(l, r) => Expr::Intersection(Box::new(eval_text(*l)), Box::new(eval_text(*r))),
        Expr::Union(l, r) => Expr::Union(Box::new(eval_text(*l)), Box::new(eval_text(*r))),
        Expr::SymmetricDifference(l, r) => Expr::SymmetricDifference(
            Box::new(eval_text(*l)),
            Box::new(eval_text(*r)),
        ),
        Expr::Inversion(p) => Expr::Inversion(Box::new(eval_text(*p))),
    }
}

/// The sieve that the expression `s` denotes.
pub open spec fn sieve_of_text(s: Seq<char>) -> Expr<(nat, nat)> {
    eval_text(parse_text(s)->0)
}

/// Every operand token in `ts` denotes a class whose numbers are at most
/// `max`.
pub open spec fn tokens_fit(ts: Seq<Token<Seq<char>>>, max: nat) -> bool {
    forall|j: int| 0 <= j < ts.len() ==> (#[trigger] ts[j] matches Token::Operand(t) ==> text_fits(t, max))
}

proof fn lemma_tokens_fit_concat(a: Seq<Token<Seq<char>>>, b: Seq<Token<Seq<char>>>, max: nat)
    requires
        tokens_fit(a, max),
        tokens_fit(b, max),
    ensures
        tokens_fit(a + b, max),
{
    assert forall|j: int| 0 <= j < (a + b).len() implies (#[trigger] (a + b)[j] matches Token::Operand(t) ==> text_fits(t, max)) by {
        if j < a.len() {
            assert((a + b)[j] == a[j]);
        } else {
            assert((a + b)[j] == b[j - a.len()]);
        }
    }
}

proof fn lemma_tokens_fit_split(a: Seq<Token<Seq<char>>>, b: Seq<Token<Seq<char>>>, max: nat)
    requires
        tokens_fit(a + b, max),
    ensures
        tokens_fit(a, max),
        tokens_fit(b, max),
{
    assert forall|j: int| 0 <= j < a.len() implies (#[trigger] a[j] matches Token::Operand(t) ==> text_fits(t, max)) by {
        assert((a + b)[j] == a[j]);
    }
    assert forall|j: int| 0 <= j < b.len() implies (#[trigger] b[j] matches Token::Operand(t) ==> text_fits(t, max)) by {
        assert((a + b)[a.len() + j] == b[j]);
    }
}

/// Where every operand token of the postfix form of `e` fits, so do the
/// leaves of `e`.
proof fn lemma_postorder_fits_leaves(e: TextExpr, max: nat)
    requires
        tokens_fit(postorder(e), max),
    ensures
        leaves_fit(e, max),
    decreases e,
{
    match e {
        Expr::Leaf(t) => {
            assert(postorder(e)[0] == Token::Operand(t));
        },
        Expr::Inversion(p) => {
            lemma_tokens_fit_split(postorder(*p), seq![Token::Not], max);
            lemma_postorder_fits_leaves(*p, max);
        },
        Expr::Intersection(l, r) => {
            lemma_tokens_fit_split(postorder(*l) + postorder(*r), seq![Token::And], max);
            lemma_tokens_fit_split(postorder(*l), postorder(*r), max);
            lemma_postorder_fits_leaves(*l, max);
            lemma_postorder_fits_leaves(*r, max);
        },
        Expr::Union(l, r) => {
            lemma_tokens_fit_split(postorder(*l) + postorder(*r), seq![Token::Or], max);
            lemma_tokens_fit_split(postorder(*l), postorder(*r), max);
            lemma_postorder_fits_leaves(*l, max);
            lemma_postorder_fits_leaves(*r, max);
        },
        Expr::SymmetricDifference(l, r) => {
            lemma_tokens_fit_split(postorder(*l) + postorder(*r), seq![Token::Xor], max);
            lemma_tokens_fit_split(postorder(*l), postorder(*r), max);
            lemma_postorder_fits_leaves(*l, max);
            lemma_postorder_fits_leaves(*r, max);
        },
    }
}

proof fn lemma_postorder_fits(e: TextExpr, max: nat)
    requires
        leaves_fit(e, max),
    ensures
        tokens_fit(postorder(e), max),
    decreases e,
{
    match e {
        Expr::Leaf(t) => {
            assert(postorder(e)[0] == Token::Operand(t));
        },
        Expr::Inversion(p) => {
            lemma_postorder_fits(*p, max);
            lemma_tokens_fit_concat(postorder(*p), seq![Token::Not], max);
        },
        Expr::Intersection(l, r) => {
            lemma_postorder_fits(*l, max);
            lemma_postorder_fits(*r, max);
            lemma_tokens_fit_concat(postorder(*l), postorder(*r), max);
            lemma_tokens_fit_concat(postorder(*l) + postorder(*r), seq![Token::And], max);
        },
        Expr::Union(l, r) => {
            lemma_postorder_fits(*l, max);
            lemma_postorder_fits(*r, max);
            lemma_tokens_fit_concat(postorder(*l), postorder(*r), max);
            lemma_tokens_fit_concat(postorder(*l) + postorder(*r), seq![Token::Or], max);
        },
        Expr::SymmetricDifference(l, r) => {
            lemma_postorder_fits(*l, max);
            lemma_postorder_fits(*r, max);
            lemma_tokens_fit_concat(postorder(*l), postorder(*r), max);
            lemma_tokens_fit_concat(postorder(*l) + postorder(*r), seq![Token::Xor], max);
        },
    }
}

/// Sieve texts compose: where `a` and `b` are sieve expressions whose
/// numbers fit, so are `(a)&(b)`, `(a)^(b)`, `(a)|(b)` and `!(a)`, and they
/// denote the intersection, symmetric difference, union and inversion of
/// the sieves that `a` and `b` denote.
pub proof fn lemma_sieve_text_compose(a: Seq<char>, b: Seq<char>, max: nat)
    requires
        valid_sieve_text(a, max),
        valid_sieve_text(b, max),
    ensures
        valid_sieve_text(parenthesized(a) + seq!['&'] + parenthesized(b), max),
        sieve_of_text(parenthesized(a) + seq!['&'] + parenthesized(b))
            == Expr::Intersection(Box::new(sieve_of_text(a)), Box::new(sieve_of_text(b))),
        valid_sieve_text(parenthesized(a) + seq!['^'] + parenthesized(b), max),
        sieve_of_text(parenthesized(a) + seq!['^'] + parenthesized(b))
            == Expr::SymmetricDifference(Box::new(sieve_of_text(a)), Box::new(sieve_of_text(b))),
        valid_sieve_text(parenthesized(a) + seq!['|'] + parenthesized(b), max),
        sieve_of_text(parenthesized(a) + seq!['|'] + parenthesized(b))
            == Expr::Union(Box::new(sieve_of_text(a)), Box::new(sieve_of_text(b))),
        valid_sieve_text(seq!['!'] + parenthesized(a), max),
        sieve_of_text(seq!['!'] + parenthesized(a)) == Expr::Inversion(Box::new(sieve_of_text(a))),
{
    lemma_parse_compose(a, b);
}

/// An operand `modulus@shift` on its own is a sieve expression exactly when
/// its numbers fit, and it denotes its class with the shift reduced as
/// `Residual::new` reduces it.
pub proof fn lemma_sieve_text_operand(t: Seq<char>, max: nat)
    requires
        residual_value(t) is Some,
    ensures
        valid_sieve_text(t, max) <==> text_fits(t, max),
        sieve_of_text(t) == Expr::Leaf(text_class(t)),
{
    lemma_parse_operand(t);
}

/// A node in the graph of Residuals combined by logical operations.
#[derive(Clone, Debug)]
pub enum SieveNode<T> {
    Unit(Residual<T>),
    Intersection(Rc<SieveNode<T>>, Rc<SieveNode<T>>),
    Union(Rc<SieveNode<T>>, Rc<SieveNode<T>>),
    SymmetricDifference(Rc<SieveNode<T>>, Rc<SieveNode<T>>),
    Inversion(Rc<SieveNode<T>>),
}

impl<T: UnsignedInt> SieveNode<T> {
    /// The shape of this node, with each residual as its modulus and shift.
    pub open spec fn to_expr(self) -> Expr<(nat, nat)>
        decreases self,
    {
        match self {
            SieveNode::Unit(r) => Expr::Leaf((r.modulus_nat(), r.shift_nat())),
            SieveNode::Intersection(l, r) => Expr::Intersection(Box::new((*l).to_expr()), Box::new((*r).to_expr())),
            SieveNode::Union(l, r) => Expr::Union(Box::new((*l).to_expr()), Box::new((*r).to_expr())),
            SieveNode::SymmetricDifference(l, r) => Expr::SymmetricDifference(
                Box::new((*l).to_expr()),
                Box::new((*r).to_expr()),
            ),
            SieveNode::Inversion(p) => Expr::Inversion(Box::new((*p).to_expr())),
        }
    }

    /// Appends the notation of this node to `out`.
    pub fn write_to(&self, out: &mut Vec<char>)
        ensures
            final(out)@ == old(out)@ + render(self.to_expr()),
        decreases self,
    {
        match self {
            SieveNode::Unit(residual) => residual.write_to(out),
            SieveNode::Intersection(lhs, rhs) => {
                lhs.write_to(out);
                out.push('&');
                rhs.write_to(out);
            },
            SieveNode::Union(lhs, rhs) => {
                lhs.write_to(out);
                out.push('|');
                rhs.write_to(out);
            },
            SieveNode::SymmetricDifference(lhs, rhs) => {
                lhs.write_to(out);
                out.push('^');
                rhs.write_to(out);
            },
            SieveNode::Inversion(part) => {
                out.push('!');
                out.push('(');
                part.write_to(out);
                out.push(')');
            },
        }
        proof {
            assert(out@ == old(out)@ + render(self.to_expr()));
        }
    }

    /// The notation of this node.
    pub fn to_string(&self) -> (r: String)
        ensures
            r@ == render(self.to_expr()),
    {
        let mut out: Vec<char> = Vec::new();
        self.write_to(&mut out);
        proof {
            assert(out@ == render(self.to_expr()));
        }
        string_from_chars(&out)
    }

    /// Return `true` if the values is contained within this Sieve.
    pub fn contains(&self, value: i128) -> (r: bool)
        ensures
            r == expr_contains(self.to_expr(), value as int),
        decreases self,
    {
        match self {
            SieveNode::Unit(residual) => residual.contains(value),
            SieveNode::Intersection(lhs, rhs) => lhs.contains(value) && rhs.contains(value),
            SieveNode::Union(lhs, rhs) => lhs.contains(value) || rhs.contains(value),
            SieveNode::SymmetricDifference(lhs, rhs) => lhs.contains(value) ^ rhs.contains(value),
            SieveNode::Inversion(part) => !part.contains(value),
        }
    }
}

/// A second handle on the same node, by `Rc::clone`. Trusted: `Rc::clone`
/// returns a pointer to the same allocation, so the node it points to is the
/// node `node` points to.
#[verifier::external_body]
pub(crate) fn share<T>(node: &Rc<SieveNode<T>>) -> (r: Rc<SieveNode<T>>)
    ensures
        r == *node,
{
    Rc::clone(node)
}

/// The representation of a Xenakis Sieve, constructed from a string notation of one or more Residual classes combined with logical operators.
#[derive(Clone, Debug)]
pub struct Sieve<T = u64> {
    pub root: Rc<SieveNode<T>>,
}

impl<T: UnsignedInt> Sieve<T> {
    /// The shape of this sieve.
    pub open spec fn to_expr(self) -> Expr<(nat, nat)> {
        (*self.root).to_expr()
    }

    /// The notation `Sieve{...}` of this sieve.
    pub fn to_string(&self) -> (r: String)
        ensures
            r@ == seq!['S', 'i', 'e', 'v', 'e', '{'] + render(self.to_expr()) + seq!['}'],
    {
        let mut out: Vec<char> = Vec::new();
        out.push('S');
        out.push('i');
        out.push('e');
        out.push('v');
        out.push('e');
        out.push('{');
        self.root.write_to(&mut out);
        out.push('}');
        proof {
            assert(out@ == seq!['S', 'i', 'e', 'v', 'e', '{'] + render(self.to_expr()) + seq!['}']);
        }
        string_from_chars(&out)
    }

    /// Construct a Xenakis Sieve from a string representation for an explicit unsigned integer type.
    pub fn new_typed(value: &str) -> (r: Self)
        requires
            valid_sieve_text(value@, T::max_value()),
        ensures
            r.to_expr() == sieve_of_text(value@),
    {
        let ghost e = parse_text(value@)->0;
        let ghost max = T::max_value();
        let tokens = match infix_to_postfix(value) {
            Ok(t) => t,
            Err(_) => {
                proof {
                    assert(false);
                }
                Vec::new()
            },
        };
        let ghost tv = tokens_view(tokens@);
        let mut stack: Vec<Sieve<T>> = Vec::new();
        let ghost mut st: Seq<TextExpr> = Seq::empty();
        proof {
            lemma_postorder_fits(e, max);
            lemma_postfix_run(e, Seq::empty(), st);
            assert(postorder(e) + Seq::<Token<Seq<char>>>::empty() == postorder(e));
            assert(tv.skip(0) == tv);
        }
        let mut i: usize = 0;
        while i < tokens.len()
            invariant
                i <= tokens.len(),
                tv == tokens_view(tokens@),
                tokens_fit(tv, max),
                max == T::max_value(),
                postfix_run(tv.skip(i as int), st) == Some(seq![e]),
                stack@.len() == st.len(),
                forall|k: int| 0 <= k < st.len() ==> (#[trigger] stack@[k]).to_expr() == eval_text(st[k]),
            decreases tokens.len() - i,
        {
            let ghost rest = tv.skip(i as int);
            let ghost tok = tv[i as int];
            proof {
                assert(rest[0] == tok);
                assert(rest.drop_first() == tv.skip(i + 1));
                assert(tok == crate::parser::token_view(tokens@[i as int]));
            }
            let ghost next = postfix_step(st, tok)->0;
            match &tokens[i] {
                Token::Not => {
                    let s = stack.pop().expect("Invalid syntax: missing operand");
                    stack.push(s.not());
                },
                Token::And => {
                    let right = stack.pop().expect("Invalid syntax: missing operand");
                    let left = stack.pop().expect("Invalid syntax: missing operand");
                    stack.push(left.bitand(right));
                },
                Token::Xor => {
                    let right = stack.pop().expect("Invalid syntax: missing operand");
                    let left = stack.pop().expect("Invalid syntax: missing operand");
                    stack.push(left.bitxor(right));
                },
                Token::Or => {
                    let right = stack.pop().expect("Invalid syntax: missing operand");
                    let left = stack.pop().expect("Invalid syntax: missing operand");
                    stack.push(left.bitor(right));
                },
                Token::Operand(text) => {
                    proof {
                        assert(tv[i as int] matches Token::Operand(t) ==> text_fits(t, max));
                    }
                    let pair = residual_to_ints::<T>(text);
                    let (m, s) = pair.unwrap();
                    let r = Residual::new(m, s);
                    let s = Sieve { root: Rc::new(SieveNode::Unit(r)) };
                    stack.push(s);
                },
                _ => {
                    proof {
                        assert(false);
                    }
                },
            }
            proof {
                st = next;
                assert forall|k: int| 0 <= k < st.len() implies (#[trigger] stack@[k]).to_expr() == eval_text(st[k]) by {
                }
            }
            i = i + 1;
        }
        proof {
            assert(tv.skip(i as int) == Seq::<Token<Seq<char>>>::empty());
        }
        stack.pop().expect("Invalid syntax: no result")
    }

    /// Construct a Sieve from a string representation where it is a sieve
    /// expression whose numbers fit in `T`, and give `None` otherwise.
    pub fn try_new_typed(value: &str) -> (r: Option<Self>)
        ensures
            r is Some <==> valid_sieve_text(value@, T::max_value()),
            r matches Some(s) ==> s.to_expr() == sieve_of_text(value@),
    {
        let tokens = match infix_to_postfix(value) {
            Ok(t) => t,
            Err(_) => return None,
        };
        let ghost e = parse_text(value@)->0;
        let ghost max = T::max_value();
        let ghost tv = tokens_view(tokens@);
        let mut i: usize = 0;
        while i < tokens.len()
            invariant
                i <= tokens.len(),
                tv == tokens_view(tokens@),
                tv == postorder(e),
                max == T::max_value(),
                parse_text(value@) == Some(e),
                forall|j: int| 0 <= j < i ==> (#[trigger] tv[j] matches Token::Operand(t) ==> text_fits(t, max)),
            decreases tokens.len() - i,
        {
            proof {
                assert(tv[i as int] == crate::parser::token_view(tokens@[i as int]));
            }
            if let Token::Operand(text) = &tokens[i] {
                match residual_to_ints::<T>(text) {
                    Ok(_) => {},
                    Err(_) => {
                        proof {
                            if leaves_fit(e, max) {
                                lemma_postorder_fits(e, max);
                                assert(tv[i as int] matches Token::Operand(t) ==> text_fits(t, max));
                            }
                        }
                        return None;
                    },
                }
            }
            i = i + 1;
        }
        proof {
            assert(tokens_fit(tv, max));
            lemma_postorder_fits_leaves(e, max);
        }
        Some(Self::new_typed(value))
    }

    /// Return `true` if the value is contained with this Sieve.
    pub fn contains(&self, value: i128) -> (r: bool)
        ensures
            r == expr_contains(self.to_expr(), value as int),
    {
        self.root.contains(value)
    }
}

impl Sieve<u64> {
    /// Construct a Xenakis Sieve from a string representation.
    pub fn new(value: &str) -> (r: Self)
        requires
            valid_sieve_text(value@, u64::MAX as nat),
        ensures
            r.to_expr() == sieve_of_text(value@),
    {
        Self::new_typed(value)
    }
}

impl<T: UnsignedInt> BitAnd for Sieve<T> {
    type Output = Sieve<T>;

    fn bitand(self, rhs: Self) -> (r: Self::Output)
        ensures
            r.to_expr() == Expr::Intersection(Box::new(self.to_expr()), Box::new(rhs.to_expr())),
    {
        Sieve { root: Rc::new(SieveNode::Intersection(self.root, rhs.root)) }
    }
}

impl<T: UnsignedInt> BitAndSpecImpl for Sieve<T> {
    open spec fn obeys_bitand_spec() -> bool {
        true
    }

    open spec fn bitand_req(self, rhs: Self) -> bool {
        true
    }

    open spec fn bitand_spec(self, rhs: Self) -> Self {
        Sieve { root: Rc::new(SieveNode::Intersection(self.root, rhs.root)) }
    }
}

impl<'a, T: UnsignedInt> BitAnd for &'a Sieve<T> {
    type Output = Sieve<T>;

    fn bitand(self, rhs: Self) -> (r: Self::Output)
        ensures
            r.to_expr() == Expr::Intersection(Box::new(self.to_expr()), Box::new(rhs.to_expr())),
    {
        Sieve { root: Rc::new(SieveNode::Intersection(share(&self.root), share(&rhs.root))) }
    }
}

impl<'a, T: UnsignedInt> BitAndSpecImpl for &'a Sieve<T> {
    open spec fn obeys_bitand_spec() -> bool {
        true
    }

    open spec fn bitand_req(self, rhs: Self) -> bool {
        true
    }

    open spec fn bitand_spec(self, rhs: Self) -> Sieve<T> {
        Sieve { root: Rc::new(SieveNode::Intersection(self.root, rhs.root)) }
    }
}

impl<T: UnsignedInt> BitOr for Sieve<T> {
    type Output = Sieve<T>;

    fn bitor(self, rhs: Self) -> (r: Self::Output)
        ensures
            r.to_expr() == Expr::Union(Box::new(self.to_expr()), Box::new(rhs.to_expr())),
    {
        Sieve { root: Rc::new(SieveNode::Union(self.root, rhs.root)) }
    }
}

impl<T: UnsignedInt> BitOrSpecImpl for Sieve<T> {
    open spec fn obeys_bitor_spec() -> bool {
        true
    }

    open spec fn bitor_req(self, rhs: Self) -> bool {
        true
    }

    open spec fn bitor_spec(self, rhs: Self) -> Self {
        Sieve { root: Rc::new(SieveNode::Union(self.root, rhs.root)) }
    }
}

impl<'a, T: UnsignedInt> BitOr for &'a Sieve<T> {
    type Output = Sieve<T>;

    fn bitor(self, rhs: Self) -> (r: Self::Output)
        ensures
            r.to_expr() == Expr::Union(Box::new(self.to_expr()), Box::new(rhs.to_expr())),
    {
        Sieve { root: Rc::new(SieveNode::Union(share(&self.root), share(&rhs.root))) }
    }
}

impl<'a, T: UnsignedInt> BitOrSpecImpl for &'a Sieve<T> {
    open spec fn obeys_bitor_spec() -> bool {
        true
    }

    open spec fn bitor_req(self, rhs: Self) -> bool {
        true
    }

    open spec fn bitor_spec(self, rhs: Self) -> Sieve<T> {
        Sieve { root: Rc::new(SieveNode::Union(self.root, rhs.root)) }
    }
}

impl<T: UnsignedInt> BitXor for Sieve<T> {
    type Output = Sieve<T>;

    fn bitxor(self, rhs: Self) -> (r: Self::Output)
        ensures
            r.to_expr() == Expr::SymmetricDifference(Box::new(self.to_expr()), Box::new(rhs.to_expr())),
    {
        Sieve { root: Rc::new(SieveNode::SymmetricDifference(self.root, rhs.root)) }
    }
}

impl<T: UnsignedInt> BitXorSpecImpl for Sieve<T> {
    open spec fn obeys_bitxor_spec() -> bool {
        true
    }

    open spec fn bitxor_req(self, rhs: Self) -> bool {
        true
    }

    open spec fn bitxor_spec(self, rhs: Self) -> Self {
        Sieve { root: Rc::new(SieveNode::SymmetricDifference(self.root, rhs.root)) }
    }
}

impl<'a, T: UnsignedInt> BitXor for &'a Sieve<T> {
    type Output = Sieve<T>;

    fn bitxor(self, rhs: Self) -> (r: Self::Output)
        ensures
            r.to_expr() == Expr::SymmetricDifference(Box::new(self.to_expr()), Box::new(rhs.to_expr())),
    {
        Sieve { root: Rc::new(SieveNode::SymmetricDifference(share(&self.root), share(&rhs.root))) }
    }
}

impl<'a, T: UnsignedInt> BitXorSpecImpl for &'a Sieve<T> {
    open spec fn obeys_bitxor_spec() -> bool {
        true
    }

    open spec fn bitxor_req(self, rhs: Self) -> bool {
        true
    }

    open spec fn bitxor_spec(self, rhs: Self) -> Sieve<T> {
        Sieve { root: Rc::new(SieveNode::SymmetricDifference(self.root, rhs.root)) }
    }
}

impl<T: UnsignedInt> Not for Sieve<T> {
    type Output = Sieve<T>;

    fn not(self) -> (r: Self::Output)
        ensures
            r.to_expr() == Expr::Inversion(Box::new(self.to_expr())),
    {
        Sieve { root: Rc::new(SieveNode::Inversion(self.root)) }
    }
}

impl<T: UnsignedInt> NotSpecImpl for Sieve<T> {
    open spec fn obeys_not_spec() -> bool {
        true
    }

    open spec fn not_req(self) -> bool {
        true
    }

    open spec fn not_spec(self) -> Self {
        Sieve { root: Rc::new(SieveNode::Inversion(self.root)) }
    }
}

impl<'a, T: UnsignedInt> Not for &'a Sieve<T> {
    type Output = Sieve<T>;

    fn not(self) -> (r: Self::Output)
        ensures
            r.to_expr() == Expr::Inversion(Box::new(self.to_expr())),
    {
        Sieve { root: Rc::new(SieveNode::Inversion(share(&self.root))) }
    }
}

impl<'a, T: UnsignedInt> NotSpecImpl for &'a Sieve<T> {
    open spec fn obeys_not_spec() -> bool {
        true
    }

    open spec fn not_req(self) -> bool {
        true
    }

    open spec fn not_spec(self) -> Sieve<T> {
        Sieve { root: Rc::new(SieveNode::Inversion(self.root)) }
    }
}

} // verus!
