use vstd::prelude::*;
use crate::expr::Expr;
use crate::parser::{
    all_digits, at_index, is_digit, lemma_parse_full_text, residual_value,
    is_operand_char, is_space, lemma_operand_run_bounds, lex, level_node, level_op, operand_run,
    parse_atom, parse_level, parse_rest, parse_text, parse_tokens, symbol_token, TextExpr, Token,
};

verus! {

/// The text `s` enclosed in parentheses.
pub open spec fn parenthesized(s: Seq<char>) -> Seq<char> {
    seq!['('] + s + seq![')']
}

/// A run of operand characters ends where the text after it starts with
/// something else.
proof fn lemma_operand_run_append(x: Seq<char>, s: Seq<char>)
    requires
        s.len() == 0 || !is_operand_char(s[0]),
    ensures
        operand_run(x + s) == operand_run(x),
    decreases x.len(),
{
    if x.len() == 0 {
        assert(x + s == s);
    } else {
        assert((x + s)[0] == x[0]);
        if is_operand_char(x[0]) {
            assert((x + s).drop_first() == x.drop_first() + s);
            lemma_operand_run_append(x.drop_first(), s);
        }
    }
}

/// Text that reads as tokens, followed by text that starts with no operand
/// character, reads as those tokens followed by the tokens of the rest.
proof fn lemma_lex_append(x: Seq<char>, s: Seq<char>)
    requires
        lex(x) is Some,
        s.len() == 0 || !is_operand_char(s[0]),
    ensures
        lex(x + s) == match lex(s) {
            Some(t) => Some(lex(x)->0 + t),
            None => None,
        },
    decreases x.len(),
{
    if x.len() == 0 {
        assert(x + s == s);
        if let Some(t) = lex(s) {
            assert(lex(x)->0 + t == t);
        }
    } else {
        let w = x + s;
        assert(w[0] == x[0]);
        if is_space(x[0]) {
            assert(w.drop_first() == x.drop_first() + s);
            lemma_lex_append(x.drop_first(), s);
        } else if is_operand_char(x[0]) {
            let n = operand_run(x);
            lemma_operand_run_bounds(x);
            lemma_operand_run_append(x, s);
            assert(w.take(n as int) == x.take(n as int));
            assert(w.skip(n as int) == x.skip(n as int) + s);
            lemma_lex_append(x.skip(n as int), s);
            if let Some(t) = lex(s) {
                let head = seq![Token::Operand(x.take(n as int))];
                assert(head + (lex(x.skip(n as int))->0 + t) == (head + lex(x.skip(n as int))->0) + t);
            }
        } else {
            assert(w.drop_first() == x.drop_first() + s);
            lemma_lex_append(x.drop_first(), s);
            if let Some(t) = lex(s) {
                let head = seq![symbol_token(x[0])->0];
                assert(head + (lex(x.drop_first())->0 + t) == (head + lex(x.drop_first())->0) + t);
            }
        }
    }
}

/// The tokens of `a` and `b`, each in parentheses, joined by the operator
/// character `c`.
proof fn lemma_lex_binary_text(a: Seq<char>, b: Seq<char>, c: char)
    requires
        lex(a) is Some,
        lex(b) is Some,
        symbol_token(c) is Some,
        !is_operand_char(c),
        !is_space(c),
    ensures
        lex(parenthesized(a) + seq![c] + parenthesized(b)) == Some(
            seq![Token::Open] + lex(a)->0 + seq![Token::Close, symbol_token(c)->0, Token::Open] + lex(b)->0
                + seq![Token::Close],
        ),
{
    let ta = lex(a)->0;
    let tb = lex(b)->0;
    let op = symbol_token(c)->0;
    let close = seq![')'];
    let empty = Seq::<char>::empty();
    assert(lex(empty) == Some(Seq::<Token<Seq<char>>>::empty()));
    assert(close[0] == ')' && close.drop_first() == empty);
    assert(lex(close) == Some(seq![Token::<Seq<char>>::Close]));
    lemma_lex_append(b, close);
    let s3 = seq!['('] + (b + close);
    assert(s3[0] == '(' && s3.drop_first() == b + close);
    let s2 = seq![c] + s3;
    assert(s2[0] == c && s2.drop_first() == s3);
    let s1 = seq![')'] + s2;
    assert(s1[0] == ')' && s1.drop_first() == s2);
    assert(lex(b + close) == Some(tb + seq![Token::Close]));
    assert(lex(s3) == Some(seq![Token::Open] + (tb + seq![Token::Close])));
    assert(lex(s2) == Some(seq![op] + (seq![Token::Open] + (tb + seq![Token::Close]))));
    assert(lex(s1) == Some(seq![Token::Close] + (seq![op] + (seq![Token::Open] + (tb + seq![Token::Close])))));
    lemma_lex_append(a, s1);
    let w = seq!['('] + (a + s1);
    assert(w[0] == '(' && w.drop_first() == a + s1);
    assert(parenthesized(a) + seq![c] + parenthesized(b) == w);
    assert(lex(w)->0 == seq![Token::Open] + (ta + (seq![Token::Close] + (seq![op] + (seq![Token::Open] + (tb
        + seq![Token::Close]))))));
    assert(seq![Token::Open] + (ta + (seq![Token::Close] + (seq![op] + (seq![Token::Open] + (tb
        + seq![Token::Close]))))) == seq![Token::Open] + ta + seq![Token::Close, op, Token::Open] + tb
        + seq![Token::Close]);
}

/// The tokens of `!(a)`.
proof fn lemma_lex_inversion_text(a: Seq<char>)
    requires
        lex(a) is Some,
    ensures
        lex(seq!['!'] + parenthesized(a)) == Some(seq![Token::Not, Token::Open] + lex(a)->0 + seq![Token::Close]),
{
    let ta = lex(a)->0;
    let close = seq![')'];
    let empty = Seq::<char>::empty();
    assert(lex(empty) == Some(Seq::<Token<Seq<char>>>::empty()));
    assert(close[0] == ')' && close.drop_first() == empty);
    assert(lex(close) == Some(seq![Token::<Seq<char>>::Close]));
    lemma_lex_append(a, close);
    assert(lex(a + close) == Some(ta + seq![Token::Close]));
    let s1 = seq!['('] + (a + close);
    assert(s1[0] == '(' && s1.drop_first() == a + close);
    assert(lex(s1) == Some(seq![Token::Open] + (ta + seq![Token::Close])));
    let w = seq!['!'] + s1;
    assert(w[0] == '!' && w.drop_first() == s1);
    assert(lex(w) == Some(seq![Token::Not] + (seq![Token::Open] + (ta + seq![Token::Close]))));
    assert(seq!['!'] + parenthesized(a) == w);
    assert(seq![Token::Not] + (seq![Token::Open] + (ta + seq![Token::Close])) == seq![Token::Not, Token::Open] + ta
        + seq![Token::Close]);
}

/// The tokens `ta` stand in `t` from position `off`, and a closing
/// parenthesis follows them.
pub open spec fn embedded(ta: Seq<Token<Seq<char>>>, t: Seq<Token<Seq<char>>>, off: int) -> bool {
    &&& 0 <= off
    &&& off + ta.len() < t.len()
    &&& t[off + ta.len()] is Close
    &&& forall|i: int| 0 <= i < ta.len() ==> t[off + i] == #[trigger] ta[i]
}

/// An atom read from `ta` reads the same where `ta` stands before a
/// closing parenthesis.
proof fn lemma_embed_atom(ta: Seq<Token<Seq<char>>>, t: Seq<Token<Seq<char>>>, off: int, p: int)
    requires
        embedded(ta, t, off),
        parse_atom(ta, p) is Some,
    ensures
        parse_atom(ta, p) matches Some((e, q)) && parse_atom(t, off + p) == Some((e, off + q)),
    decreases ta.len() - p, 0int,
{
    assert(t[off + p] == ta[p]);
    if ta[p] is Open {
        lemma_embed_level(ta, t, off, p + 1, 3);
        let (_, q) = parse_level(ta, p + 1, 3)->0;
        assert(t[off + q] == ta[q]);
    }
}

/// An expression read from `ta` at any level reads the same where `ta`
/// stands before a closing parenthesis.
proof fn lemma_embed_level(ta: Seq<Token<Seq<char>>>, t: Seq<Token<Seq<char>>>, off: int, p: int, level: nat)
    requires
        embedded(ta, t, off),
        parse_level(ta, p, level) is Some,
    ensures
        parse_level(ta, p, level) matches Some((e, q)) && parse_level(t, off + p, level) == Some((e, off + q)),
    decreases ta.len() - p, 2 * level + 1,
{
    if level == 0 {
        assert(t[off + p] == ta[p]);
        if ta[p] is Not {
            lemma_embed_level(ta, t, off, p + 1, 0);
        } else {
            lemma_embed_atom(ta, t, off, p);
        }
    } else {
        lemma_embed_level(ta, t, off, p, (level - 1) as nat);
        let (e, q) = parse_level(ta, p, (level - 1) as nat)->0;
        lemma_embed_rest(ta, t, off, q, level, e);
    }
}

/// The rest of an expression read from `ta` reads the same where `ta`
/// stands before a closing parenthesis.
proof fn lemma_embed_rest(
    ta: Seq<Token<Seq<char>>>,
    t: Seq<Token<Seq<char>>>,
    off: int,
    p: int,
    level: nat,
    acc: TextExpr,
)
    requires
        embedded(ta, t, off),
        parse_rest(ta, p, level, acc) is Some,
    ensures
        parse_rest(ta, p, level, acc) matches Some((e, q)) && parse_rest(t, off + p, level, acc) == Some((e, off + q)),
    decreases ta.len() - p, 2 * level,
{
    if p < ta.len() {
        assert(t[off + p] == ta[p]);
        if ta[p] == level_op(level) {
            lemma_embed_level(ta, t, off, p + 1, (level - 1) as nat);
            let (e, q) = parse_level(ta, p + 1, (level - 1) as nat)->0;
            lemma_embed_rest(ta, t, off, q, level, level_node(level, acc, e));
        }
    } else {
        assert(t[off + p] is Close);
    }
}

/// An expression of level zero that ends where an expression of `level`
/// ends reads the same at that level.
proof fn lemma_lift(t: Seq<Token<Seq<char>>>, p: int, e: TextExpr, q: int, level: nat)
    requires
        level <= 3,
        p < q <= t.len(),
        parse_level(t, p, 0) == Some((e, q)),
        q == t.len() || (forall|j: nat| 1 <= j <= level ==> t[q] != #[trigger] level_op(j)),
    ensures
        parse_level(t, p, level) == Some((e, q)),
    decreases level,
{
    if level > 0 {
        lemma_lift(t, p, e, q, (level - 1) as nat);
        if q < t.len() {
            assert(t[q] != level_op(level));
        }
        assert(parse_rest(t, q, level, e) == Some((e, q)));
    }
}

/// Above the level at which an expression ends at the end of the tokens,
/// every level reads the same expression.
proof fn lemma_climb_to_end(t: Seq<Token<Seq<char>>>, p: int, k: nat, j: nat, e: TextExpr)
    requires
        1 <= k <= j <= 3,
        0 <= p < t.len(),
        parse_level(t, p, k) == Some((e, t.len() as int)),
    ensures
        parse_level(t, p, j) == Some((e, t.len() as int)),
    decreases j - k,
{
    if j > k {
        lemma_climb_to_end(t, p, k, (j - 1) as nat, e);
        assert(parse_rest(t, t.len() as int, j, e) == Some((e, t.len() as int)));
    }
}

/// The tokens of two expressions, each in parentheses, joined by the
/// operator of level `k`, read as that operation on the two.
proof fn lemma_parse_binary_tokens(ta: Seq<Token<Seq<char>>>, tb: Seq<Token<Seq<char>>>, k: nat)
    requires
        1 <= k <= 3,
        parse_tokens(ta) is Some,
        parse_tokens(tb) is Some,
    ensures
        parse_tokens(seq![Token::Open] + ta + seq![Token::Close, level_op(k), Token::Open] + tb + seq![Token::Close])
            == Some(level_node(k, parse_tokens(ta)->0, parse_tokens(tb)->0)),
{
    let ea = parse_tokens(ta)->0;
    let eb = parse_tokens(tb)->0;
    let t = seq![Token::Open] + ta + seq![Token::Close, level_op(k), Token::Open] + tb + seq![Token::Close];
    let na = ta.len() as int;
    let nb = tb.len() as int;
    let q1 = na + 2;
    let rb = na + 4;
    let end = rb + nb + 1;
    assert(t.len() == end);
    assert(t[0] is Open);
    assert(t[na + 1] is Close);
    assert(t[q1] == level_op(k));
    assert(t[na + 3] is Open);
    assert(t[rb + nb] is Close);
    assert forall|i: int| 0 <= i < na implies t[1 + i] == #[trigger] ta[i] by {}
    assert forall|i: int| 0 <= i < nb implies t[rb + i] == #[trigger] tb[i] by {}
    let node = level_node(k, ea, eb);

    lemma_embed_level(ta, t, 1, 0, 3);
    assert(parse_atom(t, 0) == Some((ea, q1)));
    assert(parse_level(t, 0, 0) == Some((ea, q1)));
    assert forall|j: nat| 1 <= j <= (k - 1) as nat implies t[q1] != #[trigger] level_op(j) by {}
    lemma_lift(t, 0, ea, q1, (k - 1) as nat);

    lemma_embed_level(tb, t, rb, 0, 3);
    assert(parse_atom(t, na + 3) == Some((eb, end)));
    assert(parse_level(t, na + 3, 0) == Some((eb, end)));
    lemma_lift(t, na + 3, eb, end, (k - 1) as nat);

    assert(parse_rest(t, end, k, node) == Some((node, end)));
    assert(parse_rest(t, q1, k, ea) == Some((node, end)));
    assert(parse_level(t, 0, k) == Some((node, end)));
    lemma_climb_to_end(t, 0, k, 3, node);
}

/// The tokens of an expression in parentheses after `!` read as its
/// inversion.
proof fn lemma_parse_inversion_tokens(ta: Seq<Token<Seq<char>>>)
    requires
        parse_tokens(ta) is Some,
    ensures
        parse_tokens(seq![Token::Not, Token::Open] + ta + seq![Token::Close])
            == Some(Expr::Inversion(Box::new(parse_tokens(ta)->0))),
{
    let ea = parse_tokens(ta)->0;
    let t = seq![Token::Not, Token::Open] + ta + seq![Token::Close];
    let na = ta.len() as int;
    let end = na + 3;
    assert(t.len() == end);
    assert(t[0] is Not);
    assert(t[1] is Open);
    assert(t[na + 2] is Close);
    assert forall|i: int| 0 <= i < na implies t[2 + i] == #[trigger] ta[i] by {}
    lemma_embed_level(ta, t, 2, 0, 3);
    assert(parse_atom(t, 1) == Some((ea, end)));
    assert(parse_level(t, 1, 0) == Some((ea, end)));
    let inv = Expr::Inversion(Box::new(ea));
    assert(parse_level(t, 0, 0) == Some((inv, end)));
    lemma_lift(t, 0, inv, end, 3);
}

/// Sieve expressions compose: where `a` and `b` read as expressions,
/// `(a)&(b)`, `(a)^(b)` and `(a)|(b)` read as their intersection, symmetric
/// difference and union, and `!(a)` reads as the inversion of `a`.
pub proof fn lemma_parse_compose(a: Seq<char>, b: Seq<char>)
    requires
        parse_text(a) is Some,
        parse_text(b) is Some,
    ensures
        parse_text(parenthesized(a) + seq!['&'] + parenthesized(b))
            == Some(Expr::Intersection(Box::new(parse_text(a)->0), Box::new(parse_text(b)->0))),
        parse_text(parenthesized(a) + seq!['^'] + parenthesized(b))
            == Some(Expr::SymmetricDifference(Box::new(parse_text(a)->0), Box::new(parse_text(b)->0))),
        parse_text(parenthesized(a) + seq!['|'] + parenthesized(b))
            == Some(Expr::Union(Box::new(parse_text(a)->0), Box::new(parse_text(b)->0))),
        parse_text(seq!['!'] + parenthesized(a)) == Some(Expr::Inversion(Box::new(parse_text(a)->0))),
{
    let ta = lex(a)->0;
    let tb = lex(b)->0;
    lemma_lex_binary_text(a, b, '&');
    lemma_parse_binary_tokens(ta, tb, 1);
    lemma_lex_binary_text(a, b, '^');
    lemma_parse_binary_tokens(ta, tb, 2);
    lemma_lex_binary_text(a, b, '|');
    lemma_parse_binary_tokens(ta, tb, 3);
    lemma_lex_inversion_text(a);
    lemma_parse_inversion_tokens(ta);
}

/// Where `t` holds an `@`, `at_index` finds one.
proof fn lemma_at_index_found(t: Seq<char>)
    ensures
        at_index(t) >= 0 ==> at_index(t) < t.len() && t[at_index(t)] == '@',
    decreases t.len(),
{
    if t.len() > 0 && t[0] != '@' {
        lemma_at_index_found(t.drop_first());
    }
}

/// An operand `modulus@shift` on its own reads as that operand.
pub proof fn lemma_parse_operand(t: Seq<char>)
    requires
        residual_value(t) is Some,
    ensures
        parse_text(t) == Some(Expr::Leaf(t)),
{
    let k = at_index(t);
    lemma_at_index_found(t);
    let a = t.take(k);
    let b = t.skip(k + 1);
    assert(all_digits(a) && all_digits(b));
    assert forall|i: int| 0 <= i < t.len() implies #[trigger] is_operand_char(t[i]) by {
        if i < k {
            assert(a[i] == t[i]);
            assert(is_digit(a[i]));
        } else if i > k {
            assert(b[i - k - 1] == t[i]);
            assert(is_digit(b[i - k - 1]));
        }
    }
    lemma_parse_full_text(Expr::Leaf(t));
}

} // verus!
