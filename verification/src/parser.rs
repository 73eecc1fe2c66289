use vstd::prelude::*;
use crate::expr::Expr;
use crate::unsigned::UnsignedInt;

verus! {

broadcast use vstd::string::group_string_axioms;

/// The characters of `value`, in order.
pub fn chars_of(value: &str) -> (r: Vec<char>)
    ensures
        r@ == value@,
{
    let mut r: Vec<char> = Vec::new();
    for c in it: value.chars()
        invariant
            it.seq() == value@,
            r@ == it.seq().take(it.index()),
    {
        r.push(c);
        proof {
            assert(r@ == it.seq().take(it.index() + 1));
        }
    }
    proof {
        assert(r@ == value@.take(value@.len() as int));
    }
    r
}

/// A token of a sieve expression: a residual written `modulus@shift` (an
/// operand), one of the operators `!`, `&`, `^`, `|`, or a parenthesis.
#[derive(Debug)]
pub enum Token<S> {
    Operand(S),
    Not,
    And,
    Xor,
    Or,
    Open,
    Close,
}

/// A token with its operand text taken as a sequence of characters.
pub open spec fn token_view(t: Token<Vec<char>>) -> Token<Seq<char>> {
    match t {
        Token::Operand(v) => Token::Operand(v@),
        Token::Not => Token::Not,
        Token::And => Token::And,
        Token::Xor => Token::Xor,
        Token::Or => Token::Or,
        Token::Open => Token::Open,
        Token::Close => Token::Close,
    }
}

pub open spec fn tokens_view(v: Seq<Token<Vec<char>>>) -> Seq<Token<Seq<char>>> {
    v.map_values(|t: Token<Vec<char>>| token_view(t))
}

/// Characters that make up operands: decimal digits and `@`.
pub open spec fn is_operand_char(c: char) -> bool {
    ('0' <= c && c <= '9') || c == '@'
}

/// Characters that separate tokens and are otherwise ignored.
pub open spec fn is_space(c: char) -> bool {
    c == ' ' || c == '\t' || c == '\n' || c == '\r'
}

/// The token of a single-character operator or parenthesis.
pub open spec fn symbol_token(c: char) -> Option<Token<Seq<char>>> {
    if c == '!' {
        Some(Token::Not)
    } else if c == '&' {
        Some(Token::And)
    } else if c == '^' {
        Some(Token::Xor)
    } else if c == '|' {
        Some(Token::Or)
    } else if c == '(' {
        Some(Token::Open)
    } else if c == ')' {
        Some(Token::Close)
    } else {
        None
    }
}

/// The length of the longest prefix of `s` made of operand characters.
pub open spec fn operand_run(s: Seq<char>) -> nat
    decreases s.len(),
{
    if s.len() > 0 && is_operand_char(s[0]) {
        1 + operand_run(s.drop_first())
    } else {
        0
    }
}

pub proof fn lemma_operand_run_bounds(s: Seq<char>)
    ensures
        operand_run(s) <= s.len(),
        s.len() > 0 && is_operand_char(s[0]) ==> operand_run(s) >= 1,
    decreases s.len(),
{
    if s.len() > 0 && is_operand_char(s[0]) {
        lemma_operand_run_bounds(s.drop_first());
    }
}

/// The tokens of `s`: operands are the longest runs of operand characters,
/// spaces separate tokens, and any other character is refused (`None`).
pub open spec fn lex(s: Seq<char>) -> Option<Seq<Token<Seq<char>>>>
    decreases s.len(),
{
    if s.len() == 0 {
        Some(Seq::empty())
    } else if is_space(s[0]) {
        lex(s.drop_first())
    } else if is_operand_char(s[0]) {
        let n = operand_run(s);
        proof {
            lemma_operand_run_bounds(s);
        }
        match lex(s.skip(n as int)) {
            Some(rest) => Some(seq![Token::Operand(s.take(n as int))] + rest),
            None => None,
        }
    } else {
        match symbol_token(s[0]) {
            Some(t) => match lex(s.drop_first()) {
                Some(rest) => Some(seq![t] + rest),
                None => None,
            },
            None => None,
        }
    }
}

/// The token of a single-character operator or parenthesis.
fn symbol_of(c: char) -> (r: Option<Token<Vec<char>>>)
    ensures
        match symbol_token(c) {
            Some(t) => r matches Some(x) && token_view(x) == t,
            None => r is None,
        },
{
    if c == '!' {
        Some(Token::Not)
    } else if c == '&' {
        Some(Token::And)
    } else if c == '^' {
        Some(Token::Xor)
    } else if c == '|' {
        Some(Token::Or)
    } else if c == '(' {
        Some(Token::Open)
    } else if c == ')' {
        Some(Token::Close)
    } else {
        None
    }
}

fn is_operand_character(c: char) -> (r: bool)
    ensures
        r == is_operand_char(c),
{
    ('0' <= c && c <= '9') || c == '@'
}

fn is_space_character(c: char) -> (r: bool)
    ensures
        r == is_space(c),
{
    c == ' ' || c == '\t' || c == '\n' || c == '\r'
}

/// Splits the characters of an expression into tokens.
pub fn tokenize(chars: &Vec<char>) -> (r: Option<Vec<Token<Vec<char>>>>)
    ensures
        match lex(chars@) {
            Some(t) => r matches Some(v) && tokens_view(v@) == t,
            None => r is None,
        },
{
    let mut out: Vec<Token<Vec<char>>> = Vec::new();
    let mut i: usize = 0;
    proof {
        assert(chars@.skip(0) == chars@);
        assert(tokens_view(out@) == Seq::<Token<Seq<char>>>::empty());
        if let Some(rest) = lex(chars@) {
            assert(tokens_view(out@) + rest == rest);
        }
    }
    while i < chars.len()
        invariant
            i <= chars.len(),
            lex(chars@) == match lex(chars@.skip(i as int)) {
                Some(rest) => Some(tokens_view(out@) + rest),
                None => None,
            },
        decreases chars.len() - i,
    {
        let c = chars[i];
        let ghost s = chars@.skip(i as int);
        assert(s[0] == c);
        if is_space_character(c) {
            assert(s.drop_first() == chars@.skip(i + 1));
            i = i + 1;
        } else if is_operand_character(c) {
            let mut operand: Vec<char> = Vec::new();
            let mut j: usize = i;
            while j < chars.len() && is_operand_character(chars[j])
                invariant
                    i <= j <= chars.len(),
                    s == chars@.skip(i as int),
                    operand@ == chars@.subrange(i as int, j as int),
                    operand_run(s) == (j - i) + operand_run(chars@.skip(j as int)),
                decreases chars.len() - j,
            {
                let ghost t = chars@.skip(j as int);
                assert(t.drop_first() == chars@.skip(j + 1));
                operand.push(chars[j]);
                j = j + 1;
            }
            proof {
                let t = chars@.skip(j as int);
                assert(operand_run(t) == 0);
                lemma_operand_run_bounds(s);
                assert(s.take(operand_run(s) as int) == operand@);
                assert(s.skip(operand_run(s) as int) == chars@.skip(j as int));
                let ghost old_view = tokens_view(out@);
                assert(tokens_view(out@.push(Token::Operand(operand))) == old_view.push(Token::Operand(operand@)));
            }
            out.push(Token::Operand(operand));
            i = j;
        } else {
            match symbol_of(c) {
                Some(t) => {
                    proof {
                        assert(s.drop_first() == chars@.skip(i + 1));
                        assert(tokens_view(out@.push(t)) == tokens_view(out@).push(token_view(t)));
                    }
                    out.push(t);
                    i = i + 1;
                },
                None => {
                    return None;
                },
            }
        }
    }
    proof {
        assert(chars@.skip(i as int) == Seq::<char>::empty());
        assert(tokens_view(out@) + Seq::<Token<Seq<char>>>::empty() == tokens_view(out@));
    }
    Some(out)
}

/// Reads a sieve expression into its tokens in postfix order: operands
/// first, each operator after its operands. Fails where the text holds a
/// character outside the notation or is not one expression.
pub fn infix_to_postfix(value: &str) -> (r: Result<Vec<Token<Vec<char>>>, &'static str>)
    ensures
        match parse_text(value@) {
            Some(e) => r matches Ok(v) && tokens_view(v@) == postorder(e),
            None => r matches Err(msg) && if lex(value@) is None {
                msg@ == "unexpected character"@
            } else {
                msg@ == "invalid expression"@
            },
        },
{
    let chars = chars_of(value);
    let toks = match tokenize(&chars) {
        Some(t) => t,
        None => return Err("unexpected character"),
    };
    let mut out: Vec<Token<Vec<char>>> = Vec::new();
    proof {
        assert(tokens_view(out@) == Seq::<Token<Seq<char>>>::empty());
    }
    match parse_level_exec(&toks, 0, 3, &mut out) {
        Some(q) => {
            if q == toks.len() {
                proof {
                    let (e, _) = parse_level(tokens_view(toks@), 0, 3)->0;
                    assert(tokens_view(out@) == Seq::<Token<Seq<char>>>::empty() + postorder(e));
                    assert(tokens_view(out@) =~= postorder(e));
                }
                Ok(out)
            } else {
                Err("invalid expression")
            }
        },
        None => Err("invalid expression"),
    }
}

/// A decimal digit character.
pub open spec fn is_digit(c: char) -> bool {
    '0' <= c && c <= '9'
}

pub open spec fn all_digits(ds: Seq<char>) -> bool {
    forall|i: int| 0 <= i < ds.len() ==> #[trigger] is_digit(ds[i])
}

/// The number that a sequence of decimal digits denotes.
pub open spec fn digits_value(ds: Seq<char>) -> nat
    decreases ds.len(),
{
    if ds.len() == 0 {
        0
    } else {
        digits_value(ds.drop_last()) * 10 + (ds.last() as nat - 48) as nat
    }
}

/// The index of the first `@` in `t`, or -1 where there is none.
pub open spec fn at_index(t: Seq<char>) -> int
    decreases t.len(),
{
    if t.len() == 0 {
        -1
    } else if t[0] == '@' {
        0
    } else {
        let k = at_index(t.drop_first());
        if k < 0 {
            -1
        } else {
            k + 1
        }
    }
}

/// The modulus and the shift that an operand `modulus@shift` denotes: two
/// non-empty runs of decimal digits around a single `@`.
pub open spec fn residual_value(t: Seq<char>) -> Option<(nat, nat)> {
    let k = at_index(t);
    if k < 0 {
        None
    } else {
        let a = t.take(k);
        let b = t.skip(k + 1);
        if a.len() > 0 && b.len() > 0 && all_digits(a) && all_digits(b) {
            Some((digits_value(a), digits_value(b)))
        } else {
            None
        }
    }
}

pub proof fn lemma_at_index(t: Seq<char>, k: int)
    requires
        0 <= k <= t.len(),
        forall|j: int| 0 <= j < k ==> t[j] != '@',
    ensures
        k < t.len() && t[k] == '@' ==> at_index(t) == k,
        k == t.len() ==> at_index(t) == -1,
    decreases k,
{
    if k > 0 {
        lemma_at_index(t.drop_first(), k - 1);
    }
}

/// A prefix of digits denotes no more than the whole.
proof fn lemma_digits_prefix(ds: Seq<char>, i: int)
    requires
        0 <= i <= ds.len(),
        all_digits(ds),
    ensures
        digits_value(ds.take(i)) <= digits_value(ds),
    decreases ds.len(),
{
    if i < ds.len() {
        let d = ds.drop_last();
        assert(all_digits(d)) by {
            assert forall|j: int| 0 <= j < d.len() implies #[trigger] is_digit(d[j]) by {
                assert(d[j] == ds[j]);
                assert(is_digit(ds[j]));
            }
        }
        lemma_digits_prefix(d, i);
        assert(d.take(i) == ds.take(i));
    } else {
        assert(ds.take(i) == ds);
    }
}

/// Whether `chars[from..to]` are all decimal digits.
fn all_digit_chars(chars: &Vec<char>, from: usize, to: usize) -> (r: bool)
    requires
        from <= to <= chars.len(),
    ensures
        r == all_digits(chars@.subrange(from as int, to as int)),
{
    let ghost ds = chars@.subrange(from as int, to as int);
    let mut i: usize = from;
    while i < to
        invariant
            from <= i <= to <= chars.len(),
            ds == chars@.subrange(from as int, to as int),
            forall|j: int| 0 <= j < i - from ==> #[trigger] is_digit(ds[j]),
        decreases to - i,
    {
        let c = chars[i];
        assert(c == ds[i - from]);
        if !('0' <= c && c <= '9') {
            proof {
                assert(!is_digit(ds[i - from]));
            }
            return false;
        }
        i = i + 1;
    }
    true
}

/// The value of the digits `chars[from..to]`, where they are all digits and
/// their value fits in `u128`.
fn parse_digits(chars: &Vec<char>, from: usize, to: usize) -> (r: Option<u128>)
    requires
        from <= to <= chars.len(),
    ensures
        ({
            let ds = chars@.subrange(from as int, to as int);
            if all_digits(ds) && digits_value(ds) <= u128::MAX {
                r == Some(digits_value(ds) as u128)
            } else {
                r is None
            }
        }),
{
    let ghost ds = chars@.subrange(from as int, to as int);
    let mut value: u128 = 0;
    let mut i: usize = from;
    proof {
        assert(ds.take(0) == Seq::<char>::empty());
    }
    while i < to
        invariant
            from <= i <= to <= chars.len(),
            ds == chars@.subrange(from as int, to as int),
            all_digits(ds.take(i - from)),
            value == digits_value(ds.take(i - from)),
        decreases to - i,
    {
        let c = chars[i];
        assert(c == ds[i - from]);
        if !('0' <= c && c <= '9') {
            proof {
                assert(!is_digit(ds[i - from]));
            }
            return None;
        }
        let d = (c as u32 - 48) as u128;
        let ghost next_prefix = ds.take(i - from + 1);
        proof {
            assert(next_prefix.drop_last() == ds.take(i - from));
            assert(next_prefix.last() == c);
        }
        let next = match value.checked_mul(10) {
            Some(v) => v.checked_add(d),
            None => None,
        };
        match next {
            Some(v) => {
                value = v;
            },
            None => {
                proof {
                    if all_digits(ds) {
                        lemma_digits_prefix(ds, i - from + 1);
                    }
                }
                return None;
            },
        }
        i = i + 1;
        proof {
            assert(all_digits(ds.take(i - from))) by {
                assert forall|j: int| 0 <= j < ds.take(i - from).len() implies #[trigger] is_digit(ds.take(i - from)[j]) by {
                    if j < i - from - 1 {
                        assert(ds.take(i - from)[j] == ds.take(i - from - 1)[j]);
                    }
                }
            }
        }
    }
    proof {
        assert(ds.take(to - from) == ds);
    }
    Some(value)
}

/// Reads an operand `modulus@shift` into its two numbers, in `T`. Fails
/// where the operand is not two runs of digits around one `@`, or where a
/// number does not fit in `T`.
pub fn residual_to_ints<T: UnsignedInt>(operand: &Vec<char>) -> (r: Result<(T, T), &'static str>)
    ensures
        match residual_value(operand@) {
            Some((m, s)) => if m <= T::max_value() && s <= T::max_value() {
                r matches Ok((x, y)) && x.as_nat() == m && y.as_nat() == s
            } else {
                r matches Err(msg) && msg@ == "Residual value out of range."@
            },
            None => r matches Err(msg) && msg@ == "Input must contain one '@' character separating two numbers."@,
        },
{
    let t = operand;
    let mut k: usize = 0;
    while k < t.len() && t[k] != '@'
        invariant
            k <= t.len(),
            forall|j: int| 0 <= j < k ==> t@[j] != '@',
        decreases t.len() - k,
    {
        k = k + 1;
    }
    proof {
        lemma_at_index(t@, k as int);
    }
    if k == t.len() {
        return Err("Input must contain one '@' character separating two numbers.");
    }
    if k == 0 || k + 1 == t.len() {
        return Err("Input must contain one '@' character separating two numbers.");
    }
    proof {
        T::lemma_max_fits();
        assert(t@.take(k as int) == t@.subrange(0, k as int));
        assert(t@.skip(k + 1) == t@.subrange(k + 1, t.len() as int));
    }
    if !all_digit_chars(t, 0, k) || !all_digit_chars(t, k + 1, t.len()) {
        return Err("Input must contain one '@' character separating two numbers.");
    }
    let m = match parse_digits(t, 0, k) {
        Some(v) => v,
        None => return Err("Residual value out of range."),
    };
    let s = match parse_digits(t, k + 1, t.len()) {
        Some(v) => v,
        None => return Err("Residual value out of range."),
    };
    let mt = match T::from_u128(m) {
        Some(v) => v,
        None => return Err("Residual value out of range."),
    };
    let st = match T::from_u128(s) {
        Some(v) => v,
        None => return Err("Residual value out of range."),
    };
    Ok((mt, st))
}

/// An expression tree whose leaves are operand texts.
pub type TextExpr = Expr<Seq<char>>;

/// The operator token of a binary precedence level: `&` binds tightest,
/// then `^`, then `|`.
pub open spec fn level_op(level: nat) -> Token<Seq<char>> {
    if level == 1 {
        Token::And
    } else if level == 2 {
        Token::Xor
    } else {
        Token::Or
    }
}

/// The tree of the binary operation of a precedence level.
pub open spec fn level_node(level: nat, l: TextExpr, r: TextExpr) -> TextExpr {
    if level == 1 {
        Expr::Intersection(Box::new(l), Box::new(r))
    } else if level == 2 {
        Expr::SymmetricDifference(Box::new(l), Box::new(r))
    } else {
        Expr::Union(Box::new(l), Box::new(r))
    }
}

/// An atom at position `p`: an operand, or an expression in parentheses.
/// Gives the tree and the position after it.
pub open spec fn parse_atom(t: Seq<Token<Seq<char>>>, p: int) -> Option<(TextExpr, int)>
    decreases t.len() - p, 0int,
{
    if 0 <= p < t.len() {
        match t[p] {
            Token::Operand(text) => Some((Expr::Leaf(text), p + 1)),
            Token::Open => match parse_level(t, p + 1, 3) {
                Some((e, q)) => if p + 1 < q < t.len() && t[q] is Close {
                    Some((e, q + 1))
                } else {
                    None
                },
                None => None,
            },
            _ => None,
        }
    } else {
        None
    }
}

/// An expression of precedence `level` at position `p`: level zero is an
/// atom preceded by any number of `!`; levels one to three are one or more
/// expressions of the level below joined, from the left, by the level's
/// operator. Gives the tree and the position after it.
pub open spec fn parse_level(t: Seq<Token<Seq<char>>>, p: int, level: nat) -> Option<(TextExpr, int)>
    decreases t.len() - p, 2 * level + 1,
{
    if 0 <= p < t.len() && level <= 3 {
        if level == 0 {
            if t[p] is Not {
                match parse_level(t, p + 1, 0) {
                    Some((e, q)) => Some((Expr::Inversion(Box::new(e)), q)),
                    None => None,
                }
            } else {
                parse_atom(t, p)
            }
        } else {
            match parse_level(t, p, (level - 1) as nat) {
                Some((e, q)) => if p < q <= t.len() {
                    parse_rest(t, q, level, e)
                } else {
                    None
                },
                None => None,
            }
        }
    } else {
        None
    }
}

/// The rest of an expression of a binary precedence `level`, whose first
/// operands have given `acc`, from position `p`.
pub open spec fn parse_rest(t: Seq<Token<Seq<char>>>, p: int, level: nat, acc: TextExpr) -> Option<(TextExpr, int)>
    decreases t.len() - p, 2 * level,
{
    if 0 <= p <= t.len() && 1 <= level <= 3 {
        if p < t.len() && t[p] == level_op(level) {
            match parse_level(t, p + 1, (level - 1) as nat) {
                Some((e, q)) => if p + 1 < q <= t.len() {
                    parse_rest(t, q, level, level_node(level, acc, e))
                } else {
                    None
                },
                None => None,
            }
        } else {
            Some((acc, p))
        }
    } else {
        None
    }
}

/// The tree of a whole token sequence, where it is one expression.
pub open spec fn parse_tokens(t: Seq<Token<Seq<char>>>) -> Option<TextExpr> {
    match parse_level(t, 0, 3) {
        Some((e, q)) => if q == t.len() {
            Some(e)
        } else {
            None
        },
        None => None,
    }
}

/// The tree of a sieve expression, where it is one.
pub open spec fn parse_text(s: Seq<char>) -> Option<TextExpr> {
    match lex(s) {
        Some(t) => parse_tokens(t),
        None => None,
    }
}

/// The tokens of a tree in postfix order: operands first, each operator
/// after its operands.
pub open spec fn postorder(e: TextExpr) -> Seq<Token<Seq<char>>>
    decreases e,
{
    match e {
        Expr::Leaf(text) => seq![Token::Operand(text)],
        Expr::Intersection(l, r) => postorder(*l) + postorder(*r) + seq![Token::And],
        Expr::Union(l, r) => postorder(*l) + postorder(*r) + seq![Token::Or],
        Expr::SymmetricDifference(l, r) => postorder(*l) + postorder(*r) + seq![Token::Xor],
        Expr::Inversion(p) => postorder(*p) + seq![Token::Not],
    }
}

/// One step of evaluating postfix tokens on a stack of trees: an operand
/// pushes a leaf, `!` replaces the top tree by its inversion, and a binary
/// operator replaces the two top trees (left below right) by their
/// combination. `None` where the stack holds too few trees.
pub open spec fn postfix_step(st: Seq<TextExpr>, tok: Token<Seq<char>>) -> Option<Seq<TextExpr>> {
    let n = st.len();
    match tok {
        Token::Operand(text) => Some(st.push(Expr::Leaf(text))),
        Token::Not => if n >= 1 {
            Some(st.drop_last().push(Expr::Inversion(Box::new(st[n - 1]))))
        } else {
            None
        },
        Token::And => if n >= 2 {
            Some(st.take(n - 2).push(Expr::Intersection(Box::new(st[n - 2]), Box::new(st[n - 1]))))
        } else {
            None
        },
        Token::Xor => if n >= 2 {
            Some(st.take(n - 2).push(Expr::SymmetricDifference(Box::new(st[n - 2]), Box::new(st[n - 1]))))
        } else {
            None
        },
        Token::Or => if n >= 2 {
            Some(st.take(n - 2).push(Expr::Union(Box::new(st[n - 2]), Box::new(st[n - 1]))))
        } else {
            None
        },
        _ => None,
    }
}

/// Evaluates postfix tokens from left to right on the stack `st`.
pub open spec fn postfix_run(toks: Seq<Token<Seq<char>>>, st: Seq<TextExpr>) -> Option<Seq<TextExpr>>
    decreases toks.len(),
{
    if toks.len() == 0 {
        Some(st)
    } else {
        match postfix_step(st, toks[0]) {
            Some(next) => postfix_run(toks.drop_first(), next),
            None => None,
        }
    }
}

/// Evaluating the postfix form of a tree pushes that tree: evaluating
/// `postorder(e)` followed by more tokens is evaluating those tokens on the
/// stack with `e` on top.
pub proof fn lemma_postfix_run(e: TextExpr, rest: Seq<Token<Seq<char>>>, st: Seq<TextExpr>)
    ensures
        postfix_run(postorder(e) + rest, st) == postfix_run(rest, st.push(e)),
    decreases e,
{
    match e {
        Expr::Leaf(text) => {
            assert((postorder(e) + rest)[0] == Token::Operand(text));
            assert((postorder(e) + rest).drop_first() == rest);
        },
        Expr::Inversion(p) => {
            let op = seq![Token::<Seq<char>>::Not];
            assert(postorder(e) + rest == postorder(*p) + (op + rest));
            lemma_postfix_run(*p, op + rest, st);
            assert((op + rest).drop_first() == rest);
            assert(st.push(*p).drop_last() == st);
        },
        Expr::Intersection(l, r) => {
            let ops = seq![Token::<Seq<char>>::And];
            assert(postorder(e) + rest == postorder(*l) + (postorder(*r) + (ops + rest)));
            lemma_postfix_run(*l, postorder(*r) + (ops + rest), st);
            lemma_postfix_run(*r, ops + rest, st.push(*l));
            assert((ops + rest).drop_first() == rest);
            let s2 = st.push(*l).push(*r);
            assert(s2.take(s2.len() - 2) == st);
        },
        Expr::Union(l, r) => {
            let ops = seq![Token::<Seq<char>>::Or];
            assert(postorder(e) + rest == postorder(*l) + (postorder(*r) + (ops + rest)));
            lemma_postfix_run(*l, postorder(*r) + (ops + rest), st);
            lemma_postfix_run(*r, ops + rest, st.push(*l));
            assert((ops + rest).drop_first() == rest);
            let s2 = st.push(*l).push(*r);
            assert(s2.take(s2.len() - 2) == st);
        },
        Expr::SymmetricDifference(l, r) => {
            let ops = seq![Token::<Seq<char>>::Xor];
            assert(postorder(e) + rest == postorder(*l) + (postorder(*r) + (ops + rest)));
            lemma_postfix_run(*l, postorder(*r) + (ops + rest), st);
            lemma_postfix_run(*r, ops + rest, st.push(*l));
            assert((ops + rest).drop_first() == rest);
            let s2 = st.push(*l).push(*r);
            assert(s2.take(s2.len() - 2) == st);
        },
    }
}

/// The tokens of a tree with every binary operation enclosed in
/// parentheses and every inversion written as `!` before its operand.
pub open spec fn full_tokens(e: TextExpr) -> Seq<Token<Seq<char>>>
    decreases e,
{
    match e {
        Expr::Leaf(text) => seq![Token::Operand(text)],
        Expr::Intersection(l, r) => seq![Token::Open] + full_tokens(*l) + seq![Token::And] + full_tokens(*r) + seq![Token::Close],
        Expr::Union(l, r) => seq![Token::Open] + full_tokens(*l) + seq![Token::Or] + full_tokens(*r) + seq![Token::Close],
        Expr::SymmetricDifference(l, r) => seq![Token::Open] + full_tokens(*l) + seq![Token::Xor] + full_tokens(*r)
            + seq![Token::Close],
        Expr::Inversion(p) => seq![Token::Not] + full_tokens(*p),
    }
}

/// Every expression, written with its binary operations in parentheses,
/// reads back as that expression.
pub proof fn lemma_parse_full_tokens(e: TextExpr)
    ensures
        parse_tokens(full_tokens(e)) == Some(e),
{
    let t = full_tokens(e);
    lemma_full_tokens_len(e);
    assert(t.subrange(0, t.len() as int) == t);
    lemma_parse_closed_level(e, t, 0, 3);
}

proof fn lemma_full_tokens_len(e: TextExpr)
    ensures
        full_tokens(e).len() >= 1,
    decreases e,
{
}

/// The text of a tree with every binary operation enclosed in parentheses
/// and every inversion written as `!` before its operand.
pub open spec fn full_text(e: TextExpr) -> Seq<char>
    decreases e,
{
    match e {
        Expr::Leaf(text) => text,
        Expr::Intersection(l, r) => seq!['('] + full_text(*l) + seq!['&'] + full_text(*r) + seq![')'],
        Expr::Union(l, r) => seq!['('] + full_text(*l) + seq!['|'] + full_text(*r) + seq![')'],
        Expr::SymmetricDifference(l, r) => seq!['('] + full_text(*l) + seq!['^'] + full_text(*r) + seq![')'],
        Expr::Inversion(p) => seq!['!'] + full_text(*p),
    }
}

/// Every operand text of `e` is a non-empty run of digits and `@`.
pub open spec fn operands_well_formed(e: TextExpr) -> bool
    decreases e,
{
    match e {
        Expr::Leaf(text) => text.len() > 0 && forall|i: int| 0 <= i < text.len() ==> #[trigger] is_operand_char(text[i]),
        Expr::Intersection(l, r) => operands_well_formed(*l) && operands_well_formed(*r),
        Expr::Union(l, r) => operands_well_formed(*l) && operands_well_formed(*r),
        Expr::SymmetricDifference(l, r) => operands_well_formed(*l) && operands_well_formed(*r),
        Expr::Inversion(p) => operands_well_formed(*p),
    }
}

/// Every expression whose operands are runs of digits and `@`, written with
/// its binary operations in parentheses, reads back as that expression.
pub proof fn lemma_parse_full_text(e: TextExpr)
    requires
        operands_well_formed(e),
    ensures
        parse_text(full_text(e)) == Some(e),
{
    lemma_lex_full_text(e, Seq::empty());
    assert(full_text(e) + Seq::<char>::empty() == full_text(e));
    assert(full_tokens(e) + Seq::<Token<Seq<char>>>::empty() == full_tokens(e));
    lemma_parse_full_tokens(e);
}

/// A run of operand characters followed by the end or by another character
/// is read whole.
proof fn lemma_operand_run_of(t: Seq<char>, s: Seq<char>)
    requires
        forall|i: int| 0 <= i < t.len() ==> #[trigger] is_operand_char(t[i]),
        s.len() == 0 || !is_operand_char(s[0]),
    ensures
        operand_run(t + s) == t.len(),
    decreases t.len(),
{
    if t.len() == 0 {
        assert(t + s == s);
    } else {
        assert((t + s)[0] == t[0]);
        assert((t + s).drop_first() == t.drop_first() + s);
        assert forall|i: int| 0 <= i < t.drop_first().len() implies #[trigger] is_operand_char(t.drop_first()[i]) by {
            assert(t.drop_first()[i] == t[i + 1]);
        }
        lemma_operand_run_of(t.drop_first(), s);
    }
}

/// Reading the text of `e` followed by text that starts with no operand
/// character gives the tokens of `e` followed by those of that text.
proof fn lemma_lex_full_text(e: TextExpr, s: Seq<char>)
    requires
        operands_well_formed(e),
        s.len() == 0 || !is_operand_char(s[0]),
    ensures
        lex(full_text(e) + s) == match lex(s) {
            Some(t) => Some(full_tokens(e) + t),
            None => None,
        },
    decreases e,
{
    match e {
        Expr::Leaf(text) => {
            let w = text + s;
            lemma_operand_run_of(text, s);
            assert(w[0] == text[0]);
            assert(is_operand_char(text[0]));
            assert(w.take(text.len() as int) == text);
            assert(w.skip(text.len() as int) == s);
        },
        Expr::Inversion(p) => {
            let w = seq!['!'] + full_text(*p) + s;
            assert(w[0] == '!');
            assert(w.drop_first() == full_text(*p) + s);
            lemma_lex_full_text(*p, s);
            if let Some(t) = lex(s) {
                assert(seq![Token::Not] + (full_tokens(*p) + t) == full_tokens(e) + t);
            }
        },
        Expr::Intersection(l, r) => {
            let rest_r = seq![')'] + s;
            let rest_l = seq!['&'] + full_text(*r) + rest_r;
            lemma_lex_full_text(*r, rest_r);
            lemma_lex_full_text(*l, rest_l);
            lemma_lex_binary(*l, *r, '&', Token::And, s);
        },
        Expr::Union(l, r) => {
            let rest_r = seq![')'] + s;
            let rest_l = seq!['|'] + full_text(*r) + rest_r;
            lemma_lex_full_text(*r, rest_r);
            lemma_lex_full_text(*l, rest_l);
            lemma_lex_binary(*l, *r, '|', Token::Or, s);
        },
        Expr::SymmetricDifference(l, r) => {
            let rest_r = seq![')'] + s;
            let rest_l = seq!['^'] + full_text(*r) + rest_r;
            lemma_lex_full_text(*r, rest_r);
            lemma_lex_full_text(*l, rest_l);
            lemma_lex_binary(*l, *r, '^', Token::Xor, s);
        },
    }
}

/// Reading a parenthesized operation, given the readings of its operands
/// each followed by the rest of the text.
proof fn lemma_lex_binary(l: TextExpr, r: TextExpr, c: char, op: Token<Seq<char>>, s: Seq<char>)
    requires
        symbol_token(c) == Some(op),
        !is_operand_char(c),
        !is_space(c),
        ({
            let rest_r = seq![')'] + s;
            let rest_l = seq![c] + full_text(r) + rest_r;
            &&& lex(full_text(r) + rest_r) == match lex(rest_r) {
                Some(t) => Some(full_tokens(r) + t),
                None => None,
            }
            &&& lex(full_text(l) + rest_l) == match lex(rest_l) {
                Some(t) => Some(full_tokens(l) + t),
                None => None,
            }
        }),
    ensures
        lex(seq!['('] + full_text(l) + seq![c] + full_text(r) + seq![')'] + s) == match lex(s) {
            Some(t) => Some(seq![Token::Open] + full_tokens(l) + seq![op] + full_tokens(r) + seq![Token::Close] + t),
            None => None,
        },
{
    let fl = full_text(l);
    let fr = full_text(r);
    let rest_r = seq![')'] + s;
    let rest_l = seq![c] + fr + rest_r;
    let w = seq!['('] + fl + seq![c] + fr + seq![')'] + s;
    assert(w == seq!['('] + (fl + rest_l));
    assert(w[0] == '(');
    assert(w.drop_first() == fl + rest_l);
    assert(rest_l[0] == c);
    assert(rest_l.drop_first() == fr + rest_r);
    assert(rest_r[0] == ')');
    assert(rest_r.drop_first() == s);
    if let Some(t) = lex(s) {
        assert(lex(rest_r) == Some(seq![Token::Close] + t));
        assert(lex(rest_l) == Some(seq![op] + (full_tokens(r) + (seq![Token::Close] + t))));
        assert(lex(w) == Some(seq![Token::Open] + (full_tokens(l) + (seq![op] + (full_tokens(r) + (seq![Token::Close] + t))))));
        assert(seq![Token::Open] + (full_tokens(l) + (seq![op] + (full_tokens(r) + (seq![Token::Close] + t))))
            == seq![Token::Open] + full_tokens(l) + seq![op] + full_tokens(r) + seq![Token::Close] + t);
    }
}

/// The position `q` ends an expression of precedence `level`: the tokens
/// end there, or the token there is no operator of that level or below.
pub open spec fn ends_level(t: Seq<Token<Seq<char>>>, q: int, level: nat) -> bool {
    q == t.len() || (0 <= q < t.len() && forall|j: nat| 1 <= j <= level ==> t[q] != #[trigger] level_op(j))
}

/// The tokens of `e` at position `p` read as `e` at level zero.
proof fn lemma_parse_closed(e: TextExpr, t: Seq<Token<Seq<char>>>, p: int)
    requires
        0 <= p,
        p + full_tokens(e).len() <= t.len(),
        t.subrange(p, p + full_tokens(e).len()) == full_tokens(e),
    ensures
        parse_level(t, p, 0) == Some((e, p + full_tokens(e).len())),
    decreases e, 2nat,
{
    let f = full_tokens(e);
    let n = f.len() as int;
    lemma_full_tokens_len(e);
    assert(t[p] == f[0]);
    match e {
        Expr::Leaf(text) => {
            assert(t[p] == Token::Operand(text));
            assert(parse_atom(t, p) == Some((e, p + 1)));
        },
        Expr::Inversion(q) => {
            let g = full_tokens(*q);
            lemma_full_tokens_len(*q);
            assert(t.subrange(p + 1, p + 1 + g.len()) == g) by {
                assert forall|i: int| 0 <= i < g.len() implies #[trigger] t.subrange(p + 1, p + 1 + g.len())[i] == g[i] by {
                    assert(f[1 + i] == g[i]);
                    assert(t[p + 1 + i] == f[1 + i]);
                }
            }
            lemma_parse_closed(*q, t, p + 1);
        },
        Expr::Intersection(l, r) => {
            lemma_binary_layout(*l, *r, 1, t, p);
            let q1 = p + 1 + full_tokens(*l).len();
            lemma_parse_closed_level(*l, t, p + 1, 0);
            lemma_parse_closed_level(*r, t, q1 + 1, 0);
            lemma_binary_parse(*l, *r, 1, t, p);
        },
        Expr::SymmetricDifference(l, r) => {
            lemma_binary_layout(*l, *r, 2, t, p);
            let q1 = p + 1 + full_tokens(*l).len();
            lemma_parse_closed_level(*l, t, p + 1, 1);
            lemma_parse_closed_level(*r, t, q1 + 1, 1);
            lemma_binary_parse(*l, *r, 2, t, p);
        },
        Expr::Union(l, r) => {
            lemma_binary_layout(*l, *r, 3, t, p);
            let q1 = p + 1 + full_tokens(*l).len();
            lemma_parse_closed_level(*l, t, p + 1, 2);
            lemma_parse_closed_level(*r, t, q1 + 1, 2);
            lemma_binary_parse(*l, *r, 3, t, p);
        },
    }
}

/// Where the parenthesized operation of level `k` on `l` and `r` stands at
/// position `p`, its operands stand after the parenthesis and after the
/// operator, each followed by the end of an expression below level `k`.
proof fn lemma_binary_layout(l: TextExpr, r: TextExpr, k: nat, t: Seq<Token<Seq<char>>>, p: int)
    requires
        1 <= k <= 3,
        0 <= p,
        ({
            let f = seq![Token::Open] + full_tokens(l) + seq![level_op(k)] + full_tokens(r) + seq![Token::Close];
            &&& p + f.len() <= t.len()
            &&& t.subrange(p, p + f.len()) == f
        }),
    ensures
        ({
            let q1 = p + 1 + full_tokens(l).len();
            let q2 = q1 + 1 + full_tokens(r).len();
            &&& q2 < t.len()
            &&& t[p] is Open
            &&& t[q1] == level_op(k)
            &&& t[q2] is Close
            &&& t.subrange(p + 1, q1) == full_tokens(l)
            &&& t.subrange(q1 + 1, q2) == full_tokens(r)
            &&& ends_level(t, q1, (k - 1) as nat)
            &&& ends_level(t, q2, (k - 1) as nat)
        }),
{
    let f = seq![Token::Open] + full_tokens(l) + seq![level_op(k)] + full_tokens(r) + seq![Token::Close];
    let fl = full_tokens(l);
    let fr = full_tokens(r);
    let nl = fl.len() as int;
    let nr = fr.len() as int;
    let q1 = p + 1 + nl;
    let q2 = q1 + 1 + nr;
    assert(f.len() == nl + nr + 3);
    assert forall|i: int| 0 <= i < f.len() implies #[trigger] t[p + i] == f[i] by {
        assert(t.subrange(p, p + f.len())[i] == f[i]);
    }
    assert(t[p + 0] == f[0]);
    assert(t[p + (1 + nl)] == f[1 + nl]);
    assert(t[p + (2 + nl + nr)] == f[2 + nl + nr]);
    assert(t.subrange(p + 1, q1) == fl) by {
        assert forall|i: int| 0 <= i < nl implies #[trigger] t.subrange(p + 1, q1)[i] == fl[i] by {
            assert(t[p + (1 + i)] == f[1 + i]);
        }
    }
    assert(t.subrange(q1 + 1, q2) == fr) by {
        assert forall|i: int| 0 <= i < nr implies #[trigger] t.subrange(q1 + 1, q2)[i] == fr[i] by {
            assert(t[p + (2 + nl + i)] == f[2 + nl + i]);
        }
    }
}

/// With its operands read, the parenthesized operation of level `k` at
/// position `p` reads as that operation.
proof fn lemma_binary_parse(l: TextExpr, r: TextExpr, k: nat, t: Seq<Token<Seq<char>>>, p: int)
    requires
        1 <= k <= 3,
        0 <= p,
        ({
            let q1 = p + 1 + full_tokens(l).len();
            let q2 = q1 + 1 + full_tokens(r).len();
            &&& q2 < t.len()
            &&& t[p] is Open
            &&& t[q1] == level_op(k)
            &&& t[q2] is Close
            &&& parse_level(t, p + 1, (k - 1) as nat) == Some((l, q1))
            &&& parse_level(t, q1 + 1, (k - 1) as nat) == Some((r, q2))
        }),
    ensures
        parse_level(t, p, 0) == Some((level_node(k, l, r), p + 1 + full_tokens(l).len() + 1 + full_tokens(r).len() + 1)),
{
    lemma_full_tokens_len(l);
    lemma_full_tokens_len(r);
    let q1 = p + 1 + full_tokens(l).len();
    let q2 = q1 + 1 + full_tokens(r).len();
    let node = level_node(k, l, r);
    assert(parse_rest(t, q2, k, node) == Some((node, q2)));
    assert(parse_rest(t, q1, k, l) == Some((node, q2)));
    assert(parse_level(t, p + 1, k) == Some((node, q2)));
    lemma_climb(t, p + 1, k, 3, node, q2);
    assert(parse_atom(t, p) == Some((node, q2 + 1)));
}

/// Above the level at which an expression ends before a closing
/// parenthesis, every level reads the same expression.
proof fn lemma_climb(t: Seq<Token<Seq<char>>>, p: int, k: nat, j: nat, e: TextExpr, q: int)
    requires
        1 <= k <= j <= 3,
        0 <= p < q < t.len(),
        t[q] is Close,
        parse_level(t, p, k) == Some((e, q)),
    ensures
        parse_level(t, p, j) == Some((e, q)),
    decreases j - k,
{
    if j > k {
        lemma_climb(t, p, k, (j - 1) as nat, e, q);
        assert(parse_rest(t, q, j, e) == Some((e, q)));
    }
}

/// The tokens of `e` at position `p`, followed by the end of an expression
/// of precedence `level`, read as `e` at that level.
proof fn lemma_parse_closed_level(e: TextExpr, t: Seq<Token<Seq<char>>>, p: int, level: nat)
    requires
        level <= 3,
        0 <= p,
        p + full_tokens(e).len() <= t.len(),
        t.subrange(p, p + full_tokens(e).len()) == full_tokens(e),
        ends_level(t, p + full_tokens(e).len(), level),
    ensures
        parse_level(t, p, level) == Some((e, p + full_tokens(e).len())),
    decreases e, 3 + level,
{
    lemma_full_tokens_len(e);
    if level == 0 {
        lemma_parse_closed(e, t, p);
    } else {
        lemma_parse_closed_level(e, t, p, (level - 1) as nat);
        let q = p + full_tokens(e).len();
        if q < t.len() {
            assert(t[q] != level_op(level));
        }
        assert(parse_rest(t, q, level, e) == Some((e, q)));
    }
}

/// What the parsing functions below promise of the outcome `r` of parsing
/// from `p`, where the grammar gives `expected`: the same end position and
/// the postfix tokens of the tree appended to `out`.
pub open spec fn parsed_as(
    expected: Option<(TextExpr, int)>,
    r: Option<usize>,
    before: Seq<Token<Vec<char>>>,
    after: Seq<Token<Vec<char>>>,
) -> bool {
    match expected {
        Some((e, q)) => (r matches Some(x) && x == q) && tokens_view(after) == tokens_view(before) + postorder(e),
        None => r is None,
    }
}

proof fn lemma_tokens_view_push(v: Seq<Token<Vec<char>>>, t: Token<Vec<char>>)
    ensures
        tokens_view(v.push(t)) == tokens_view(v).push(token_view(t)),
{
    assert(tokens_view(v.push(t)) =~= tokens_view(v).push(token_view(t)));
}

fn copy_chars(v: &Vec<char>) -> (r: Vec<char>)
    ensures
        r@ == v@,
{
    let mut r: Vec<char> = Vec::new();
    let mut i: usize = 0;
    while i < v.len()
        invariant
            i <= v.len(),
            r@ == v@.take(i as int),
        decreases v.len() - i,
    {
        r.push(v[i]);
        i = i + 1;
        proof {
            assert(r@ == v@.take(i as int));
        }
    }
    proof {
        assert(v@.take(v.len() as int) == v@);
    }
    r
}

fn parse_atom_exec(toks: &Vec<Token<Vec<char>>>, pos: usize, out: &mut Vec<Token<Vec<char>>>) -> (r: Option<usize>)
    requires
        pos <= toks.len(),
    ensures
        parsed_as(parse_atom(tokens_view(toks@), pos as int), r, old(out)@, final(out)@),
        r matches Some(q) ==> pos < q <= toks.len(),
    decreases toks.len() - pos, 0int,
{
    let ghost t = tokens_view(toks@);
    if pos >= toks.len() {
        return None;
    }
    assert(t[pos as int] == token_view(toks@[pos as int]));
    match &toks[pos] {
        Token::Operand(text) => {
            let copied = copy_chars(text);
            proof {
                lemma_tokens_view_push(out@, Token::Operand(copied));
                assert(t[pos as int] == Token::Operand(text@));
                assert(parse_atom(t, pos as int) == Some((Expr::Leaf(text@), pos + 1)));
                assert(postorder(Expr::Leaf(text@)) == seq![Token::Operand(text@)]);
            }
            out.push(Token::Operand(copied));
            proof {
                assert(tokens_view(out@) == tokens_view(old(out)@) + seq![Token::Operand(text@)]);
            }
            Some(pos + 1)
        },
        Token::Open => {
            match parse_level_exec(toks, pos + 1, 3, out) {
                Some(q) => {
                    if q < toks.len() && matches!(toks[q], Token::Close) {
                        assert(t[q as int] == token_view(toks@[q as int]));
                        Some(q + 1)
                    } else {
                        proof {
                            if q < toks.len() {
                                assert(t[q as int] == token_view(toks@[q as int]));
                            }
                        }
                        None
                    }
                },
                None => None,
            }
        },
        _ => None,
    }
}

fn is_level_op(tok: &Token<Vec<char>>, level: u8) -> (r: bool)
    requires
        1 <= level <= 3,
    ensures
        r == (token_view(*tok) == level_op(level as nat)),
{
    match tok {
        Token::And => level == 1,
        Token::Xor => level == 2,
        Token::Or => level == 3,
        _ => false,
    }
}

fn parse_level_exec(toks: &Vec<Token<Vec<char>>>, pos: usize, level: u8, out: &mut Vec<Token<Vec<char>>>) -> (r: Option<usize>)
    requires
        pos <= toks.len(),
        level <= 3,
    ensures
        parsed_as(parse_level(tokens_view(toks@), pos as int, level as nat), r, old(out)@, final(out)@),
        r matches Some(q) ==> pos < q <= toks.len(),
    decreases toks.len() - pos, 2 * level + 1,
{
    let ghost t = tokens_view(toks@);
    if pos >= toks.len() {
        return None;
    }
    assert(t[pos as int] == token_view(toks@[pos as int]));
    if level == 0 {
        if matches!(toks[pos], Token::Not) {
            match parse_level_exec(toks, pos + 1, 0, out) {
                Some(q) => {
                    proof {
                        lemma_tokens_view_push(out@, Token::Not);
                        let (e, _) = parse_level(t, pos + 1, 0)->0;
                        assert(postorder(Expr::Inversion(Box::new(e))) == postorder(e) + seq![Token::Not]);
                    }
                    out.push(Token::Not);
                    proof {
                        let (e, _) = parse_level(t, pos + 1, 0)->0;
                        assert(t[pos as int] is Not);
                        assert(parse_level(t, pos as int, 0) == Some((Expr::Inversion(Box::new(e)), q as int)));
                        assert(tokens_view(out@) == tokens_view(old(out)@) + postorder(Expr::Inversion(Box::new(e))));
                    }
                    Some(q)
                },
                None => None,
            }
        } else {
            assert(!(t[pos as int] is Not));
            assert(parse_level(t, pos as int, 0) == parse_atom(t, pos as int));
            parse_atom_exec(toks, pos, out)
        }
    } else {
        match parse_level_exec(toks, pos, level - 1, out) {
            Some(q) => {
                let ghost e = (parse_level(t, pos as int, (level - 1) as nat)->0).0;
                let ghost mid = out@;
                let r = parse_rest_exec(toks, q, level, Ghost(e), out);
                proof {
                    assert(parse_level(t, pos as int, level as nat) == parse_rest(t, q as int, level as nat, e));
                    lemma_rest_extends(t, q as int, level as nat, e);
                    if let Some((fin, _)) = parse_rest(t, q as int, level as nat, e) {
                        let pf = postorder(fin);
                        let pe = postorder(e);
                        assert(pf == pe + pf.subrange(pe.len() as int, pf.len() as int));
                        assert(tokens_view(out@) == tokens_view(old(out)@) + pe + pf.subrange(pe.len() as int, pf.len() as int));
                        assert(tokens_view(out@) =~= tokens_view(old(out)@) + pf);
                    }
                }
                r
            },
            None => None,
        }
    }
}

fn parse_rest_exec(
    toks: &Vec<Token<Vec<char>>>,
    pos: usize,
    level: u8,
    Ghost(acc): Ghost<TextExpr>,
    out: &mut Vec<Token<Vec<char>>>,
) -> (r: Option<usize>)
    requires
        pos <= toks.len(),
        1 <= level <= 3,
    ensures
        match parse_rest(tokens_view(toks@), pos as int, level as nat, acc) {
            Some((e, q)) => (r matches Some(x) && x == q) && tokens_view(final(out)@) == tokens_view(old(out)@)
                + postorder(e).subrange(postorder(acc).len() as int, postorder(e).len() as int),
            None => r is None,
        },
        r matches Some(q) ==> pos <= q <= toks.len(),
    decreases toks.len() - pos, 2 * level,
{
    let ghost t = tokens_view(toks@);
    if pos < toks.len() && is_level_op(&toks[pos], level) {
        assert(t[pos as int] == token_view(toks@[pos as int]));
        match parse_level_exec(toks, pos + 1, level - 1, out) {
            Some(q) => {
                let ghost e = (parse_level(t, pos as int + 1, (level - 1) as nat)->0).0;
                let op = match level {
                    1 => Token::And,
                    2 => Token::Xor,
                    _ => Token::Or,
                };
                proof {
                    lemma_tokens_view_push(out@, op);
                }
                out.push(op);
                let ghost combined = level_node(level as nat, acc, e);
                proof {
                    assert(postorder(combined) == postorder(acc) + postorder(e) + seq![level_op(level as nat)]);
                }
                let r = parse_rest_exec(toks, q, level, Ghost(combined), out);
                proof {
                    lemma_rest_extends(t, q as int, level as nat, combined);
                    if let Some((fin, _)) = parse_rest(t, q as int, level as nat, combined) {
                        let pf = postorder(fin);
                        let pc = postorder(combined);
                        let pa = postorder(acc);
                        assert(pc.subrange(pa.len() as int, pc.len() as int) == postorder(e) + seq![level_op(level as nat)]);
                        assert(pf.subrange(pa.len() as int, pf.len() as int)
                            == pc.subrange(pa.len() as int, pc.len() as int) + pf.subrange(pc.len() as int, pf.len() as int));
                    }
                }
                r
            },
            None => None,
        }
    } else {
        proof {
            if pos < toks.len() {
                assert(t[pos as int] == token_view(toks@[pos as int]));
            }
            let pa = postorder(acc);
            assert(pa.subrange(pa.len() as int, pa.len() as int) == Seq::<Token<Seq<char>>>::empty());
            assert(tokens_view(out@) + Seq::<Token<Seq<char>>>::empty() == tokens_view(out@));
        }
        Some(pos)
    }
}

/// The postfix form of `acc` is a prefix of that of whatever `parse_rest`
/// builds on it.
proof fn lemma_rest_extends(t: Seq<Token<Seq<char>>>, p: int, level: nat, acc: TextExpr)
    ensures
        parse_rest(t, p, level, acc) matches Some((e, _)) ==> postorder(e).len() >= postorder(acc).len()
            && postorder(e).subrange(0, postorder(acc).len() as int) == postorder(acc),
    decreases t.len() - p,
{
    if 0 <= p <= t.len() && 1 <= level <= 3 && p < t.len() && t[p] == level_op(level) {
        if let Some((e, q)) = parse_level(t, p + 1, (level - 1) as nat) {
            if p + 1 < q <= t.len() {
                let c = level_node(level, acc, e);
                lemma_rest_extends(t, q, level, c);
                assert(postorder(c) == postorder(acc) + postorder(e) + seq![level_op(level)]);
                if let Some((fin, _)) = parse_rest(t, q, level, c) {
                    assert(postorder(fin).subrange(0, postorder(acc).len() as int)
                        == postorder(fin).subrange(0, postorder(c).len() as int).subrange(0, postorder(acc).len() as int));
                }
            }
        }
    }
}

} // verus!
