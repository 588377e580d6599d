use vstd::prelude::*;

use crate::env::{is_symbol_char, is_symbol_name, Env};
use crate::parse::{
    digits_of, digits_value, flush_number, is_digit, is_space, lemma_scan_error, point_of, scan, step, tokenize,
    NumberRun, Operand, ScanState, Span,
};
use crate::rpn::{expr_of, rpn_of, rpn_stack, rpn_step, shunt, shunt_step, Expr};
use crate::token::{Associativity, Operator, Token};
use crate::{expression_of, ErrorModel};

verus! {

/// The value of a string of decimal digits.
pub open spec fn decimal_value(s: Seq<char>) -> nat
    decreases s.len(),
{
    if s.len() == 0 {
        0
    } else {
        10 * decimal_value(s.drop_last()) + (s.last() as u32 - '0' as u32) as nat
    }
}

/// Every character of `s` at positions `from..to` is a digit.
pub open spec fn all_digits(s: Seq<char>, from: int, to: int) -> bool {
    forall|i: int| from <= i < to ==> is_digit(#[trigger] s[i])
}

/// A number token for the numeral at `start..end`.
pub open spec fn literal<N>(start: int, end: int) -> Token<Operand<N>> {
    Token::Number(Operand::Literal(Span { start: start as usize, end: end as usize }))
}

/// A numeral: digits with at most one decimal point among them, and at
/// least one digit.
pub open spec fn is_numeral(s: Seq<char>) -> bool {
    &&& numeral_chars(s, 0, s.len() as int)
    &&& has_digit_in(s, 0, s.len() as int)
}

/// The characters at `from..to` are digits and decimal points, with no two points.
pub open spec fn numeral_chars(s: Seq<char>, from: int, to: int) -> bool {
    &&& forall|i: int| from <= i < to ==> is_digit(#[trigger] s[i]) || s[i] == '.'
    &&& forall|i: int, j: int| from <= i < j < to && #[trigger] s[i] == '.' ==> #[trigger] s[j] != '.'
}

pub open spec fn has_digit_in(s: Seq<char>, from: int, to: int) -> bool {
    exists|i: int| from <= i < to && is_digit(#[trigger] s[i])
}

pub open spec fn has_point_in(s: Seq<char>, from: int, to: int) -> bool {
    exists|i: int| from <= i < to && #[trigger] s[i] == '.'
}

/// The tokenizer, with no number or name pending, reads the characters of a
/// numeral into one pending number.
proof fn lemma_scan_numeral<N, F>(chars: Seq<char>, env: Env<N, F>, start: int, k: int, tokens: Seq<Token<Operand<N>>>)
    requires
        0 <= start < k <= chars.len(),
        chars.len() <= usize::MAX,
        numeral_chars(chars, start, k),
        scan(chars, env, start as nat) == Ok::<ScanState<N>, ErrorModel>(
            ScanState { tokens, number: None, symbol: None },
        ),
    ensures
        scan(chars, env, k as nat) == Ok::<ScanState<N>, ErrorModel>(
            ScanState {
                tokens,
                number: Some(
                    NumberRun {
                        start: start as usize,
                        has_digit: has_digit_in(chars, start, k),
                        has_point: has_point_in(chars, start, k),
                    },
                ),
                symbol: None,
            },
        ),
    decreases k - start,
{
    let c = chars[k - 1];
    assert(is_digit(c) || c == '.');
    if k - 1 > start {
        lemma_scan_numeral(chars, env, start, k - 1, tokens);
        if is_digit(c) {
            assert(has_digit_in(chars, start, k));
            assert(has_point_in(chars, start, k) == has_point_in(chars, start, k - 1));
        } else {
            assert(has_point_in(chars, start, k));
            assert(!has_point_in(chars, start, k - 1));
            assert(has_digit_in(chars, start, k) == has_digit_in(chars, start, k - 1));
        }
    } else {
        if is_digit(c) {
            assert(has_digit_in(chars, start, k));
            assert(!has_point_in(chars, start, k));
        } else {
            assert(!has_digit_in(chars, start, k));
            assert(has_point_in(chars, start, k));
        }
    }
}

/// The digits of a digit string have the string's decimal value.
proof fn lemma_digits_value(s: Seq<char>)
    requires
        all_digits(s, 0, s.len() as int),
    ensures
        digits_value(digits_of(s)) == decimal_value(s),
        digits_of(s).len() == s.len(),
        point_of(s) is None,
    decreases s.len(),
{
    if s.len() > 0 {
        lemma_digits_value(s.drop_last());
        assert(is_digit(s.last()));
        assert(digits_of(s) == digits_of(s.drop_last()).push((s.last() as u32 - '0' as u32) as u8));
        assert(digits_of(s).drop_last() == digits_of(s.drop_last()));
    }
}

/// The shunting-yard state after one more token.
proof fn lemma_shunt_push<N>(ts: Seq<Token<N>>, t: Token<N>)
    ensures
        shunt(ts.push(t)) == shunt_step(shunt(ts), t),
{
    assert(ts.push(t).drop_last() =~= ts);
}

/// The evaluation stack after one more token.
proof fn lemma_rpn_stack_push<N>(ts: Seq<Token<N>>, t: Token<N>)
    ensures
        rpn_stack(ts.push(t)) == match rpn_stack(ts) {
            Some(stack) => rpn_step(stack, t),
            None => None,
        },
{
    assert(ts.push(t).drop_last() =~= ts);
}

/// A string of digits denotes one number: the numeral that spans it, whose
/// digits have the string's decimal value and which has no decimal point.
pub proof fn lemma_integer_literal<N, F>(s: Seq<char>, env: Env<N, F>)
    requires
        s.len() > 0,
        s.len() <= usize::MAX,
        all_digits(s, 0, s.len() as int),
    ensures
        expression_of(s, env) == Ok::<Expr<Operand<N>>, ErrorModel>(
            Expr::Number(Operand::Literal(Span { start: 0, end: s.len() as usize })),
        ),
        digits_value(digits_of(s)) == decimal_value(s),
        point_of(s) is None,
{
    let empty = Seq::<Token<Operand<N>>>::empty();
    assert(numeral_chars(s, 0, s.len() as int));
    lemma_scan_numeral(s, env, 0, s.len() as int, empty);
    assert(is_digit(s[0]));
    assert(has_digit_in(s, 0, s.len() as int));
    assert(!has_point_in(s, 0, s.len() as int));
    let tokens = seq![literal::<N>(0, s.len() as int)];
    assert(tokenize(s, env) == Ok::<Seq<Token<Operand<N>>>, ErrorModel>(tokens));
    assert(tokens =~= empty.push(literal::<N>(0, s.len() as int)));
    lemma_shunt_push(empty, literal::<N>(0, s.len() as int));
    assert(rpn_of(tokens) =~= tokens);
    lemma_rpn_stack_push(empty, literal::<N>(0, s.len() as int));
    lemma_digits_value(s);
}

/// The operator that `+`, `-`, `*` or `/` stands for between two operands.
pub open spec fn binary_operator(c: char) -> Operator {
    if c == '+' {
        Operator::Add
    } else if c == '-' {
        Operator::Subtract
    } else if c == '*' {
        Operator::Multiply
    } else {
        Operator::Divide
    }
}

/// Two numbers with a binary operator between them denote that operator
/// applied to them.
proof fn lemma_binary_tokens<T>(x: T, op: Operator, y: T)
    requires
        op.spec_associativity() != Associativity::Unary,
    ensures
        expr_of(rpn_of(seq![Token::Number(x), Token::Op(op), Token::Number(y)])) == Some(
            Expr::Binary(op, Box::new(Expr::Number(x)), Box::new(Expr::Number(y))),
        ),
{
    let e = Seq::<Token<T>>::empty();
    let t1 = e.push(Token::Number(x));
    let t2 = t1.push(Token::Op(op));
    let t3 = t2.push(Token::Number(y));
    assert(t3 =~= seq![Token::Number(x), Token::Op(op), Token::Number(y)]);
    lemma_shunt_push(e, Token::Number(x));
    lemma_shunt_push(t1, Token::Op(op));
    lemma_shunt_push(t2, Token::Number(y));
    assert(shunt(t3).stack =~= seq![Token::Op(op)]);
    assert(rpn_of(t3) =~= seq![Token::Number(x), Token::Number(y), Token::Op(op)]);
    let r = seq![Token::Number(x), Token::Number(y), Token::Op(op)];
    let r1 = e.push(Token::Number(x));
    let r2 = r1.push(Token::Number(y));
    assert(r =~= r2.push(Token::Op(op)));
    lemma_rpn_stack_push(e, Token::Number(x));
    lemma_rpn_stack_push(r1, Token::Number(y));
    lemma_rpn_stack_push(r2, Token::Op(op));
    let st2 = seq![Expr::Number(x), Expr::Number(y)];
    assert(rpn_stack(r2) == Some(st2)) by {
        assert(Seq::<Expr<T>>::empty().push(Expr::Number(x)).push(Expr::Number(y)) =~= st2);
    }
    assert(st2.take(0) =~= Seq::<Expr<T>>::empty());
}

/// Two numerals with `+`, `-`, `*` or `/` between them denote that
/// operation on the two numerals.
pub proof fn lemma_binary_literals<N, F>(a: Seq<char>, c: char, b: Seq<char>, env: Env<N, F>)
    requires
        a.len() > 0,
        b.len() > 0,
        a.len() + 1 + b.len() <= usize::MAX,
        is_numeral(a),
        is_numeral(b),
        c == '+' || c == '-' || c == '*' || c == '/',
    ensures
        expression_of(a + seq![c] + b, env) == Ok::<Expr<Operand<N>>, ErrorModel>(
            Expr::Binary(
                binary_operator(c),
                Box::new(Expr::Number(Operand::Literal(Span { start: 0, end: a.len() as usize }))),
                Box::new(
                    Expr::Number(
                        Operand::Literal(
                            Span { start: (a.len() + 1) as usize, end: (a.len() + 1 + b.len()) as usize },
                        ),
                    ),
                ),
            ),
        ),
{
    let text = a + seq![c] + b;
    let na = a.len() as int;
    let n = text.len() as int;
    let empty = Seq::<Token<Operand<N>>>::empty();
    assert(text.subrange(0, na) =~= a);
    assert(text.subrange(na + 1, n) =~= b);
    lemma_numeral_at(text, a, 0);
    lemma_numeral_at(text, b, na + 1);
    lemma_scan_numeral(text, env, 0, na, empty);
    assert(text[na] == c);
    let op = binary_operator(c);
    let two = seq![literal::<N>(0, na), Token::Op(op)];
    assert(scan(text, env, (na + 1) as nat) == Ok::<ScanState<N>, ErrorModel>(
        ScanState { tokens: two, number: None, symbol: None },
    )) by {
        assert(empty.push(literal::<N>(0, na)).push(Token::Op(op)) =~= two);
    }
    lemma_scan_numeral(text, env, na + 1, n, two);
    let three = seq![literal::<N>(0, na), Token::Op(op), literal::<N>(na + 1, n)];
    assert(tokenize(text, env) == Ok::<Seq<Token<Operand<N>>>, ErrorModel>(three)) by {
        assert(two.push(literal::<N>(na + 1, n)) =~= three);
    }
    lemma_binary_tokens(
        Operand::<N>::Literal(Span { start: 0, end: na as usize }),
        op,
        Operand::<N>::Literal(Span { start: (na + 1) as usize, end: n as usize }),
    );
}

/// A numeral placed in `text` at `at` makes that stretch a numeral.
proof fn lemma_numeral_at(text: Seq<char>, a: Seq<char>, at: int)
    requires
        0 <= at,
        at + a.len() <= text.len(),
        text.subrange(at, at + a.len()) == a,
        is_numeral(a),
    ensures
        numeral_chars(text, at, at + a.len()),
        has_digit_in(text, at, at + a.len()),
{
    assert forall|i: int| at <= i < at + a.len() implies text[i] == a[i - at] by {
        assert(text[i] == text.subrange(at, at + a.len())[i - at]);
    }
    assert forall|i: int, j: int| at <= i < j < at + a.len() && #[trigger] text[i] == '.' implies #[trigger] text[j] != '.' by {
        assert(a[i - at] == '.');
        if a[j - at] == '.' {
            assert(false);
        }
    }
    let w = choose|i: int| 0 <= i < a.len() && is_digit(#[trigger] a[i]);
    assert(is_digit(text[at + w]));
}

/// The number token for the numeral at `start..end`, as an expression.
pub open spec fn literal_expr<N>(start: int, end: int) -> Expr<Operand<N>> {
    Expr::Number(Operand::Literal(Span { start: start as usize, end: end as usize }))
}

/// Exponentiation groups to the right: for numerals `a`, `b` and
/// `c`, `a^b^c` denotes `a^(b^c)`.
#[verifier::rlimit(40)]
pub proof fn lemma_exponent_right_associative<N, F>(a: Seq<char>, b: Seq<char>, c: Seq<char>, env: Env<N, F>)
    requires
        a.len() > 0,
        b.len() > 0,
        c.len() > 0,
        a.len() + b.len() + c.len() + 2 <= usize::MAX,
        is_numeral(a),
        is_numeral(b),
        is_numeral(c),
    ensures
        ({
            let pb = a.len() + 1int;
            let pc = a.len() + b.len() + 2int;
            let n = a.len() + b.len() + c.len() + 2int;
            expression_of(a + seq!['^'] + b + seq!['^'] + c, env) == Ok::<Expr<Operand<N>>, ErrorModel>(
                Expr::Binary(
                    Operator::Exponent,
                    Box::new(literal_expr(0, a.len() as int)),
                    Box::new(
                        Expr::Binary(Operator::Exponent, Box::new(literal_expr(pb, pc - 1)), Box::new(literal_expr(pc, n))),
                    ),
                ),
            )
        }),
{
    let text = a + seq!['^'] + b + seq!['^'] + c;
    let na = a.len() as int;
    let pb = na + 1;
    let pc = na + b.len() + 2;
    let n = text.len() as int;
    let empty = Seq::<Token<Operand<N>>>::empty();
    assert(text.subrange(0, na) =~= a);
    assert(text.subrange(pb, pc - 1) =~= b);
    assert(text.subrange(pc, n) =~= c);
    lemma_numeral_at(text, a, 0);
    lemma_numeral_at(text, b, pb);
    lemma_numeral_at(text, c, pc);
    let exp = Token::<Operand<N>>::Op(Operator::Exponent);
    lemma_scan_numeral(text, env, 0, na, empty);
    assert(text[na] == '^');
    let t2 = seq![literal::<N>(0, na), exp];
    assert(scan(text, env, pb as nat) == Ok::<ScanState<N>, ErrorModel>(ScanState { tokens: t2, number: None, symbol: None })) by {
        assert(empty.push(literal::<N>(0, na)).push(exp) =~= t2);
    }
    lemma_scan_numeral(text, env, pb, pc - 1, t2);
    assert(text[pc - 1] == '^');
    let t4 = seq![literal::<N>(0, na), exp, literal::<N>(pb, pc - 1), exp];
    assert(scan(text, env, pc as nat) == Ok::<ScanState<N>, ErrorModel>(ScanState { tokens: t4, number: None, symbol: None })) by {
        assert(t2.push(literal::<N>(pb, pc - 1)).push(exp) =~= t4);
    }
    lemma_scan_numeral(text, env, pc, n, t4);
    let la = literal::<N>(0, na);
    let lb = literal::<N>(pb, pc - 1);
    let lc = literal::<N>(pc, n);
    let t5 = t4.push(lc);
    assert(tokenize(text, env) == Ok::<Seq<Token<Operand<N>>>, ErrorModel>(t5));
    // postfix order: a b c ^ ^
    let e = Seq::<Token<Operand<N>>>::empty();
    let s1 = e.push(la);
    let s2 = s1.push(exp);
    let s3 = s2.push(lb);
    let s4 = s3.push(exp);
    assert(t5 =~= s4.push(lc));
    assert(t4 =~= s4);
    lemma_shunt_push(e, la);
    lemma_shunt_push(s1, exp);
    lemma_shunt_push(s2, lb);
    lemma_shunt_push(s3, exp);
    lemma_shunt_push(s4, lc);
    assert(shunt(s4).stack =~= seq![exp, exp]);
    let r = seq![la, lb, lc, exp, exp];
    assert(rpn_of(t5) =~= r);
    let r1 = e.push(la);
    let r2 = r1.push(lb);
    let r3 = r2.push(lc);
    let r4 = r3.push(exp);
    assert(r =~= r4.push(exp));
    lemma_rpn_stack_push(e, la);
    lemma_rpn_stack_push(r1, lb);
    lemma_rpn_stack_push(r2, lc);
    lemma_rpn_stack_push(r3, exp);
    lemma_rpn_stack_push(r4, exp);
    let ea = literal_expr::<N>(0, na);
    let eb = literal_expr::<N>(pb, pc - 1);
    let ec = literal_expr::<N>(pc, n);
    let st3 = seq![ea, eb, ec];
    assert(rpn_stack(r3) == Some(st3)) by {
        assert(Seq::<Expr<Operand<N>>>::empty().push(ea).push(eb).push(ec) =~= st3);
    }
    let bc = Expr::Binary(Operator::Exponent, Box::new(eb), Box::new(ec));
    let st4 = seq![ea, bc];
    assert(rpn_stack(r4) == Some(st4)) by {
        assert(st3.take(1).push(bc) =~= st4);
    }
    assert(st4.take(0) =~= Seq::<Expr<Operand<N>>>::empty());
}

/// `-a^b` denotes `-(a^b)`: negation binds looser than exponentiation.
proof fn lemma_negated_power<N, F>(a: Seq<char>, b: Seq<char>, env: Env<N, F>)
    requires
        a.len() > 0,
        b.len() > 0,
        a.len() + b.len() + 2 <= usize::MAX,
        is_numeral(a),
        is_numeral(b),
    ensures
        expression_of(seq!['-'] + a + seq!['^'] + b, env) == Ok::<Expr<Operand<N>>, ErrorModel>(
            Expr::Unary(
                Operator::Negative,
                Box::new(
                    Expr::Binary(
                        Operator::Exponent,
                        Box::new(literal_expr(1, a.len() + 1int)),
                        Box::new(literal_expr(a.len() + 2int, a.len() + b.len() + 2int)),
                    ),
                ),
            ),
        ),
{
    let text = seq!['-'] + a + seq!['^'] + b;
    let pa = 1int;
    let pb = a.len() + 2int;
    let n = text.len() as int;
    assert(text.subrange(pa, pb - 1) =~= a);
    assert(text.subrange(pb, n) =~= b);
    lemma_numeral_at(text, a, pa);
    lemma_numeral_at(text, b, pb);
    let neg = Token::<Operand<N>>::Op(Operator::Negative);
    let exp = Token::<Operand<N>>::Op(Operator::Exponent);
    let la = literal::<N>(pa, pb - 1);
    let lb = literal::<N>(pb, n);
    let e = Seq::<Token<Operand<N>>>::empty();
    assert(text[0] == '-');
    assert(scan(text, env, 1) == Ok::<ScanState<N>, ErrorModel>(ScanState { tokens: e.push(neg), number: None, symbol: None })) by {
        assert(scan(text, env, 0) == Ok::<ScanState<N>, ErrorModel>(ScanState { tokens: e, number: None, symbol: None }));
    }
    lemma_scan_numeral(text, env, pa, pb - 1, e.push(neg));
    assert(text[pb - 1] == '^');
    let t3 = e.push(neg).push(la).push(exp);
    assert(scan(text, env, pb as nat) == Ok::<ScanState<N>, ErrorModel>(ScanState { tokens: t3, number: None, symbol: None }));
    lemma_scan_numeral(text, env, pb, n, t3);
    let t4 = t3.push(lb);
    assert(tokenize(text, env) == Ok::<Seq<Token<Operand<N>>>, ErrorModel>(t4));
    // postfix order: a b ^ -
    lemma_shunt_push(e, neg);
    lemma_shunt_push(e.push(neg), la);
    lemma_shunt_push(e.push(neg).push(la), exp);
    lemma_shunt_push(t3, lb);
    assert(shunt(t4).stack =~= seq![neg, exp]);
    let r = seq![la, lb, exp, neg];
    assert(rpn_of(t4) =~= r);
    let r2 = e.push(la).push(lb);
    let r3 = r2.push(exp);
    assert(r =~= r3.push(neg));
    lemma_rpn_stack_push(e, la);
    lemma_rpn_stack_push(e.push(la), lb);
    lemma_rpn_stack_push(r2, exp);
    lemma_rpn_stack_push(r3, neg);
    let ea = literal_expr::<N>(pa, pb - 1);
    let eb = literal_expr::<N>(pb, n);
    let st2 = seq![ea, eb];
    assert(rpn_stack(r2) == Some(st2)) by {
        assert(Seq::<Expr<Operand<N>>>::empty().push(ea).push(eb) =~= st2);
    }
    let ab = Expr::Binary(Operator::Exponent, Box::new(ea), Box::new(eb));
    assert(rpn_stack(r3) == Some(seq![ab])) by {
        assert(st2.take(0).push(ab) =~= seq![ab]);
    }
    assert(seq![ab].drop_last().push(Expr::Unary(Operator::Negative, Box::new(ab))) =~= seq![
        Expr::Unary(Operator::Negative, Box::new(ab)),
    ]);
}

/// `a^-b` denotes `a^(-b)`: a negation after an operator applies to the
/// operand that follows it.
proof fn lemma_power_of_negation<N, F>(a: Seq<char>, b: Seq<char>, env: Env<N, F>)
    requires
        a.len() > 0,
        b.len() > 0,
        a.len() + b.len() + 2 <= usize::MAX,
        is_numeral(a),
        is_numeral(b),
    ensures
        expression_of(a + seq!['^', '-'] + b, env) == Ok::<Expr<Operand<N>>, ErrorModel>(
            Expr::Binary(
                Operator::Exponent,
                Box::new(literal_expr(0, a.len() as int)),
                Box::new(
                    Expr::Unary(Operator::Negative, Box::new(literal_expr(a.len() + 2int, a.len() + b.len() + 2int))),
                ),
            ),
        ),
{
    let text = a + seq!['^', '-'] + b;
    let na = a.len() as int;
    let pb = na + 2;
    let n = text.len() as int;
    assert(text.subrange(0, na) =~= a);
    assert(text.subrange(pb, n) =~= b);
    lemma_numeral_at(text, a, 0);
    lemma_numeral_at(text, b, pb);
    let neg = Token::<Operand<N>>::Op(Operator::Negative);
    let exp = Token::<Operand<N>>::Op(Operator::Exponent);
    let la = literal::<N>(0, na);
    let lb = literal::<N>(pb, n);
    let e = Seq::<Token<Operand<N>>>::empty();
    lemma_scan_numeral(text, env, 0, na, e);
    assert(text[na] == '^');
    assert(text[na + 1] == '-');
    let t2 = e.push(la).push(exp);
    assert(scan(text, env, (na + 1) as nat) == Ok::<ScanState<N>, ErrorModel>(ScanState { tokens: t2, number: None, symbol: None }));
    let t3 = t2.push(neg);
    assert(scan(text, env, pb as nat) == Ok::<ScanState<N>, ErrorModel>(ScanState { tokens: t3, number: None, symbol: None }));
    lemma_scan_numeral(text, env, pb, n, t3);
    let t4 = t3.push(lb);
    assert(tokenize(text, env) == Ok::<Seq<Token<Operand<N>>>, ErrorModel>(t4));
    // postfix order: a b - ^
    lemma_shunt_push(e, la);
    lemma_shunt_push(e.push(la), exp);
    lemma_shunt_push(t2, neg);
    lemma_shunt_push(t3, lb);
    assert(shunt(t4).stack =~= seq![exp, neg]);
    let r = seq![la, lb, neg, exp];
    assert(rpn_of(t4) =~= r);
    let r2 = e.push(la).push(lb);
    let r3 = r2.push(neg);
    assert(r =~= r3.push(exp));
    lemma_rpn_stack_push(e, la);
    lemma_rpn_stack_push(e.push(la), lb);
    lemma_rpn_stack_push(r2, neg);
    lemma_rpn_stack_push(r3, exp);
    let ea = literal_expr::<N>(0, na);
    let eb = literal_expr::<N>(pb, n);
    let st2 = seq![ea, eb];
    assert(rpn_stack(r2) == Some(st2)) by {
        assert(Seq::<Expr<Operand<N>>>::empty().push(ea).push(eb) =~= st2);
    }
    let nb = Expr::Unary(Operator::Negative, Box::new(eb));
    let st3 = seq![ea, nb];
    assert(rpn_stack(r3) == Some(st3)) by {
        assert(st2.drop_last().push(nb) =~= st3);
    }
    assert(st3.take(0) =~= Seq::<Expr<Operand<N>>>::empty());
}

/// Negation binds tighter than multiplication and division and looser than
/// exponentiation: for numerals `a` and `b`, `-a^b` denotes
/// `-(a^b)` and `a^-b` denotes `a^(-b)`.
pub proof fn lemma_negation_precedence<N, F>(a: Seq<char>, b: Seq<char>, env: Env<N, F>)
    requires
        a.len() > 0,
        b.len() > 0,
        a.len() + b.len() + 2 <= usize::MAX,
        is_numeral(a),
        is_numeral(b),
    ensures
        expression_of(seq!['-'] + a + seq!['^'] + b, env) == Ok::<Expr<Operand<N>>, ErrorModel>(
            Expr::Unary(
                Operator::Negative,
                Box::new(
                    Expr::Binary(
                        Operator::Exponent,
                        Box::new(literal_expr(1, a.len() + 1int)),
                        Box::new(literal_expr(a.len() + 2int, a.len() + b.len() + 2int)),
                    ),
                ),
            ),
        ),
        expression_of(a + seq!['^', '-'] + b, env) == Ok::<Expr<Operand<N>>, ErrorModel>(
            Expr::Binary(
                Operator::Exponent,
                Box::new(literal_expr(0, a.len() as int)),
                Box::new(
                    Expr::Unary(Operator::Negative, Box::new(literal_expr(a.len() + 2int, a.len() + b.len() + 2int))),
                ),
            ),
        ),
{
    lemma_negated_power(a, b, env);
    lemma_power_of_negation(a, b, env);
}

/// The tokenizer reads the letters of a symbol name into one pending name.
proof fn lemma_scan_symbol<N, F>(s: Seq<char>, env: Env<N, F>, k: int)
    requires
        0 < k <= s.len(),
        is_symbol_name(s),
    ensures
        scan(s, env, k as nat) == Ok::<ScanState<N>, ErrorModel>(
            ScanState { tokens: Seq::empty(), number: None, symbol: Some(0) },
        ),
    decreases k,
{
    let c = s[k - 1];
    assert(is_symbol_char(c));
    if k > 1 {
        lemma_scan_symbol(s, env, k - 1);
    }
}

/// A symbol name that is neither a constant nor a function of the
/// environment fails as an unknown symbol, with that name.
pub proof fn lemma_unknown_symbol<N, F>(s: Seq<char>, env: Env<N, F>)
    requires
        is_symbol_name(s),
        env.constant_of(s) is None,
        env.function_of(s) is None,
    ensures
        expression_of(s, env) == Err::<Expr<Operand<N>>, ErrorModel>(ErrorModel::UnknownSymbol(s)),
{
    lemma_scan_symbol(s, env, s.len() as int);
    assert(s.subrange(0, s.len() as int) =~= s);
}

/// A character that some token can hold: whitespace, a letter or `_`, a
/// digit, a decimal point, an operator or a parenthesis.
pub open spec fn is_expression_char(c: char) -> bool {
    is_space(c) || is_symbol_char(c) || is_digit(c) || c == '.' || c == '+' || c == '-' || c == '*' || c
        == '/' || c == '^' || c == '(' || c == ')'
}

/// A character that no token can hold fails as an illegal character, where
/// it comes first or after a numeral, whatever follows it.
pub proof fn lemma_illegal_character<N, F>(a: Seq<char>, c: char, rest: Seq<char>, env: Env<N, F>)
    requires
        a.len() + 1 + rest.len() <= usize::MAX,
        a.len() == 0 || is_numeral(a),
        !is_expression_char(c),
    ensures
        expression_of(a + seq![c] + rest, env) == Err::<Expr<Operand<N>>, ErrorModel>(
            ErrorModel::IllegalCharacter(c),
        ),
{
    let text = a + seq![c] + rest;
    let na = a.len() as int;
    assert(text.subrange(0, na) =~= a);
    assert(text[na] == c);
    let st = if na > 0 {
        lemma_numeral_at(text, a, 0);
        lemma_scan_numeral(text, env, 0, na, Seq::empty());
        ScanState {
            tokens: Seq::<Token<Operand<N>>>::empty(),
            number: Some(NumberRun { start: 0, has_digit: true, has_point: has_point_in(text, 0, na) }),
            symbol: None,
        }
    } else {
        ScanState { tokens: Seq::<Token<Operand<N>>>::empty(), number: None, symbol: None }
    };
    assert(scan(text, env, na as nat) == Ok::<ScanState<N>, ErrorModel>(st));
    assert(flush_number(st, na) is Ok);
    assert(step(text, env, st, na) == Err::<ScanState<N>, ErrorModel>(ErrorModel::IllegalCharacter(c)));
    assert(scan(text, env, (na + 1) as nat) == Err::<ScanState<N>, ErrorModel>(ErrorModel::IllegalCharacter(c)));
    lemma_scan_error(text, env, (na + 1) as nat, text.len());
}

/// The tokenizer moves alike under two environments with the same tables.
proof fn lemma_scan_same_tables<N, F, G>(s: Seq<char>, e1: Env<N, F>, e2: Env<N, G>, n: nat)
    requires
        n <= s.len(),
        e1.constant_names() == e2.constant_names(),
        e1.constant_values() == e2.constant_values(),
        e1.function_names() == e2.function_names(),
    ensures
        scan(s, e1, n) == scan(s, e2, n),
    decreases n,
{
    if n > 0 {
        lemma_scan_same_tables(s, e1, e2, (n - 1) as nat);
    }
}

/// Evaluation is deterministic: what a text denotes, or the error it fails
/// with, depends on nothing but the text and the environment's names and
/// constant values, so repeating it gives the same outcome.
pub proof fn lemma_deterministic<N, F, G>(s: Seq<char>, e1: Env<N, F>, e2: Env<N, G>)
    requires
        e1.constant_names() == e2.constant_names(),
        e1.constant_values() == e2.constant_values(),
        e1.function_names() == e2.function_names(),
    ensures
        expression_of(s, e1) == expression_of(s, e2),
{
    lemma_scan_same_tables(s, e1, e2, s.len());
}

/// Two numerals with only a space between them denote their implied
/// multiplication.
pub proof fn lemma_adjacent_numerals<N, F>(a: Seq<char>, b: Seq<char>, env: Env<N, F>)
    requires
        a.len() + 1 + b.len() <= usize::MAX,
        is_numeral(a),
        is_numeral(b),
    ensures
        expression_of(a + seq![' '] + b, env) == Ok::<Expr<Operand<N>>, ErrorModel>(
            Expr::Binary(
                Operator::ImpliedMultiply,
                Box::new(literal_expr(0, a.len() as int)),
                Box::new(literal_expr(a.len() + 1int, a.len() + 1int + b.len())),
            ),
        ),
{
    let text = a + seq![' '] + b;
    let na = a.len() as int;
    let n = text.len() as int;
    let empty = Seq::<Token<Operand<N>>>::empty();
    assert(text.subrange(0, na) =~= a);
    assert(text.subrange(na + 1, n) =~= b);
    lemma_numeral_at(text, a, 0);
    lemma_numeral_at(text, b, na + 1);
    lemma_scan_numeral(text, env, 0, na, empty);
    assert(text[na] == ' ');
    let one = seq![literal::<N>(0, na)];
    assert(scan(text, env, (na + 1) as nat) == Ok::<ScanState<N>, ErrorModel>(
        ScanState { tokens: one, number: None, symbol: None },
    )) by {
        assert(empty.push(literal::<N>(0, na)) =~= one);
    }
    lemma_scan_numeral(text, env, na + 1, n, one);
    let im = Token::<Operand<N>>::Op(Operator::ImpliedMultiply);
    let three = seq![literal::<N>(0, na), im, literal::<N>(na + 1, n)];
    assert(tokenize(text, env) == Ok::<Seq<Token<Operand<N>>>, ErrorModel>(three)) by {
        assert(one.push(im).push(literal::<N>(na + 1, n)) =~= three);
    }
    lemma_binary_tokens(
        Operand::<N>::Literal(Span { start: 0, end: na as usize }),
        Operator::ImpliedMultiply,
        Operand::<N>::Literal(Span { start: (na + 1) as usize, end: n as usize }),
    );
}

/// A binary operator with no left operand leaves the expression malformed:
/// `+ a` fails with a parse error for every numeral `a`.
pub proof fn lemma_missing_operand<N, F>(a: Seq<char>, env: Env<N, F>)
    requires
        a.len() + 2 <= usize::MAX,
        is_numeral(a),
    ensures
        expression_of(seq!['+', ' '] + a, env) == Err::<Expr<Operand<N>>, ErrorModel>(ErrorModel::ParseError),
{
    let text = seq!['+', ' '] + a;
    let n = text.len() as int;
    let e = Seq::<Token<Operand<N>>>::empty();
    assert(text.subrange(2, n) =~= a);
    lemma_numeral_at(text, a, 2);
    assert(text[0] == '+' && text[1] == ' ');
    let add = Token::<Operand<N>>::Op(Operator::Add);
    assert(scan(text, env, 1) == Ok::<ScanState<N>, ErrorModel>(ScanState { tokens: e.push(add), number: None, symbol: None })) by {
        assert(scan(text, env, 0) == Ok::<ScanState<N>, ErrorModel>(ScanState { tokens: e, number: None, symbol: None }));
    }
    assert(scan(text, env, 2) == Ok::<ScanState<N>, ErrorModel>(ScanState { tokens: e.push(add), number: None, symbol: None }));
    lemma_scan_numeral(text, env, 2, n, e.push(add));
    let la = literal::<N>(2, n);
    let t2 = e.push(add).push(la);
    assert(tokenize(text, env) == Ok::<Seq<Token<Operand<N>>>, ErrorModel>(t2));
    lemma_shunt_push(e, add);
    lemma_shunt_push(e.push(add), la);
    let r = seq![la, add];
    assert(rpn_of(t2) =~= r);
    assert(r =~= e.push(la).push(add));
    lemma_rpn_stack_push(e, la);
    lemma_rpn_stack_push(e.push(la), add);
}

} // verus!
