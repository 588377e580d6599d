use vstd::prelude::*;

use crate::token::{Associativity, Operator, Token};
use crate::CalculatorError;

verus! {

/// The shunting-yard algorithm between two tokens: the postfix output so far
/// and the stack of pending operators and left parentheses.
pub struct Shunt<N> {
    pub output: Seq<Token<N>>,
    pub stack: Seq<Token<N>>,
}

/// Whether the binary operator `op`, arriving, moves `top` from the stack to
/// the output: `top` is an operator that binds tighter, or as tight where `op`
/// groups to the left.
pub open spec fn pops<N>(op: Operator, top: Token<N>) -> bool {
    match top {
        Token::Op(t) => (op.spec_associativity() == Associativity::Left && op.spec_precedence()
            <= t.spec_precedence()) || (op.spec_associativity() == Associativity::Right
            && op.spec_precedence() < t.spec_precedence()),
        _ => false,
    }
}

/// Moves operators from the stack to the output while `op` pops them.
pub open spec fn pop_for<N>(op: Operator, sh: Shunt<N>) -> Shunt<N>
    decreases sh.stack.len(),
{
    if sh.stack.len() > 0 && pops(op, sh.stack.last()) {
        pop_for(op, Shunt { output: sh.output.push(sh.stack.last()), stack: sh.stack.drop_last() })
    } else {
        sh
    }
}

/// Moves operators from the stack to the output up to the nearest left
/// parenthesis, which is dropped; the whole stack where there is none.
pub open spec fn close_paren<N>(sh: Shunt<N>) -> Shunt<N>
    decreases sh.stack.len(),
{
    if sh.stack.len() == 0 {
        sh
    } else if sh.stack.last() is LParen {
        Shunt { output: sh.output, stack: sh.stack.drop_last() }
    } else {
        close_paren(Shunt { output: sh.output.push(sh.stack.last()), stack: sh.stack.drop_last() })
    }
}

/// The algorithm's move on one token.
pub open spec fn shunt_step<N>(sh: Shunt<N>, t: Token<N>) -> Shunt<N> {
    match t {
        Token::Number(_) => Shunt { output: sh.output.push(t), stack: sh.stack },
        Token::Op(op) => if op.spec_associativity() == Associativity::Unary {
            Shunt { output: sh.output, stack: sh.stack.push(t) }
        } else {
            let s1 = pop_for(op, sh);
            Shunt { output: s1.output, stack: s1.stack.push(t) }
        },
        Token::LParen => Shunt { output: sh.output, stack: sh.stack.push(t) },
        Token::RParen => close_paren(sh),
    }
}

/// The algorithm's state after all of `tokens`.
pub open spec fn shunt<N>(tokens: Seq<Token<N>>) -> Shunt<N>
    decreases tokens.len(),
{
    if tokens.len() == 0 {
        Shunt { output: Seq::empty(), stack: Seq::empty() }
    } else {
        shunt_step(shunt(tokens.drop_last()), tokens.last())
    }
}

/// The postfix form of an infix token sequence: the output, then what is left
/// on the stack, from the top down.
pub open spec fn rpn_of<N>(tokens: Seq<Token<N>>) -> Seq<Token<N>> {
    shunt(tokens).output + shunt(tokens).stack.reverse()
}

/// Whether `op` pops the top of `stack`.
fn pops_top<N>(op: Operator, stack: &Vec<Token<N>>) -> (r: bool)
    ensures
        r == (stack@.len() > 0 && pops(op, stack@.last())),
{
    let n = stack.len();
    if n == 0 {
        return false;
    }
    match &stack[n - 1] {
        Token::Op(top) => {
            let a = op.associativity();
            (a == Associativity::Left && op.precedence() <= top.precedence()) || (a
                == Associativity::Right && op.precedence() < top.precedence())
        },
        _ => false,
    }
}

/// Converts an infix token sequence to postfix order (shunting-yard).
/// Unary operators wait on the stack until an operator that they bind
/// tighter than arrives, or the input ends. Unmatched parentheses are
/// passed over: a `)` with no `(` ends at the bottom of the stack, and a `(`
/// with no `)` is left in the output.
pub fn to_rpn<N>(exp: Vec<Token<N>>) -> (r: Vec<Token<N>>)
    ensures
        r@ == rpn_of(exp@),
{
    let ghost tokens = exp@;
    let mut stack: Vec<Token<N>> = Vec::new();
    let mut output: Vec<Token<N>> = Vec::new();
    for token in it: exp.into_iter()
        invariant
            it.seq() == tokens,
            shunt(tokens.take(it.index() as int)) == (Shunt { output: output@, stack: stack@ }),
    {
        let ghost k = it.index() as int;
        let ghost before = Shunt { output: output@, stack: stack@ };
        assert(tokens.take(k + 1).drop_last() == tokens.take(k));
        match &token {
            Token::Op(op) => {
                let op = *op;
                if op.associativity() != Associativity::Unary {
                    while pops_top(op, &stack)
                        invariant
                            pop_for(op, Shunt { output: output@, stack: stack@ }) == pop_for(op, before),
                        decreases stack@.len(),
                    {
                        let t = stack.pop().unwrap();
                        output.push(t);
                    }
                }
                stack.push(token);
            },
            Token::LParen => stack.push(token),
            Token::RParen => {
                let mut done = false;
                while !done && stack.len() > 0
                    invariant
                        !done ==> close_paren(Shunt { output: output@, stack: stack@ }) == close_paren(before),
                        done ==> (Shunt { output: output@, stack: stack@ }) == close_paren(before),
                    decreases stack@.len(),
                {
                    let t = stack.pop().unwrap();
                    if let Token::LParen = &t {
                        done = true;
                    } else {
                        output.push(t);
                    }
                }
            },
            Token::Number(_) => output.push(token),
        }
    }
    assert(tokens.take(tokens.len() as int) == tokens);
    let ghost done_shunting = Shunt { output: output@, stack: stack@ };
    while stack.len() > 0
        invariant
            output@ + stack@.reverse() == done_shunting.output + done_shunting.stack.reverse(),
        decreases stack@.len(),
    {
        let ghost before = stack@;
        let t = stack.pop().unwrap();
        output.push(t);
        assert(before.reverse() =~= seq![t] + stack@.reverse());
        assert(output@ + stack@.reverse() =~= done_shunting.output + done_shunting.stack.reverse());
    }
    assert(stack@.reverse() =~= Seq::<Token<N>>::empty());
    assert(output@ =~= output@ + stack@.reverse());
    output
}

/// An expression as a tree: what a postfix sequence denotes.
#[derive(Debug, PartialEq)]
pub enum Expr<N> {
    Number(N),
    /// A unary operator applied to its operand.
    Unary(Operator, Box<Expr<N>>),
    /// A binary operator applied to its left and right operands.
    Binary(Operator, Box<Expr<N>>, Box<Expr<N>>),
}

/// The evaluation stack after one more postfix token, or `None` where an
/// operator finds fewer operands than it takes. Parentheses are passed over.
pub open spec fn rpn_step<N>(stack: Seq<Expr<N>>, t: Token<N>) -> Option<Seq<Expr<N>>> {
    match t {
        Token::Number(n) => Some(stack.push(Expr::Number(n))),
        Token::Op(op) => if op.spec_associativity() == Associativity::Unary {
            if stack.len() >= 1 {
                Some(stack.drop_last().push(Expr::Unary(op, Box::new(stack.last()))))
            } else {
                None
            }
        } else {
            if stack.len() >= 2 {
                let left = stack[stack.len() - 2];
                let right = stack.last();
                Some(stack.take(stack.len() - 2).push(Expr::Binary(op, Box::new(left), Box::new(right))))
            } else {
                None
            }
        },
        Token::LParen | Token::RParen => Some(stack),
    }
}

/// The evaluation stack after all of `tokens`, or `None` where it ran short.
pub open spec fn rpn_stack<N>(tokens: Seq<Token<N>>) -> Option<Seq<Expr<N>>>
    decreases tokens.len(),
{
    if tokens.len() == 0 {
        Some(Seq::empty())
    } else {
        match rpn_stack(tokens.drop_last()) {
            Some(stack) => rpn_step(stack, tokens.last()),
            None => None,
        }
    }
}

/// The expression a postfix sequence denotes: the one value left on the stack.
pub open spec fn expr_of<N>(tokens: Seq<Token<N>>) -> Option<Expr<N>> {
    match rpn_stack(tokens) {
        Some(stack) => if stack.len() == 1 {
            Some(stack[0])
        } else {
            None
        },
        None => None,
    }
}

/// Once the stack has run short, it stays so.
proof fn lemma_rpn_short<N>(tokens: Seq<Token<N>>, k: int)
    requires
        0 <= k <= tokens.len(),
        rpn_stack(tokens.take(k)) is None,
    ensures
        rpn_stack(tokens) is None,
    decreases tokens.len() - k,
{
    if k < tokens.len() {
        assert(tokens.take(k + 1).drop_last() == tokens.take(k));
        lemma_rpn_short(tokens, k + 1);
    } else {
        assert(tokens.take(k) == tokens);
    }
}

/// Evaluates a postfix sequence on a stack, building the expression tree:
/// a number pushes itself; an operator pops its operands (for a binary one,
/// the right operand first) and pushes itself applied to them. A
/// `ParseError` where an operator finds too few operands, or where the stack
/// does not end with exactly one expression.
pub fn eval_rpn<N>(rpn: Vec<Token<N>>) -> (r: Result<Expr<N>, CalculatorError>)
    ensures
        r == match expr_of(rpn@) {
            Some(e) => Ok(e),
            None => Err(CalculatorError::ParseError),
        },
{
    let ghost tokens = rpn@;
    let mut stack: Vec<Expr<N>> = Vec::new();
    for token in it: rpn.into_iter()
        invariant
            it.seq() == tokens,
            rpn_stack(tokens.take(it.index() as int)) == Some(stack@),
    {
        let ghost k = it.index() as int;
        assert(tokens.take(k + 1).drop_last() == tokens.take(k));
        match token {
            Token::Number(n) => stack.push(Expr::Number(n)),
            Token::Op(o) => {
                if o.associativity() == Associativity::Unary {
                    match stack.pop() {
                        Some(x) => stack.push(Expr::Unary(o, Box::new(x))),
                        None => {
                            proof {
                                lemma_rpn_short(tokens, k + 1);
                            }
                            return Err(CalculatorError::ParseError);
                        },
                    }
                } else {
                    let ghost before = stack@;
                    if stack.len() < 2 {
                        proof {
                            lemma_rpn_short(tokens, k + 1);
                        }
                        return Err(CalculatorError::ParseError);
                    }
                    let right = stack.pop().unwrap();
                    let left = stack.pop().unwrap();
                    stack.push(Expr::Binary(o, Box::new(left), Box::new(right)));
                    assert(stack@ =~= before.take(before.len() - 2).push(
                        Expr::Binary(o, Box::new(before[before.len() - 2]), Box::new(before.last())),
                    ));
                }
            },
            _ => {},
        }
    }
    assert(tokens.take(tokens.len() as int) == tokens);
    if stack.len() == 1 {
        Ok(stack.pop().unwrap())
    } else {
        Err(CalculatorError::ParseError)
    }
}

} // verus!
