use vstd::prelude::*;

use crate::parse::tokenize;
use crate::rpn::{expr_of, rpn_of};

pub mod env;
pub mod laws;
pub mod parse;
pub mod rpn;
pub mod token;

pub use env::Env;
pub use parse::{parse, Operand, ParseNumber, Span};
pub use rpn::{eval_rpn, to_rpn, Expr};
pub use token::{Associativity, Operator, Token};

verus! {

/// Why an expression could not be evaluated.
#[derive(Debug, Clone, PartialEq)]
pub enum CalculatorError {
    /// A character that no token begins with.
    IllegalCharacter(char),
    /// The expression does not reduce to exactly one value.
    ParseError,
    /// An operator was given a number of operands it does not take.
    IncorrectOperands,
    /// A name that is neither a constant nor a function.
    UnknownSymbol(String),
}

/// A `CalculatorError` with the symbol's name as a character sequence.
pub enum ErrorModel {
    IllegalCharacter(char),
    ParseError,
    IncorrectOperands,
    UnknownSymbol(Seq<char>),
}

impl View for CalculatorError {
    type V = ErrorModel;

    open spec fn view(&self) -> ErrorModel {
        match self {
            CalculatorError::IllegalCharacter(c) => ErrorModel::IllegalCharacter(*c),
            CalculatorError::ParseError => ErrorModel::ParseError,
            CalculatorError::IncorrectOperands => ErrorModel::IncorrectOperands,
            CalculatorError::UnknownSymbol(name) => ErrorModel::UnknownSymbol(name@),
        }
    }
}

/// The outcome of a computation that yields a `Vec`, with the error as its model.
pub open spec fn outcome<T>(r: Result<Vec<T>, CalculatorError>) -> Result<Seq<T>, ErrorModel> {
    match r {
        Ok(v) => Ok(v@),
        Err(e) => Err(e@),
    }
}

/// The expression tree that a text denotes, or the error that stops the way
/// there: its tokens, put in postfix order, then evaluated on a stack.
pub open spec fn expression_of<N, F>(chars: Seq<char>, env: Env<N, F>) -> Result<Expr<Operand<N>>, ErrorModel> {
    match tokenize(chars, env) {
        Ok(tokens) => match expr_of(rpn_of(tokens)) {
            Some(e) => Ok(e),
            None => Err(ErrorModel::ParseError),
        },
        Err(e) => Err(e),
    }
}

/// Reads an expression into a tree: tokenizes it, puts the tokens in postfix
/// order and evaluates that on a stack. The numbers in the tree are numerals
/// of `s`, by their place in it, and constants' values.
pub fn to_expr<N: Copy, F>(s: &str, env: &Env<N, F>) -> (r: Result<Expr<Operand<N>>, CalculatorError>)
    requires
        env.wf(),
    ensures
        match r {
            Ok(e) => expression_of(s@, *env) == Ok::<Expr<Operand<N>>, ErrorModel>(e),
            Err(e) => expression_of(s@, *env) == Err::<Expr<Operand<N>>, ErrorModel>(e@),
        },
{
    match parse(s, env) {
        Ok(tokens) => match eval_rpn(to_rpn(tokens)) {
            Ok(e) => Ok(e),
            Err(_) => Err(CalculatorError::ParseError),
        },
        Err(e) => Err(e),
    }
}

} // verus!
