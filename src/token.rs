use vstd::prelude::*;

verus! {

/// One lexical unit of an expression. `N` is what a number token carries.
#[derive(Clone, Copy, Debug, PartialEq)]
pub enum Token<N> {
    Number(N),
    Op(Operator),
    LParen,
    RParen,
}

/// How an operator groups with operators of the same precedence.
#[derive(Clone, Copy, PartialEq, Eq, Structural, Debug)]
pub enum Associativity {
    Left,
    Right,
    /// Takes a single operand, written after the operator.
    Unary,
}

#[derive(Clone, Copy, Debug, PartialEq, Eq, Structural)]
pub enum Operator {
    Add,
    Subtract,
    Multiply,
    /// Multiplication inferred from adjacency, as in `3(4)` or `2pi`.
    ImpliedMultiply,
    Divide,
    Exponent,
    Negative,
    /// A named unary function, by its index in the environment's function table.
    Function(usize),
}

impl Operator {
    pub open spec fn spec_precedence(self) -> u8 {
        match self {
            Operator::Add | Operator::Subtract => 1,
            Operator::Multiply | Operator::Divide => 2,
            Operator::ImpliedMultiply => 3,
            Operator::Negative | Operator::Function(_) => 4,
            Operator::Exponent => 5,
        }
    }

    pub open spec fn spec_associativity(self) -> Associativity {
        match self {
            Operator::Add
            | Operator::Subtract
            | Operator::Multiply
            | Operator::ImpliedMultiply
            | Operator::Divide => Associativity::Left,
            Operator::Exponent => Associativity::Right,
            Operator::Negative | Operator::Function(_) => Associativity::Unary,
        }
    }

    /// Binding strength: a higher value binds tighter.
    pub fn precedence(&self) -> (r: u8)
        ensures
            r == self.spec_precedence(),
    {
        match self {
            Operator::Add => 1,
            Operator::Subtract => 1,
            Operator::Multiply => 2,
            Operator::Divide => 2,
            Operator::ImpliedMultiply => 3,
            Operator::Negative => 4,
            Operator::Function(_) => 4,
            Operator::Exponent => 5,
        }
    }

    pub fn associativity(&self) -> (r: Associativity)
        ensures
            r == self.spec_associativity(),
    {
        match self {
            Operator::Add
            | Operator::Subtract
            | Operator::Multiply
            | Operator::ImpliedMultiply
            | Operator::Divide => Associativity::Left,
            Operator::Exponent => Associativity::Right,
            Operator::Negative | Operator::Function(_) => Associativity::Unary,
        }
    }
}

} // verus!
