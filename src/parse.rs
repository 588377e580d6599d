use vstd::prelude::*;
use vstd::string::StrSliceExecFns;

use crate::env::{is_symbol_char, Env};
use crate::token::{Operator, Token};
use crate::{outcome, CalculatorError, ErrorModel};

verus! {

/// The characters `start..end` of an expression's text.
#[derive(Clone, Copy, Debug, PartialEq, Eq, Structural)]
pub struct Span {
    pub start: usize,
    pub end: usize,
}

/// What a number token stands for: a numeral written in the text, or the value
/// of a named constant.
#[derive(Clone, Copy, Debug, PartialEq)]
pub enum Operand<N> {
    Literal(Span),
    Constant(N),
}

/// A number being read by the tokenizer: where it starts, and whether a digit
/// and a decimal point have been seen.
#[derive(Clone, Copy, Debug, PartialEq, Eq, Structural)]
pub struct NumberRun {
    pub start: usize,
    pub has_digit: bool,
    pub has_point: bool,
}

/// The tokenizer between two characters: the tokens emitted so far, and the
/// number or symbol name being read, if any. A symbol is the text from its
/// start up to the current position.
pub struct ScanState<N> {
    pub tokens: Seq<Token<Operand<N>>>,
    pub number: Option<NumberRun>,
    pub symbol: Option<usize>,
}

pub open spec fn is_digit(c: char) -> bool {
    '0' <= c && c <= '9'
}

/// ASCII whitespace: space, tab, line feed, form feed and carriage return.
pub open spec fn is_space(c: char) -> bool {
    c == ' ' || c == '\t' || c == '\n' || c == '\x0C' || c == '\r'
}

/// Whether the last token ends an operand, so that an operand written next
/// to it is multiplied with it.
pub open spec fn ends_operand<T>(tokens: Seq<Token<T>>) -> bool {
    tokens.len() > 0 && (tokens.last() is Number || tokens.last() is RParen)
}

/// Appends `t`, which begins an operand, with an implied multiplication
/// before it where the last token ends an operand.
pub open spec fn push_operand<T>(tokens: Seq<Token<T>>, t: Token<T>) -> Seq<Token<T>> {
    if ends_operand(tokens) {
        tokens.push(Token::Op(Operator::ImpliedMultiply)).push(t)
    } else {
        tokens.push(t)
    }
}

/// Ends the number being read at `pos`, emitting it.
pub open spec fn flush_number<N>(st: ScanState<N>, pos: int) -> Result<ScanState<N>, ErrorModel> {
    match st.number {
        None => Ok(st),
        Some(run) => if !run.has_digit {
            Err(ErrorModel::IllegalCharacter('.'))
        } else {
            Ok(ScanState {
                tokens: push_operand(
                    st.tokens,
                    Token::Number(Operand::Literal(Span { start: run.start, end: pos as usize })),
                ),
                number: None,
                symbol: st.symbol,
            })
        },
    }
}

/// Ends the symbol name being read at `pos`, emitting the constant's value or
/// the function it names.
pub open spec fn flush_symbol<N, F>(chars: Seq<char>, env: Env<N, F>, st: ScanState<N>, pos: int) -> Result<
    ScanState<N>,
    ErrorModel,
> {
    match st.symbol {
        None => Ok(st),
        Some(start) => {
            let name = chars.subrange(start as int, pos);
            match env.constant_of(name) {
                Some(v) => Ok(
                    ScanState {
                        tokens: push_operand(st.tokens, Token::Number(Operand::Constant(v))),
                        number: st.number,
                        symbol: None,
                    },
                ),
                None => match env.function_of(name) {
                    Some(i) => Ok(
                        ScanState {
                            tokens: push_operand(st.tokens, Token::Op(Operator::Function(i as usize))),
                            number: st.number,
                            symbol: None,
                        },
                    ),
                    None => Err(ErrorModel::UnknownSymbol(name)),
                },
            }
        },
    }
}

/// The token that an operator or parenthesis character stands for, appended.
pub open spec fn push_symbol_char<N>(st: ScanState<N>, c: char) -> Result<ScanState<N>, ErrorModel> {
    let t = st.tokens;
    let tokens = if c == '*' {
        Some(t.push(Token::Op(Operator::Multiply)))
    } else if c == '+' {
        Some(t.push(Token::Op(Operator::Add)))
    } else if c == '-' {
        if ends_operand(t) {
            Some(t.push(Token::Op(Operator::Subtract)))
        } else {
            Some(t.push(Token::Op(Operator::Negative)))
        }
    } else if c == '/' {
        Some(t.push(Token::Op(Operator::Divide)))
    } else if c == '^' {
        Some(t.push(Token::Op(Operator::Exponent)))
    } else if c == '(' {
        Some(push_operand(t, Token::LParen))
    } else if c == ')' {
        Some(t.push(Token::RParen))
    } else {
        None
    };
    match tokens {
        Some(tokens) => Ok(ScanState { tokens, number: st.number, symbol: st.symbol }),
        None => Err(ErrorModel::IllegalCharacter(c)),
    }
}

/// The tokenizer's move on the character at `pos`.
pub open spec fn step<N, F>(chars: Seq<char>, env: Env<N, F>, st: ScanState<N>, pos: int) -> Result<
    ScanState<N>,
    ErrorModel,
> {
    let c = chars[pos];
    if is_space(c) {
        match flush_number(st, pos) {
            Ok(s1) => flush_symbol(chars, env, s1, pos),
            Err(e) => Err(e),
        }
    } else if is_symbol_char(c) {
        match flush_number(st, pos) {
            Ok(s1) => Ok(
                ScanState {
                    tokens: s1.tokens,
                    number: None,
                    symbol: if s1.symbol is Some { s1.symbol } else { Some(pos as usize) },
                },
            ),
            Err(e) => Err(e),
        }
    } else if is_digit(c) || c == '.' {
        match flush_symbol(chars, env, st, pos) {
            Ok(s1) => {
                let run = match s1.number {
                    Some(run) => run,
                    None => NumberRun { start: pos as usize, has_digit: false, has_point: false },
                };
                if is_digit(c) {
                    Ok(
                        ScanState {
                            tokens: s1.tokens,
                            number: Some(NumberRun { has_digit: true, ..run }),
                            symbol: None,
                        },
                    )
                } else if run.has_point {
                    Err(ErrorModel::IllegalCharacter('.'))
                } else {
                    Ok(
                        ScanState {
                            tokens: s1.tokens,
                            number: Some(NumberRun { has_point: true, ..run }),
                            symbol: None,
                        },
                    )
                }
            },
            Err(e) => Err(e),
        }
    } else {
        match flush_symbol(chars, env, st, pos) {
            Ok(s1) => match flush_number(s1, pos) {
                Ok(s2) => push_symbol_char(s2, c),
                Err(e) => Err(e),
            },
            Err(e) => Err(e),
        }
    }
}

/// The tokenizer's state after the first `n` characters, or the error it stopped on.
pub open spec fn scan<N, F>(chars: Seq<char>, env: Env<N, F>, n: nat) -> Result<ScanState<N>, ErrorModel>
    decreases n,
{
    if n == 0 {
        Ok(ScanState { tokens: Seq::empty(), number: None, symbol: None })
    } else {
        match scan(chars, env, (n - 1) as nat) {
            Ok(st) => step(chars, env, st, n - 1),
            Err(e) => Err(e),
        }
    }
}

/// The tokens of an expression, or the error that stops its tokenization.
pub open spec fn tokenize<N, F>(chars: Seq<char>, env: Env<N, F>) -> Result<Seq<Token<Operand<N>>>, ErrorModel> {
    match scan(chars, env, chars.len()) {
        Ok(st) => match flush_number(st, chars.len() as int) {
            Ok(s1) => match flush_symbol(chars, env, s1, chars.len() as int) {
                Ok(s2) => Ok(s2.tokens),
                Err(e) => Err(e),
            },
            Err(e) => Err(e),
        },
        Err(e) => Err(e),
    }
}

/// A numeral's digits, in order, as numbers.
pub open spec fn digits_of(cs: Seq<char>) -> Seq<u8>
    decreases cs.len(),
{
    if cs.len() == 0 {
        Seq::empty()
    } else if is_digit(cs.last()) {
        digits_of(cs.drop_last()).push((cs.last() as u32 - '0' as u32) as u8)
    } else {
        digits_of(cs.drop_last())
    }
}

/// The number of digits before a numeral's first decimal point, if it has one.
pub open spec fn point_of(cs: Seq<char>) -> Option<usize>
    decreases cs.len(),
{
    if cs.len() == 0 {
        None
    } else {
        match point_of(cs.drop_last()) {
            Some(p) => Some(p),
            None => if cs.last() == '.' {
                Some(digits_of(cs.drop_last()).len() as usize)
            } else {
                None
            },
        }
    }
}

/// The value of a sequence of decimal digits, most significant first.
pub open spec fn digits_value(digits: Seq<u8>) -> nat
    decreases digits.len(),
{
    if digits.len() == 0 {
        0
    } else {
        10 * digits_value(digits.drop_last()) + digits.last() as nat
    }
}

/// A numeral as its digits and the place of its decimal point among them.
/// Its value is `digits_value(digits)` divided by ten for each digit after
/// the point: digit `i` weighs `10^(p - 1 - i)` where `p` is the point's
/// place, and `p` is the number of digits where there is no point.
#[derive(Debug, Clone, PartialEq)]
pub struct ParseNumber {
    pub digits: Vec<u8>,
    /// The number of digits before the decimal point, where there is one.
    pub decimal_point: Option<usize>,
}

impl ParseNumber {
    /// Reads a numeral: its digits in order, and the place of its first
    /// decimal point. Other characters are passed over.
    pub fn from_chars(numeral: &[char]) -> (r: ParseNumber)
        ensures
            r.digits@ == digits_of(numeral@),
            r.decimal_point == point_of(numeral@),
    {
        let mut digits: Vec<u8> = Vec::new();
        let mut decimal_point: Option<usize> = None;
        let mut i: usize = 0;
        while i < numeral.len()
            invariant
                i <= numeral@.len(),
                digits@ == digits_of(numeral@.take(i as int)),
                decimal_point == point_of(numeral@.take(i as int)),
                digits@.len() <= i,
            decreases numeral@.len() - i,
        {
            let c = numeral[i];
            assert(numeral@.take(i + 1).drop_last() == numeral@.take(i as int));
            if '0' <= c && c <= '9' {
                digits.push(((c as u32) - ('0' as u32)) as u8);
            } else if c == '.' && decimal_point.is_none() {
                decimal_point = Some(digits.len());
            }
            i = i + 1;
        }
        assert(numeral@.take(i as int) == numeral@);
        ParseNumber { digits, decimal_point }
    }
}

/// Whether a step of the tokenizer that returned `r` and left `after` behind
/// did what `expected` says.
pub open spec fn stepped<N>(r: Result<(), CalculatorError>, expected: Result<ScanState<N>, ErrorModel>, after: ScanState<N>) -> bool {
    match r {
        Ok(_) => expected == Ok::<ScanState<N>, ErrorModel>(after),
        Err(e) => expected == Err::<ScanState<N>, ErrorModel>(e@),
    }
}

/// Once the tokenizer has stopped on an error, reading on does not change it.
pub(crate) proof fn lemma_scan_error<N, F>(chars: Seq<char>, env: Env<N, F>, k: nat, n: nat)
    requires
        k <= n,
        scan(chars, env, k) is Err,
    ensures
        scan(chars, env, n) == scan(chars, env, k),
    decreases n - k,
{
    if k < n {
        lemma_scan_error(chars, env, k, (n - 1) as nat);
    }
}

/// The characters of `s`, in order.
fn chars_of(s: &str) -> (r: Vec<char>)
    ensures
        r@ == s@,
{
    let mut r: Vec<char> = Vec::new();
    for c in it: s.chars()
        invariant
            r@ == it.seq().take(it.index() as int),
    {
        r.push(c);
    }
    r
}

/// The tokenizer's state as it reads through a text.
struct Scanner<N> {
    tokens: Vec<Token<Operand<N>>>,
    number: Option<NumberRun>,
    symbol: Option<usize>,
}

impl<N> Scanner<N> {
    spec fn state(&self) -> ScanState<N> {
        ScanState { tokens: self.tokens@, number: self.number, symbol: self.symbol }
    }

    fn push_operand(&mut self, t: Token<Operand<N>>)
        ensures
            final(self).tokens@ == push_operand(old(self).tokens@, t),
            final(self).number == old(self).number,
            final(self).symbol == old(self).symbol,
    {
        let n = self.tokens.len();
        if n > 0 {
            let implied = match &self.tokens[n - 1] {
                Token::Number(_) | Token::RParen => true,
                _ => false,
            };
            if implied {
                self.tokens.push(Token::Op(Operator::ImpliedMultiply));
            }
        }
        self.tokens.push(t);
    }

    fn flush_number(&mut self, pos: usize) -> (r: Result<(), CalculatorError>)
        ensures
            stepped(r, flush_number(old(self).state(), pos as int), final(self).state()),
    {
        match self.number {
            None => Ok(()),
            Some(run) => {
                if !run.has_digit {
                    return Err(CalculatorError::IllegalCharacter('.'));
                }
                self.number = None;
                self.push_operand(Token::Number(Operand::Literal(Span { start: run.start, end: pos })));
                Ok(())
            },
        }
    }
}

impl<N> Scanner<N> {
    /// Reads an operator or a parenthesis.
    fn push_symbol_char(&mut self, c: char) -> (r: Result<(), CalculatorError>)
        ensures
            stepped(r, push_symbol_char(old(self).state(), c), final(self).state()),
    {
        let t = match c {
            '*' => Token::Op(Operator::Multiply),
            '+' => Token::Op(Operator::Add),
            '-' => {
                let n = self.tokens.len();
                let after_operand = n > 0 && match &self.tokens[n - 1] {
                    Token::Number(_) | Token::RParen => true,
                    _ => false,
                };
                if after_operand {
                    Token::Op(Operator::Subtract)
                } else {
                    Token::Op(Operator::Negative)
                }
            },
            '/' => Token::Op(Operator::Divide),
            '^' => Token::Op(Operator::Exponent),
            '(' => {
                self.push_operand(Token::LParen);
                return Ok(());
            },
            ')' => Token::RParen,
            _ => return Err(CalculatorError::IllegalCharacter(c)),
        };
        self.tokens.push(t);
        Ok(())
    }
}

impl<N: Copy> Scanner<N> {
    fn flush_symbol<F>(&mut self, text: &str, pos: usize, env: &Env<N, F>) -> (r: Result<(), CalculatorError>)
        requires
            env.wf(),
            pos <= text@.len(),
            old(self).symbol matches Some(start) ==> start <= pos,
        ensures
            stepped(r, flush_symbol(text@, *env, old(self).state(), pos as int), final(self).state()),
    {
        match self.symbol {
            None => Ok(()),
            Some(start) => {
                let name = text.substring_char(start, pos).to_owned();
                self.symbol = None;
                match env.lookup_constant(&name) {
                    Some(v) => {
                        self.push_operand(Token::Number(Operand::Constant(v)));
                        Ok(())
                    },
                    None => match env.lookup_function(&name) {
                        Some(i) => {
                            self.push_operand(Token::Op(Operator::Function(i)));
                            Ok(())
                        },
                        None => Err(CalculatorError::UnknownSymbol(name)),
                    },
                }
            },
        }
    }
}

/// Splits an expression into tokens. Numerals become number tokens that
/// point back into `s`; a symbol name becomes the value of the constant or the
/// function that `env` gives it. A number or a name ends at any character that
/// cannot continue it. Where an operand follows a number, a constant or a `)`,
/// an implied multiplication stands between them, and a `-` after one is a
/// subtraction, elsewhere a negation. A numeral with two decimal points, or
/// with none but no digit, is an `IllegalCharacter('.')`.
pub fn parse<N: Copy, F>(s: &str, env: &Env<N, F>) -> (r: Result<Vec<Token<Operand<N>>>, CalculatorError>)
    requires
        env.wf(),
    ensures
        outcome(r) == tokenize(s@, *env),
{
    let chars = chars_of(s);
    let mut sc = Scanner { tokens: Vec::new(), number: None, symbol: None };
    let mut i: usize = 0;
    while i < chars.len()
        invariant
            env.wf(),
            chars@ == s@,
            i <= chars@.len(),
            scan(s@, *env, i as nat) == Ok::<ScanState<N>, ErrorModel>(sc.state()),
            sc.number matches Some(run) ==> run.start <= i,
            sc.symbol matches Some(start) ==> start <= i,
        decreases chars@.len() - i,
    {
        let c = chars[i];
        let ghost before = sc.state();
        let r: Result<(), CalculatorError> = if c == ' ' || c == '\t' || c == '\n' || c == '\x0C' || c == '\r' {
            match sc.flush_number(i) {
                Ok(()) => sc.flush_symbol(s, i, env),
                Err(e) => Err(e),
            }
        } else if ('a' <= c && c <= 'z') || ('A' <= c && c <= 'Z') || c == '_' {
            match sc.flush_number(i) {
                Ok(()) => {
                    if sc.symbol.is_none() {
                        sc.symbol = Some(i);
                    }
                    Ok(())
                },
                Err(e) => Err(e),
            }
        } else if ('0' <= c && c <= '9') || c == '.' {
            match sc.flush_symbol(s, i, env) {
                Ok(()) => {
                    let run = match sc.number {
                        Some(run) => run,
                        None => NumberRun { start: i, has_digit: false, has_point: false },
                    };
                    if c != '.' {
                        sc.number = Some(NumberRun { has_digit: true, ..run });
                        Ok(())
                    } else if run.has_point {
                        Err(CalculatorError::IllegalCharacter('.'))
                    } else {
                        sc.number = Some(NumberRun { has_point: true, ..run });
                        Ok(())
                    }
                },
                Err(e) => Err(e),
            }
        } else {
            match sc.flush_symbol(s, i, env) {
                Ok(()) => match sc.flush_number(i) {
                    Ok(()) => sc.push_symbol_char(c),
                    Err(e) => Err(e),
                },
                Err(e) => Err(e),
            }
        };
        assert(stepped(r, step(s@, *env, before, i as int), sc.state()));
        match r {
            Ok(()) => {},
            Err(e) => {
                proof {
                    lemma_scan_error(s@, *env, (i + 1) as nat, s@.len());
                }
                return Err(e);
            },
        }
        i = i + 1;
    }
    if let Err(e) = sc.flush_number(i) {
        return Err(e);
    }
    if let Err(e) = sc.flush_symbol(s, i, env) {
        return Err(e);
    }
    Ok(sc.tokens)
}

} // verus!
