use calculator::{eval_rpn, parse, to_expr, to_rpn};
use calculator::{CalculatorError, Env, Expr, Operand, Operator, ParseNumber, Span, Token};

type Env64 = Env<f64, fn(f64) -> f64>;

fn default_env() -> Env64 {
    let constants = vec![
        ("pi".to_string(), std::f64::consts::PI),
        ("e".to_string(), std::f64::consts::E),
        ("degrees".to_string(), std::f64::consts::PI / 180.0),
        ("deg".to_string(), std::f64::consts::PI / 180.0),
    ];
    let functions: Vec<(String, fn(f64) -> f64)> = vec![
        ("ln".to_string(), f64::ln),
        ("sin".to_string(), f64::sin),
        ("cos".to_string(), f64::cos),
        ("tan".to_string(), f64::tan),
        ("sqrt".to_string(), f64::sqrt),
        ("cbrt".to_string(), f64::cbrt),
        ("acos".to_string(), f64::acos),
        ("asin".to_string(), f64::asin),
        ("atan".to_string(), f64::atan),
    ];
    Env::new(constants, functions).unwrap()
}

fn number_value(n: &ParseNumber) -> f64 {
    let p = n.decimal_point.unwrap_or(n.digits.len()) as i32;
    let mut value = 0.0;
    for (i, d) in n.digits.iter().enumerate() {
        value += *d as f64 * 10_f64.powi(p - 1 - i as i32);
    }
    value
}

fn operand_value(chars: &[char], operand: &Operand<f64>) -> f64 {
    match operand {
        Operand::Literal(span) => number_value(&ParseNumber::from_chars(&chars[span.start..span.end])),
        Operand::Constant(v) => *v,
    }
}

fn numeric(text: &str, tokens: Vec<Token<Operand<f64>>>) -> Vec<Token<f64>> {
    let chars: Vec<char> = text.chars().collect();
    tokens
        .into_iter()
        .map(|t| match t {
            Token::Number(o) => Token::Number(operand_value(&chars, &o)),
            Token::Op(o) => Token::Op(o),
            Token::LParen => Token::LParen,
            Token::RParen => Token::RParen,
        })
        .collect()
}

fn fold(e: &Expr<f64>, env: &Env64) -> f64 {
    match e {
        Expr::Number(v) => *v,
        Expr::Unary(op, x) => {
            let x = fold(x, env);
            match op {
                Operator::Negative => -x,
                Operator::Function(i) => (env.function(*i))(x),
                _ => panic!("not a unary operator"),
            }
        }
        Expr::Binary(op, l, r) => {
            let (l, r) = (fold(l, env), fold(r, env));
            match op {
                Operator::Add => l + r,
                Operator::Subtract => l - r,
                Operator::Multiply | Operator::ImpliedMultiply => l * r,
                Operator::Divide => l / r,
                Operator::Exponent => l.powf(r),
                _ => panic!("not a binary operator"),
            }
        }
    }
}

fn to_numbers(chars: &[char], e: Expr<Operand<f64>>) -> Expr<f64> {
    match e {
        Expr::Number(o) => Expr::Number(operand_value(chars, &o)),
        Expr::Unary(op, x) => Expr::Unary(op, Box::new(to_numbers(chars, *x))),
        Expr::Binary(op, l, r) => {
            Expr::Binary(op, Box::new(to_numbers(chars, *l)), Box::new(to_numbers(chars, *r)))
        }
    }
}

fn evaluate(text: &str) -> Result<f64, CalculatorError> {
    let env = default_env();
    let chars: Vec<char> = text.chars().collect();
    let e = to_expr(text, &env)?;
    Ok(fold(&to_numbers(&chars, e), &env))
}

fn close_enough(a: f64, b: f64) -> bool {
    (a - b).abs() < 0.0000001
}

#[test]
fn eval_test() {
    assert_eq!(evaluate("5").unwrap(), 5.0);
    assert_eq!(evaluate("5 + 8").unwrap(), 13.0);

    assert!(close_enough(evaluate("(5 + 3.8)^2 - 3 * 2").unwrap(), 71.44));
}

#[test]
fn eval_test_negatives() {
    assert!(close_enough(evaluate("1/-5").unwrap(), -0.2));
    assert!(close_enough(evaluate("-2^2").unwrap(), -4.0));
    assert!(close_enough(evaluate("2^-3").unwrap(), 0.125));
}

#[test]
fn eval_test_implied_multiplication() {
    assert!(close_enough(evaluate("3(-4 + 1)").unwrap(), -9.0));
    assert!(close_enough(evaluate("1/(2)(5)").unwrap(), 0.1));
    assert!(close_enough(evaluate("1/-(2)(5)").unwrap(), -0.1));
    assert!(close_enough(evaluate("(4 + 1)3").unwrap(), 15.0));
}

#[test]
fn constants() {
    assert!(close_enough(evaluate("pi").unwrap(), 3.14159265));
    assert!(close_enough(evaluate("e^2").unwrap(), 7.389056098));
}

#[test]
fn functions() {
    assert!(close_enough(evaluate("cos(pi/2)").unwrap(), 0.0));
    assert!(close_enough(evaluate("cos pi").unwrap(), -1.0));

    assert!(close_enough(evaluate("e^ln2").unwrap(), 2.0));

    assert_eq!(evaluate("sin(1)").unwrap(), 1.0_f64.sin());
    assert_eq!(evaluate("tan(1)").unwrap(), 1.0_f64.tan());

    assert_eq!(evaluate("ln2").unwrap(), 2.0_f64.ln());
    assert_eq!(evaluate("3ln2").unwrap(), 3.0 * 2.0_f64.ln());

    assert_eq!(evaluate("ln2/ln3").unwrap(), 2.0_f64.ln() / 3.0_f64.ln());
}

#[test]
fn parse_integer() {
    let text = "723";
    let exp = parse(text, &default_env()).unwrap();

    assert_eq!(numeric(text, exp), vec![Token::Number(723.0)]);
}

#[test]
fn parse_noninteger() {
    let text = "723.81";
    let exp = parse(text, &default_env()).unwrap();

    assert_eq!(numeric(text, exp), vec![Token::Number(723.81)]);
}

#[test]
fn parse_expression() {
    let text = "5 * (14 - 1)^2 - 355";
    let exp = parse(text, &default_env()).unwrap();

    assert_eq!(
        numeric(text, exp),
        vec![
            Token::Number(5.0),
            Token::Op(Operator::Multiply),
            Token::LParen,
            Token::Number(14.0),
            Token::Op(Operator::Subtract),
            Token::Number(1.0),
            Token::RParen,
            Token::Op(Operator::Exponent),
            Token::Number(2.0),
            Token::Op(Operator::Subtract),
            Token::Number(355.0),
        ]
    );
}

#[test]
fn implied_multiplication() {
    let env = default_env();
    let text = "(15)(5)";
    let exp = numeric(text, parse(text, &env).unwrap());

    assert_eq!(
        exp,
        vec![
            Token::LParen,
            Token::Number(15.0),
            Token::RParen,
            Token::Op(Operator::ImpliedMultiply),
            Token::LParen,
            Token::Number(5.0),
            Token::RParen,
        ]
    );

    let text2 = "3(2 + 1)";
    let exp2 = numeric(text2, parse(text2, &env).unwrap());

    assert_eq!(
        exp2,
        vec![
            Token::Number(3.0),
            Token::Op(Operator::ImpliedMultiply),
            Token::LParen,
            Token::Number(2.0),
            Token::Op(Operator::Add),
            Token::Number(1.0),
            Token::RParen,
        ]
    );

    let text3 = "(2+1)3";
    let exp3 = numeric(text3, parse(text3, &env).unwrap());

    assert_eq!(
        exp3,
        vec![
            Token::LParen,
            Token::Number(2.0),
            Token::Op(Operator::Add),
            Token::Number(1.0),
            Token::RParen,
            Token::Op(Operator::ImpliedMultiply),
            Token::Number(3.0),
        ]
    );
}

#[test]
fn parse_to_rpn() {
    let text = "6+9+(4*2+4^2)";

    assert_eq!(
        to_rpn(numeric(text, parse(text, &default_env()).unwrap())),
        vec![
            Token::Number(6.0),
            Token::Number(9.0),
            Token::Op(Operator::Add),
            Token::Number(4.0),
            Token::Number(2.0),
            Token::Op(Operator::Multiply),
            Token::Number(4.0),
            Token::Number(2.0),
            Token::Op(Operator::Exponent),
            Token::Op(Operator::Add),
            Token::Op(Operator::Add),
        ]
    );
}

#[test]
fn eval() {
    let tree = eval_rpn(vec![
        Token::Number(6.0),
        Token::Number(9.0),
        Token::Op(Operator::Add),
        Token::Number(4.0),
        Token::Number(2.0),
        Token::Op(Operator::Multiply),
        Token::Number(4.0),
        Token::Number(2.0),
        Token::Op(Operator::Exponent),
        Token::Op(Operator::Add),
        Token::Op(Operator::Add),
    ])
    .unwrap();
    assert_eq!(fold(&tree, &default_env()), 39.0);
}

#[test]
fn right_associative_exponent() {
    assert_eq!(evaluate("2^3^2").unwrap(), 512.0);
}

#[test]
fn negation_precedence() {
    assert_eq!(evaluate("-2^2").unwrap(), -4.0);
    assert_eq!(evaluate("2^-3").unwrap(), 0.125);
    assert_eq!(evaluate("-2+3").unwrap(), 1.0);
    assert_eq!(evaluate("-2*3").unwrap(), -6.0);
}

#[test]
fn implied_multiplication_values() {
    assert_eq!(evaluate("3(-4 + 1)").unwrap(), -9.0);
    assert_eq!(evaluate("(4 + 1)3").unwrap(), 15.0);
    assert_eq!(evaluate("(15)(5)").unwrap(), 75.0);
    assert_eq!(evaluate("2pi").unwrap(), 2.0 * std::f64::consts::PI);
}

#[test]
fn integer_strings() {
    assert_eq!(evaluate("723").unwrap(), 723.0);
    assert_eq!(evaluate("0").unwrap(), 0.0);
    assert_eq!(evaluate("000120").unwrap(), 120.0);
    assert_eq!(evaluate("9007199254740992").unwrap(), 9007199254740992.0);
}

#[test]
fn binary_operators_match_native_arithmetic() {
    assert_eq!(evaluate("7.5+2.25").unwrap(), 7.5 + 2.25);
    assert_eq!(evaluate("7.5 - 2.25").unwrap(), 7.5 - 2.25);
    assert_eq!(evaluate("7.5*2.25").unwrap(), 7.5 * 2.25);
    assert_eq!(evaluate("7.5/2.25").unwrap(), 7.5 / 2.25);
    assert_eq!(evaluate("1/0").unwrap(), f64::INFINITY);
    assert!(evaluate("0/0").unwrap().is_nan());
}

#[test]
fn constants_resolve() {
    assert!(close_enough(evaluate("pi").unwrap(), 3.14159265));
    assert!(close_enough(evaluate("e^2").unwrap(), 7.389056099));
    assert_eq!(evaluate("180deg").unwrap(), std::f64::consts::PI);
}

#[test]
fn unknown_symbol() {
    match evaluate("foo") {
        Err(CalculatorError::UnknownSymbol(name)) => assert_eq!(name, "foo"),
        other => panic!("unexpected {:?}", other),
    }
    match evaluate("2 * x_y + 1") {
        Err(CalculatorError::UnknownSymbol(name)) => assert_eq!(name, "x_y"),
        other => panic!("unexpected {:?}", other),
    }
}

#[test]
fn illegal_character() {
    assert_eq!(evaluate("5 & 3"), Err(CalculatorError::IllegalCharacter('&')));
    assert_eq!(evaluate("5 % 3"), Err(CalculatorError::IllegalCharacter('%')));
    assert_eq!(evaluate("1é"), Err(CalculatorError::IllegalCharacter('é')));
}

#[test]
fn decimal_point_policy() {
    assert_eq!(evaluate("1.2.3"), Err(CalculatorError::IllegalCharacter('.')));
    assert_eq!(evaluate("."), Err(CalculatorError::IllegalCharacter('.')));
    assert_eq!(evaluate(".5").unwrap(), 0.5);
    assert_eq!(evaluate("5.").unwrap(), 5.0);
}

#[test]
fn malformed_expressions() {
    assert_eq!(evaluate("+ 3"), Err(CalculatorError::ParseError));
    assert_eq!(evaluate("3 4").unwrap(), 12.0);
    assert_eq!(evaluate(""), Err(CalculatorError::ParseError));
    assert_eq!(evaluate("2 *"), Err(CalculatorError::ParseError));
    assert_eq!(
        eval_rpn(vec![Token::Number(1.0), Token::Number(2.0)]),
        Err(CalculatorError::ParseError)
    );
}

#[test]
fn repeated_evaluation_is_deterministic() {
    for text in ["(5 + 3.8)^2 - 3 * 2", "foo", "5 & 3", "+ 3", "cos pi"] {
        assert_eq!(evaluate(text), evaluate(text));
        let env = default_env();
        assert_eq!(parse(text, &env), parse(text, &env));
    }
}

#[test]
fn literal_tokens_point_into_text() {
    let tokens = parse("12 + 3.5", &default_env()).unwrap();
    assert_eq!(
        tokens,
        vec![
            Token::Number(Operand::Literal(Span { start: 0, end: 2 })),
            Token::Op(Operator::Add),
            Token::Number(Operand::Literal(Span { start: 5, end: 8 })),
        ]
    );
}

#[test]
fn numerals_read_digits_and_point() {
    let chars: Vec<char> = "723.81".chars().collect();
    let n = ParseNumber::from_chars(&chars);
    assert_eq!(n.digits, vec![7, 2, 3, 8, 1]);
    assert_eq!(n.decimal_point, Some(3));
    let m = ParseNumber::from_chars(&['4', '2']);
    assert_eq!(m, ParseNumber { digits: vec![4, 2], decimal_point: None });
}

#[test]
fn functions_become_unary_operators() {
    let env = default_env();
    let tokens = parse("3ln2", &env).unwrap();
    let ln = env.lookup_function(&"ln".to_string()).unwrap();
    assert_eq!(
        tokens,
        vec![
            Token::Number(Operand::Literal(Span { start: 0, end: 1 })),
            Token::Op(Operator::ImpliedMultiply),
            Token::Op(Operator::Function(ln)),
            Token::Number(Operand::Literal(Span { start: 3, end: 4 })),
        ]
    );
}

#[test]
fn unary_operators_wait_for_weaker_operators() {
    let rpn = to_rpn(vec![
        Token::Op(Operator::Negative),
        Token::Number(2.0),
        Token::Op(Operator::Add),
        Token::Number(3.0),
    ]);
    assert_eq!(
        rpn,
        vec![
            Token::Number(2.0),
            Token::Op(Operator::Negative),
            Token::Number(3.0),
            Token::Op(Operator::Add),
        ]
    );
}

#[test]
fn unmatched_parentheses_are_tolerated() {
    assert_eq!(evaluate("(1 + 2").unwrap(), 3.0);
    assert_eq!(evaluate("1 + 2)").unwrap(), 3.0);
}

#[test]
fn environment_rejects_bad_names() {
    let f: fn(f64) -> f64 = f64::sin;
    assert!(Env::<f64, fn(f64) -> f64>::new(vec![("x".to_string(), 1.0)], vec![("x".to_string(), f)]).is_none());
    assert!(Env::<f64, fn(f64) -> f64>::new(vec![("a1".to_string(), 1.0)], vec![]).is_none());
    assert!(Env::<f64, fn(f64) -> f64>::new(vec![("".to_string(), 1.0)], vec![]).is_none());
    assert!(Env::<f64, fn(f64) -> f64>::new(vec![("a".to_string(), 1.0), ("a".to_string(), 2.0)], vec![]).is_none());
    let env = Env::<f64, fn(f64) -> f64>::new(vec![("two_pi".to_string(), 6.0)], vec![("s".to_string(), f)]).unwrap();
    assert_eq!(env.lookup_constant(&"two_pi".to_string()), Some(6.0));
    assert_eq!(env.lookup_constant(&"s".to_string()), None);
    assert_eq!(env.lookup_function(&"s".to_string()), Some(0));
    assert_eq!(env.function_count(), 1);
}

#[test]
fn operator_table() {
    assert_eq!(Operator::Add.precedence(), 1);
    assert_eq!(Operator::Subtract.precedence(), 1);
    assert_eq!(Operator::Multiply.precedence(), 2);
    assert_eq!(Operator::Divide.precedence(), 2);
    assert_eq!(Operator::ImpliedMultiply.precedence(), 3);
    assert_eq!(Operator::Negative.precedence(), 4);
    assert_eq!(Operator::Exponent.precedence(), 5);
    assert_eq!(Operator::Exponent.associativity(), calculator::Associativity::Right);
    assert_eq!(Operator::Negative.associativity(), calculator::Associativity::Unary);
    assert_eq!(Operator::Divide.associativity(), calculator::Associativity::Left);
}
