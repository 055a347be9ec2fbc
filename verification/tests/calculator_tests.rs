use calculator::eval::{ArgFacts, EvalError, MathCall};
use calculator::lexer::{tokenize, Func, LexError, Lit, Op, Token};
use calculator::parser::{parse_expression, Node, ParseError};

/// The numeric value a literal token stands for.
fn lit_value(lit: &Lit) -> f64 {
    match lit {
        Lit::Num(cs) => cs.iter().collect::<String>().parse::<f64>().unwrap(),
        Lit::Pi => std::f64::consts::PI,
        Lit::Euler => std::f64::consts::E,
        Lit::Phi => (1.0 + 5.0_f64.sqrt()) / 2.0,
    }
}

/// Where in the pipeline an input failed. `Fold` is the parse-stage fold of
/// unary minus: an evaluation failure inside a negated operand surfaces
/// there, before evaluation of the whole tree begins.
#[derive(Debug, Clone, PartialEq)]
enum PipeError {
    Lex(LexError),
    Parse(ParseError),
    Fold(EvalError),
    Eval(EvalError),
}

/// A syntax tree with every unary minus already folded into a plain value.
enum FNode {
    Value(f64),
    BinOp(Op, Box<FNode>, Box<FNode>),
    Func(Func, Box<FNode>),
}

/// The parse-stage fold: a unary minus evaluates its operand eagerly.
fn lower(node: Node) -> Result<FNode, EvalError> {
    match node {
        Node::Immediate(lit) => Ok(FNode::Value(lit_value(&lit))),
        Node::Neg(inner) => {
            let operand = lower(*inner)?;
            Ok(FNode::Value(-evaluate(operand)?))
        }
        Node::BinOp(op, l, r) => Ok(FNode::BinOp(op, Box::new(lower(*l)?), Box::new(lower(*r)?))),
        Node::Func(f, a) => Ok(FNode::Func(f, Box::new(lower(*a)?))),
    }
}

/// The floating-point walk of a syntax tree. The library decides which
/// routine applies or which domain error holds; this driver only performs
/// the arithmetic the decisions ask for.
fn evaluate(node: FNode) -> Result<f64, EvalError> {
    match node {
        FNode::Value(v) => Ok(v),
        FNode::BinOp(op, l, r) => {
            let a = evaluate(*l)?;
            let b = evaluate(*r)?;
            op.evaluate_outcome(b == 0.0)?;
            Ok(match op {
                Op::Add => a + b,
                Op::Sub => a - b,
                Op::Mul => a * b,
                Op::Div => a / b,
                Op::Pow => a.powf(b),
            })
        }
        FNode::Func(f, arg) => {
            let x = evaluate(*arg)?;
            let param = match &f {
                Func::Log(l) | Func::Root(l) => Some(lit_value(l)),
                _ => None,
            };
            let facts = ArgFacts {
                arg_negative: x < 0.0,
                arg_outside_unit: x < -1.0 || x > 1.0,
                param_is_two: param == Some(2.0),
                param_is_ten: param == Some(10.0),
                param_is_zero: param == Some(0.0),
            };
            let call = f.evaluate_plan(facts)?;
            Ok(match call {
                MathCall::Abs => x.abs(),
                MathCall::Sqrt => x.sqrt(),
                MathCall::Log2 => x.log2(),
                MathCall::Log10 => x.log10(),
                MathCall::LogBase => x.log(param.unwrap()),
                MathCall::Sin => x.sin(),
                MathCall::Cos => x.cos(),
                MathCall::Tan => x.tan(),
                MathCall::Cotan => {
                    let t = x.tan();
                    Op::Div.evaluate_outcome(t == 0.0)?;
                    1.0 / t
                }
                MathCall::Asin => x.asin(),
                MathCall::Acos => x.acos(),
                MathCall::Atan => x.atan(),
                MathCall::Exp => x.exp(),
                MathCall::Root => x.powf(1.0 / param.unwrap()),
            })
        }
    }
}

/// Runs the whole pipeline on one line of input.
fn pipeline(input: &str) -> Result<f64, PipeError> {
    let mut lexer = tokenize(input).map_err(PipeError::Lex)?;
    let ast = parse_expression(&mut lexer).map_err(PipeError::Parse)?;
    let folded = lower(ast).map_err(PipeError::Fold)?;
    evaluate(folded).map_err(PipeError::Eval)
}

fn eval_ok(input: &str) -> f64 {
    pipeline(input).unwrap()
}

fn tokens_of(input: &str) -> Vec<Token> {
    let mut lexer = tokenize(input).unwrap();
    let mut out = Vec::new();
    loop {
        let t = lexer.next();
        if t == Token::End {
            return out;
        }
        out.push(t);
    }
}

#[test]
fn test_numbers() {
    let toks = tokens_of("1 .2 3. 4.5");
    let expected = [1.0, 0.2, 3.0, 4.5];
    assert_eq!(toks.len(), expected.len());
    for (t, v) in toks.iter().zip(expected.iter()) {
        match t {
            Token::Literal(lit) => assert_eq!(lit_value(lit), *v),
            other => panic!("expected a literal, got {:?}", other),
        }
    }
}

#[test]
fn lexer_test_operators() {
    let toks = tokens_of("+ - * / ^");
    let expected = vec![
        Token::Operator(Op::Add),
        Token::Operator(Op::Sub),
        Token::Operator(Op::Mul),
        Token::Operator(Op::Div),
        Token::Operator(Op::Pow),
    ];
    assert_eq!(toks, expected);
}

#[test]
fn text_functions() {
    let toks = tokens_of("sqrt log2 abs sin cos");
    assert_eq!(toks.len(), 5);
    assert_eq!(toks[0], Token::Function(Func::Sqrt));
    match &toks[1] {
        Token::Function(Func::Log(base)) => assert_eq!(lit_value(base), 2.0),
        other => panic!("expected log with base 2, got {:?}", other),
    }
    assert_eq!(toks[2], Token::Function(Func::Abs));
    assert_eq!(toks[3], Token::Function(Func::Sin));
    assert_eq!(toks[4], Token::Function(Func::Cos));
}

#[test]
fn eval_test_operators() {
    assert_eq!(eval_ok("1 + 2 - 4"), -1.0);
    assert_eq!(eval_ok("5 - 1 / 2"), 4.5);
    assert_eq!(eval_ok("2 * 3 ^ 2"), 18.0);
}

#[test]
fn test_functions() {
    assert_eq!(eval_ok("sqrt(abs(-2))"), 2.0_f64.sqrt());
    assert_eq!(eval_ok("cos(pi)"), -1.0);
    assert_eq!(eval_ok("sin(log2(10))"), 10.0_f64.log2().sin());
}

#[test]
fn test_division_by_zero() {
    assert_eq!(
        pipeline("1/0"),
        Err(PipeError::Eval(EvalError::DivisionByZero))
    );
    assert_eq!(
        pipeline("ctg(0)"),
        Err(PipeError::Eval(EvalError::DivisionByZero))
    );
    assert_eq!(
        pipeline("root0(5)"),
        Err(PipeError::Eval(EvalError::DivisionByZero))
    );
}

#[test]
fn test_domain_errors() {
    assert_eq!(
        pipeline("sqrt(-1)"),
        Err(PipeError::Eval(EvalError::NegativeSquareRoot))
    );
    assert_eq!(
        pipeline("asin(2)"),
        Err(PipeError::Eval(EvalError::OutOfRange))
    );
    assert_eq!(
        pipeline("acos(-2)"),
        Err(PipeError::Eval(EvalError::OutOfRange))
    );
    assert_eq!(pipeline("asin(1)"), Ok(1.0_f64.asin()));
}

#[test]
fn test_deterministic() {
    for input in ["sqrt(2) + sin(3) * pi ^ 2", "1 / 3", "exp(e)"] {
        let a = eval_ok(input);
        let b = eval_ok(input);
        assert_eq!(a.to_bits(), b.to_bits());
    }
}

#[test]
fn test_function_argument_context() {
    // a bare minus after a function name must not parse as a call on the
    // negated number
    assert_eq!(
        pipeline("abs-2"),
        Err(PipeError::Parse(ParseError::UnexpectedToken))
    );
    // a bare literal is no function argument either; brackets are required
    assert_eq!(
        pipeline("sqrt 4"),
        Err(PipeError::Parse(ParseError::UnexpectedToken))
    );
    assert_eq!(eval_ok("abs(-2)"), 2.0);
}

#[test]
fn test_parentheses() {
    assert_eq!(
        pipeline("(1 + 2"),
        Err(PipeError::Parse(ParseError::MismatchedParenthesis))
    );
    assert_eq!(
        pipeline("1 + 2)"),
        Err(PipeError::Parse(ParseError::UnexpectedToken))
    );
    assert_eq!(eval_ok("(1 + 2) * 3"), 9.0);
}

#[test]
fn test_lex_errors() {
    assert_eq!(pipeline("foo"), Err(PipeError::Lex(LexError::UnknownIdentifier)));
    assert_eq!(pipeline("1.2.3"), Err(PipeError::Lex(LexError::InvalidNumber)));
    assert_eq!(pipeline("."), Err(PipeError::Lex(LexError::InvalidNumber)));
    assert_eq!(
        pipeline("log(2)"),
        Err(PipeError::Lex(LexError::InvalidFunctionArgument))
    );
    assert_eq!(
        pipeline("log 2"),
        Err(PipeError::Lex(LexError::InvalidFunctionArgument))
    );
    assert_eq!(
        pipeline("1 % 2"),
        Err(PipeError::Lex(LexError::UnknownToken('%')))
    );
}

#[test]
fn test_constants() {
    assert_eq!(eval_ok("pi"), std::f64::consts::PI);
    assert_eq!(eval_ok("e"), std::f64::consts::E);
    assert_eq!(eval_ok("phi"), (1.0 + 5.0_f64.sqrt()) / 2.0);
}

#[test]
fn test_case_insensitive() {
    assert_eq!(eval_ok("SQRT(4)"), 2.0);
    assert_eq!(eval_ok("Cos(PI)"), -1.0);
}

#[test]
fn test_power_left_associative() {
    // `a ^ b ^ c` groups as `(a ^ b) ^ c`
    assert_eq!(eval_ok("2 ^ 3 ^ 2"), 64.0);
}

#[test]
fn test_negated_operand_fails_at_parse_stage() {
    // a unary minus evaluates its operand eagerly, so a failure inside the
    // operand belongs to the parse-stage fold, not to evaluation
    assert_eq!(
        pipeline("-(1/0)"),
        Err(PipeError::Fold(EvalError::DivisionByZero))
    );
    assert_eq!(
        pipeline("1 + -(sqrt(-4))"),
        Err(PipeError::Fold(EvalError::NegativeSquareRoot))
    );
    assert_eq!(eval_ok("-(1/2)"), -0.5);
}

#[test]
fn test_unary_minus() {
    assert_eq!(eval_ok("-2"), -2.0);
    assert_eq!(eval_ok("--2"), 2.0);
    assert_eq!(eval_ok("-2 + 3"), 1.0);
    assert_eq!(eval_ok("2 * -3"), -6.0);
}

#[test]
fn test_log_and_root() {
    assert_eq!(eval_ok("log2(8)"), 3.0);
    assert_eq!(eval_ok("log10(1000)"), 3.0);
    assert_eq!(eval_ok("log3(9)"), 9.0_f64.log(3.0));
    assert_eq!(eval_ok("root3(8)"), 8.0_f64.powf(1.0 / 3.0));
    assert_eq!(eval_ok("root2(16)"), 4.0);
}

#[test]
fn test_function_aliases() {
    assert_eq!(eval_ok("tan(1)"), eval_ok("tg(1)"));
    assert_eq!(eval_ok("cotan(1)"), eval_ok("ctg(1)"));
    assert_eq!(eval_ok("arcsin(1)"), eval_ok("asin(1)"));
    assert_eq!(eval_ok("arccos(1)"), eval_ok("acos(1)"));
    assert_eq!(eval_ok("arctan(1)"), eval_ok("atan(1)"));
    assert_eq!(eval_ok("exp(1)"), 1.0_f64.exp());
}

#[test]
fn test_empty_input_fails() {
    assert_eq!(pipeline(""), Err(PipeError::Parse(ParseError::UnexpectedToken)));
}
