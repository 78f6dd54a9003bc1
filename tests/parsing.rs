use expr_node::ast::{BinaryOp, Expr, UnaryOp};
use expr_node::bindings::{collect_bindings, index_of};
use expr_node::lexer::{tokenize, Token};
use expr_node::parser::{parse, ParseError};

fn eval_expr(e: &Expr, names: &Vec<String>, values: &[f64]) -> f64 {
    match e {
        Expr::Val(t) => t.parse::<f64>().unwrap(),
        Expr::Var(n) => values[index_of(names, n).unwrap()],
        Expr::Unary(UnaryOp::Pos, x) => eval_expr(x, names, values),
        Expr::Unary(UnaryOp::Neg, x) => -eval_expr(x, names, values),
        Expr::Binary(op, l, r) => {
            let a = eval_expr(l, names, values);
            let b = eval_expr(r, names, values);
            match op {
                BinaryOp::Add => a + b,
                BinaryOp::Sub => a - b,
                BinaryOp::Mul => a * b,
                BinaryOp::Div => a / b,
            }
        }
    }
}

fn eval_with(text: &str, values: &[f64]) -> f64 {
    let e = parse(text).unwrap();
    let names = collect_bindings(&e);
    assert_eq!(names.len(), values.len());
    eval_expr(&e, &names, values)
}

fn eval(text: &str) -> f64 {
    eval_with(text, &[])
}

fn val(t: &str) -> Box<Expr> {
    Box::new(Expr::Val(t.to_string()))
}

fn shape(e: &Expr) -> String {
    match e {
        Expr::Val(t) => t.clone(),
        Expr::Var(n) => n.clone(),
        Expr::Unary(UnaryOp::Pos, x) => format!("(+{})", shape(x)),
        Expr::Unary(UnaryOp::Neg, x) => format!("(-{})", shape(x)),
        Expr::Binary(op, l, r) => {
            let o = match op {
                BinaryOp::Add => "+",
                BinaryOp::Sub => "-",
                BinaryOp::Mul => "*",
                BinaryOp::Div => "/",
            };
            format!("({}{}{})", shape(l), o, shape(r))
        }
    }
}

#[test]
fn precedence_of_products_over_sums() {
    assert_eq!(eval("2+3*4"), 14.0);
    assert_eq!(eval("(2+3)*4"), 20.0);
    assert_eq!(eval("2*3+4"), 10.0);
    assert_eq!(shape(&parse("2+3*4").unwrap()), "(2+(3*4))");
    assert_eq!(shape(&parse("2*3+4").unwrap()), "((2*3)+4)");
}

#[test]
fn operators_fold_left() {
    assert_eq!(eval("8-3-2"), 3.0);
    assert_eq!(eval("8/4/2"), 1.0);
    assert_eq!(eval("2-3-4"), -5.0);
    assert_eq!(shape(&parse("8-3-2").unwrap()), "((8-3)-2)");
}

#[test]
fn unary_signs() {
    assert_eq!(eval("-3+4"), 1.0);
    assert_eq!(eval("-(3+4)"), -7.0);
    assert_eq!(eval("+5"), 5.0);
    assert_eq!(eval("2*-3"), -6.0);
    assert_eq!(shape(&parse("-3*2").unwrap()), "((-3)*2)");
}

#[test]
fn division_by_zero_follows_ieee() {
    assert_eq!(eval("1/0"), f64::INFINITY);
    assert_eq!(eval("-1/0"), f64::NEG_INFINITY);
    assert!(eval("0/0").is_nan());
}

#[test]
fn decimal_literals_keep_their_text() {
    match parse("2.5").unwrap() {
        Expr::Val(t) => assert_eq!(t, "2.5"),
        _ => panic!("expected a literal"),
    }
    assert_eq!(eval("1.5*4"), 6.0);
    assert_eq!(eval(" 12 + 0.25 "), 12.25);
}

#[test]
fn variables_read_their_values() {
    assert_eq!(eval_with("a*b+a", &[3.0, 4.0]), 15.0);
    assert_eq!(eval_with("x_1 / 2", &[9.0]), 4.5);
}

#[test]
fn error_kinds() {
    assert_eq!(parse("").unwrap_err(), ParseError::EmptyInput);
    assert_eq!(parse("   ").unwrap_err(), ParseError::EmptyInput);
    assert_eq!(parse("2+").unwrap_err(), ParseError::UnexpectedToken);
    assert_eq!(parse("*2").unwrap_err(), ParseError::UnexpectedToken);
    assert_eq!(parse("--2").unwrap_err(), ParseError::UnexpectedToken);
    assert_eq!(parse("2 $ 3").unwrap_err(), ParseError::UnexpectedToken);
    assert_eq!(parse("1.").unwrap_err(), ParseError::UnexpectedToken);
    assert_eq!(parse("(1+2").unwrap_err(), ParseError::UnclosedParen);
    assert_eq!(parse("(1 2)").unwrap_err(), ParseError::UnclosedParen);
    assert_eq!(parse("1 2").unwrap_err(), ParseError::TrailingInput);
    assert_eq!(parse("1)").unwrap_err(), ParseError::TrailingInput);
}

#[test]
fn tokens_carry_spans() {
    let t = tokenize("ab + 3.5*(x)").unwrap();
    assert_eq!(
        t,
        vec![
            Token::Ident(0, 2),
            Token::Plus,
            Token::Num(5, 8),
            Token::Star,
            Token::LParen,
            Token::Ident(10, 11),
            Token::RParen,
        ]
    );
    assert_eq!(tokenize("a ? b").unwrap_err(), ParseError::UnexpectedToken);
    assert_eq!(tokenize(" \t\n").unwrap(), vec![]);
}

#[test]
fn nested_parentheses() {
    let e = parse("((a))").unwrap();
    assert_eq!(shape(&e), "a");
    let e = parse("2*(3-(1+1))").unwrap();
    assert_eq!(shape(&e), "(2*(3-(1+1)))");
    match e {
        Expr::Binary(BinaryOp::Mul, l, _) => assert_eq!(shape(&l), shape(&val("2"))),
        _ => panic!("expected a product"),
    }
}
