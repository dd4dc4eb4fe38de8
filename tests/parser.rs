use pratt_calculator::lexer::{Lexer, Number, Operator};
use pratt_calculator::parser::{parse, Expr, ParseError, Parser};

fn value(n: &Number) -> f64 {
    n.as_str().parse::<f64>().unwrap()
}

fn apply(op: Operator, a: f64, b: f64) -> f64 {
    match op {
        Operator::Add => a + b,
        Operator::Sub => a - b,
        Operator::Mul => a * b,
        Operator::Div => a / b,
    }
}

fn eval(p: &Parser) -> f64 {
    p.expression.fold(&|n: &Number| value(n), &|op, a, b| apply(op, a, b))
}

fn parse_line(text: &str) -> Result<Parser, ParseError> {
    Parser::from_lexer(Lexer::from(text))
}

fn atom(text: &str) -> Box<Expr> {
    Box::new(Expr::Atom(Number::from_text(text).unwrap()))
}

#[test]
fn print_simple_expr() {
    let e = Expr::Operation(atom("1.0"), Operator::Add, atom("2.0"));
    assert_eq!("(+ 1 2)", e.to_string());
}

#[test]
fn print_expr() {
    let e = Expr::Operation(atom("2.0"), Operator::Mul, atom("3.14"));
    let e = Expr::Operation(atom("1.0"), Operator::Add, Box::new(e));
    assert_eq!("(+ 1 (* 2 3.14))", e.to_string());
}

#[test]
fn parse_atom_42() {
    let l = Lexer::from("42");
    let p = Parser::from_lexer(l).unwrap();
    assert_eq!("42", p.to_string())
}

#[test]
fn parse_atom_2() {
    let l = Lexer::from("2");
    let p = Parser::from_lexer(l).unwrap();
    assert_eq!("2", p.to_string())
}

#[test]
fn parse_simple_add() {
    let l = Lexer::from("1 + 2");
    let p = Parser::from_lexer(l).unwrap();
    assert_eq!("(+ 1 2)", p.to_string())
}

#[test]
fn parse_expression() {
    let l = Lexer::from("1 + 2 * 3");
    let p = Parser::from_lexer(l).unwrap();
    assert_eq!("(+ 1 (* 2 3))", p.to_string())
}

#[test]
fn parse_expression_with_prio() {
    let l = Lexer::from("1.0 * 2.1 + 3");
    let p = Parser::from_lexer(l).unwrap();
    assert_eq!("(+ (* 1 2.1) 3)", p.to_string())
}

#[test]
fn eval_expression1() {
    let l = Lexer::from("1 * 2 + 3");
    let p = Parser::from_lexer(l).unwrap();
    assert_eq!(5.0, eval(&p))
}

#[test]
fn eval_expression2() {
    let l = Lexer::from("1 + 2 * 3");
    let p = Parser::from_lexer(l).unwrap();
    assert_eq!(7.0, eval(&p))
}

#[test]
fn eval_expression_paren1() {
    let l = Lexer::from("(1 + 2) * 3");
    let p = Parser::from_lexer(l).unwrap();
    assert_eq!(9.0, eval(&p))
}

#[test]
fn multiplication_binds_tighter() {
    let p = parse_line("1 + 2 * 3").unwrap();
    assert_eq!(7.0, eval(&p));
    assert_ne!(9.0, eval(&p));
}

#[test]
fn equal_precedence_groups_left() {
    let p = parse_line("8 - 3 - 2").unwrap();
    assert_eq!("(- (- 8 3) 2)", p.to_string());
    assert_eq!(3.0, eval(&p));
    let p = parse_line("8 / 4 * 2").unwrap();
    assert_eq!("(* (/ 8 4) 2)", p.to_string());
    assert_eq!(4.0, eval(&p));
}

#[test]
fn parentheses_override_precedence() {
    let p = parse_line("(1 + 2) * 3").unwrap();
    assert_eq!("(* (+ 1 2) 3)", p.to_string());
    assert_eq!(9.0, eval(&p));
    let p = parse_line("2 * (3 - (4 - 1))").unwrap();
    assert_eq!("(* 2 (- 3 (- 4 1)))", p.to_string());
    assert_eq!(0.0, eval(&p));
}

#[test]
fn tree_printing() {
    assert_eq!("(+ 1 2)", parse_line("1 + 2").unwrap().to_string());
    assert_eq!("(+ 1 (* 2 3))", parse_line("1 + 2 * 3").unwrap().to_string());
    assert_eq!("(+ (* 1 2) 3)", parse_line("1 * 2 + 3").unwrap().to_string());
    assert_eq!("0.5", parse_line("00.500").unwrap().to_string());
    assert_eq!("7", parse_line("((7.))").unwrap().to_string());
}

#[test]
fn leading_operator_fails() {
    assert_eq!(ParseError::AtomExpected, parse_line("+ 1").err().unwrap());
    assert_eq!(ParseError::AtomExpected, parse_line("1 + * 2").err().unwrap());
}

#[test]
fn missing_operator_fails() {
    assert_eq!(ParseError::OperationExpected, parse_line("1 2").err().unwrap());
    assert_eq!(ParseError::OperationExpected, parse_line("1 (2)").err().unwrap());
}

#[test]
fn unclosed_paren_fails() {
    assert_eq!(ParseError::RightParenExpected, parse_line("(1 + 2").err().unwrap());
}

#[test]
fn empty_input_fails() {
    assert_eq!(ParseError::NothingToParse, parse_line("").err().unwrap());
    assert_eq!(ParseError::NothingToParse, parse_line("   ").err().unwrap());
    assert_eq!(ParseError::NothingToParse, parse_line("1 +").err().unwrap());
}

#[test]
fn stray_right_paren_fails() {
    assert_eq!(ParseError::RightParenNotExpected, parse_line(")").err().unwrap());
    assert_eq!(ParseError::RightParenNotExpected, parse_line("1 + 2)").err().unwrap());
    assert_eq!(ParseError::RightParenNotExpected, parse_line("()").err().unwrap());
}

#[test]
fn error_messages() {
    assert_eq!("an atom is expected", ParseError::AtomExpected.message());
    assert_eq!("right parenthesis expected", ParseError::RightParenExpected.message());
    assert_eq!("nothing to parse", ParseError::NothingToParse.message());
}

#[test]
fn unknown_character_is_skipped() {
    let p = parse_line("1 @ + 2").unwrap();
    assert_eq!("(+ 1 2)", p.to_string());
    assert_eq!(3.0, eval(&p));
}

#[test]
fn division_by_zero_is_infinite() {
    let p = parse_line("1 / 0").unwrap();
    let v = eval(&p);
    assert!(v.is_infinite() && v > 0.0);
}

#[test]
fn parse_from_token_vector() {
    let toks = pratt_calculator::lexer::tokenize("4 * (2 + 1)");
    let e = parse(&toks).unwrap();
    assert_eq!("(* 4 (+ 2 1))", e.to_string());
}

#[test]
fn fold_counts_leaves() {
    let p = parse_line("1 + 2 * (3 - 4) / 5").unwrap();
    let leaves = p.expression.fold(&|_n: &Number| 1u64, &|_op, a: u64, b: u64| a.wrapping_add(b));
    assert_eq!(5, leaves);
}
