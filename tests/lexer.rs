use pratt_calculator::lexer::{tokenize, Lexer, Number, Operator, Token};

fn number_text(t: &Token) -> Option<String> {
    match t {
        Token::Number(n) => Some(n.as_str().to_string()),
        _ => None,
    }
}

#[test]
fn precedence_levels() {
    assert_eq!(5, Operator::Add.precedence());
    assert_eq!(5, Operator::Sub.precedence());
    assert_eq!(10, Operator::Mul.precedence());
    assert_eq!(10, Operator::Div.precedence());
}

#[test]
fn operator_symbols() {
    assert_eq!('+', Operator::Add.symbol());
    assert_eq!('/', Operator::Div.symbol());
}

#[test]
fn tokens_of_a_line() {
    let toks = tokenize("(12+3.5)*/-");
    assert_eq!(8, toks.len());
    assert!(matches!(toks[0], Token::LeftParen));
    assert_eq!(Some("12".to_string()), number_text(&toks[1]));
    assert!(matches!(toks[2], Token::Op(Operator::Add)));
    assert_eq!(Some("3.5".to_string()), number_text(&toks[3]));
    assert!(matches!(toks[4], Token::RightParen));
    assert!(matches!(toks[5], Token::Op(Operator::Mul)));
    assert!(matches!(toks[6], Token::Op(Operator::Div)));
    assert!(matches!(toks[7], Token::Op(Operator::Sub)));
}

#[test]
fn literal_round_trips() {
    for text in ["0", "42", "3.14", "7.", "00.500", "12345.678"] {
        let toks = tokenize(text);
        assert_eq!(1, toks.len());
        assert_eq!(Some(text.to_string()), number_text(&toks[0]));
        let n = Number::from_text(text).unwrap();
        let shortest = n.canonical();
        let again = tokenize(&shortest);
        assert_eq!(1, again.len());
        assert_eq!(
            text.parse::<f64>().unwrap(),
            number_text(&again[0]).unwrap().parse::<f64>().unwrap()
        );
    }
}

#[test]
fn shortest_forms() {
    assert_eq!("1", Number::from_text("1.0").unwrap().canonical());
    assert_eq!("0.5", Number::from_text("00.50").unwrap().canonical());
    assert_eq!("0", Number::from_text("000").unwrap().canonical());
    assert_eq!("0", Number::from_text("0.000").unwrap().canonical());
    assert_eq!("7", Number::from_text("7.").unwrap().canonical());
    assert_eq!("10.01", Number::from_text("010.010").unwrap().canonical());
}

#[test]
fn non_literals_are_refused() {
    for text in ["", ".5", "1.2.3", "a", "1 ", "-1", "1e5"] {
        assert!(Number::from_text(text).is_none(), "{}", text);
    }
}

#[test]
fn dot_ends_a_number_once() {
    let toks = tokenize("1.2.3");
    assert_eq!(2, toks.len());
    assert_eq!(Some("1.2".to_string()), number_text(&toks[0]));
    assert_eq!(Some("3".to_string()), number_text(&toks[1]));
}

#[test]
fn unknown_characters_are_reported() {
    let mut lexer = Lexer::from("1 @ + 2");
    let mut toks = Vec::new();
    while let Some(t) = lexer.next() {
        toks.push(t);
    }
    assert_eq!(3, toks.len());
    assert_eq!(Some("1".to_string()), number_text(&toks[0]));
    assert!(matches!(toks[1], Token::Op(Operator::Add)));
    assert_eq!(Some("2".to_string()), number_text(&toks[2]));
    assert_eq!(&vec!['@'], lexer.skipped());
}

#[test]
fn whitespace_is_not_reported() {
    let mut lexer = Lexer::from("1\t+\n2\u{3000}x");
    let mut count = 0;
    while lexer.next().is_some() {
        count += 1;
    }
    assert_eq!(3, count);
    assert_eq!(&vec!['x'], lexer.skipped());
}

#[test]
fn end_of_input_gives_none() {
    let mut lexer = Lexer::from("  ");
    assert!(lexer.next().is_none());
    assert!(lexer.next().is_none());
    assert!(lexer.skipped().is_empty());
}

#[test]
fn clone_keeps_the_cursor() {
    let mut lexer = Lexer::from("1 + 2");
    lexer.next();
    let copy = lexer.clone();
    assert_eq!(2, copy.tokens().len());
    assert_eq!(2, lexer.tokens().len());
}

#[test]
fn whitespace_set_matches_std() {
    for c in ['\t', '\n', '\r', ' ', '\u{85}', '\u{a0}', '\u{2000}', '\u{200a}', '\u{2029}', '\u{3000}'] {
        assert!(c.is_whitespace());
        let mut lexer = Lexer::from(&format!("1{}2", c));
        assert_eq!(2, lexer.clone().tokens().len());
        while lexer.next().is_some() {}
        assert!(lexer.skipped().is_empty(), "{:?}", c);
    }
    for c in ['@', '\u{200b}', 'x', '_'] {
        assert!(!c.is_whitespace());
        let mut lexer = Lexer::from(&format!("1{}2", c));
        while lexer.next().is_some() {}
        assert_eq!(&vec![c], lexer.skipped());
    }
}

#[test]
fn unknown_character_separates_like_a_space() {
    let with_unknown = tokenize("1@2+3");
    let with_space = tokenize("1 2+3");
    assert_eq!(with_space.len(), with_unknown.len());
    assert_eq!(4, with_unknown.len());
    assert_eq!(Some("1".to_string()), number_text(&with_unknown[0]));
    assert_eq!(Some("2".to_string()), number_text(&with_unknown[1]));
}
