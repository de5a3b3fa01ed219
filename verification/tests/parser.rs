use pratt_calc::parser::{Parser, ShiftError};
use pratt_calc::pratt::E;
use pratt_calc::tokenizer::{Token, OP};

fn parses_to(tokens: Vec<Token>, result: E) {
    let mut parser = Parser::new(&tokens);
    let ast = parser.run();
    assert_eq!(Ok(&result), ast)
}

fn is_refused(tokens: Vec<Token>, failure: ShiftError) {
    let mut parser = Parser::new(&tokens);
    assert_eq!(Err(failure), parser.run());
}

#[test]
fn parser_single_literal() {
    let tokens = vec![Token::LITERAL(10)];
    let result = E::LITERAL(10);
    parses_to(tokens, result);
}

#[test]
fn parser_addition() {
    let tokens = vec![Token::LITERAL(10), Token::OPERATOR(OP::PLUS), Token::LITERAL(15)];
    let result = E::BINARY(
        Box::new(E::LITERAL(10)),
        OP::PLUS,
        Box::new(E::LITERAL(15)),
    );
    parses_to(tokens, result);
}

#[test]
fn sum() {
    let tokens = vec![
        Token::LITERAL(10),
        Token::OPERATOR(OP::PLUS),
        Token::LITERAL(15),
        Token::OPERATOR(OP::PLUS),
        Token::LITERAL(10),
    ];
    let result = E::BINARY(
        Box::new(E::BINARY(
            Box::new(E::LITERAL(10)),
            OP::PLUS,
            Box::new(E::LITERAL(15)),
        )),
        OP::PLUS,
        Box::new(E::LITERAL(10)),
    );
    parses_to(tokens, result);
}

#[test]
fn paren() {
    let tokens = vec![Token::LPAREN, Token::LITERAL(15), Token::RPAREN];
    let result = E::PAREN(Box::new(E::LITERAL(15)));
    parses_to(tokens, result);
}

#[test]
fn plus_then_mult() {
    let tokens = vec![
        Token::LITERAL(10),
        Token::OPERATOR(OP::PLUS),
        Token::LITERAL(15),
        Token::OPERATOR(OP::MULT),
        Token::LITERAL(10),
    ];
    let result = E::BINARY(
        Box::new(E::LITERAL(10)),
        OP::PLUS,
        Box::new(E::BINARY(
            Box::new(E::LITERAL(15)),
            OP::MULT,
            Box::new(E::LITERAL(10)),
        )),
    );
    parses_to(tokens, result);
}

#[test]
fn plus_then_mult_then_mult() {
    let tokens = vec![
        Token::LITERAL(10),
        Token::OPERATOR(OP::PLUS),
        Token::LITERAL(10),
        Token::OPERATOR(OP::MULT),
        Token::LITERAL(10),
        Token::OPERATOR(OP::MULT),
        Token::LITERAL(10),
    ];
    let result = E::BINARY(
        Box::new(E::LITERAL(10)),
        OP::PLUS,
        Box::new(E::BINARY(
            Box::new(E::BINARY(
                Box::new(E::LITERAL(10)),
                OP::MULT,
                Box::new(E::LITERAL(10)),
            )),
            OP::MULT,
            Box::new(E::LITERAL(10)),
        )),
    );
    parses_to(tokens, result);
}

#[test]
fn plus_then_mult_then_plus() {
    let tokens = vec![
        Token::LITERAL(10),
        Token::OPERATOR(OP::PLUS),
        Token::LITERAL(10),
        Token::OPERATOR(OP::MULT),
        Token::LITERAL(10),
        Token::OPERATOR(OP::PLUS),
        Token::LITERAL(10),
    ];
    let result = E::BINARY(
        Box::new(E::BINARY(
            Box::new(E::LITERAL(10)),
            OP::PLUS,
            Box::new(E::BINARY(
                Box::new(E::LITERAL(10)),
                OP::MULT,
                Box::new(E::LITERAL(10)),
            )),
        )),
        OP::PLUS,
        Box::new(E::LITERAL(10)),
    );
    parses_to(tokens, result);
}

#[test]
fn mult_then_plus_then_mult() {
    let tokens = vec![
        Token::LITERAL(10),
        Token::OPERATOR(OP::MULT),
        Token::LITERAL(10),
        Token::OPERATOR(OP::PLUS),
        Token::LITERAL(10),
        Token::OPERATOR(OP::MULT),
        Token::LITERAL(10),
    ];

    let lhs = Box::new(E::BINARY(
        Box::new(E::LITERAL(10)),
        OP::MULT,
        Box::new(E::LITERAL(10)),
    ));
    let rhs = lhs.clone();

    let result = E::BINARY(lhs, OP::PLUS, rhs);
    parses_to(tokens, result);
}

#[test]
fn plus_mult_pow_plus() {
    let tokens = vec![
        Token::LITERAL(10),
        Token::OPERATOR(OP::PLUS),
        Token::LITERAL(10),
        Token::OPERATOR(OP::MULT),
        Token::LITERAL(10),
        Token::OPERATOR(OP::POW),
        Token::LITERAL(10),
        Token::OPERATOR(OP::PLUS),
        Token::LITERAL(99),
    ];

    let pow = Box::new(E::BINARY(
        Box::new(E::LITERAL(10)),
        OP::POW,
        Box::new(E::LITERAL(10)),
    ));

    let mult = Box::new(E::BINARY(
        Box::new(E::LITERAL(10)),
        OP::MULT,
        pow,
    ));

    let first_plus = Box::new(E::BINARY(
        Box::new(E::LITERAL(10)),
        OP::PLUS,
        mult,
    ));

    let last_plus = E::BINARY(first_plus, OP::PLUS, Box::new(E::LITERAL(99)));

    parses_to(tokens, last_plus);
}

#[test]
fn group_inside_a_product() {
    let tokens = vec![
        Token::LITERAL(2),
        Token::OPERATOR(OP::MULT),
        Token::LPAREN,
        Token::LITERAL(3),
        Token::OPERATOR(OP::PLUS),
        Token::LITERAL(4),
        Token::RPAREN,
    ];
    let sum = E::BINARY(Box::new(E::LITERAL(3)), OP::PLUS, Box::new(E::LITERAL(4)));
    let group = E::PAREN(Box::new(sum));
    parses_to(tokens, E::BINARY(Box::new(E::LITERAL(2)), OP::MULT, Box::new(group)));
}

#[test]
fn powers_nest_to_the_left() {
    let tokens = vec![
        Token::LITERAL(2),
        Token::OPERATOR(OP::POW),
        Token::LITERAL(3),
        Token::OPERATOR(OP::POW),
        Token::LITERAL(4),
    ];
    let inner = E::BINARY(Box::new(E::LITERAL(2)), OP::POW, Box::new(E::LITERAL(3)));
    parses_to(tokens, E::BINARY(Box::new(inner), OP::POW, Box::new(E::LITERAL(4))));
}

#[test]
fn tokens_without_a_symbol_are_refused() {
    is_refused(
        vec![Token::LITERAL(1), Token::OPERATOR(OP::MINUS), Token::LITERAL(2)],
        ShiftError::Unsupported(Token::OPERATOR(OP::MINUS)),
    );
    is_refused(
        vec![Token::LITERAL(1), Token::OPERATOR(OP::DIV), Token::LITERAL(2)],
        ShiftError::Unsupported(Token::OPERATOR(OP::DIV)),
    );
    is_refused(vec![Token::BOOL(true)], ShiftError::Unsupported(Token::BOOL(true)));
    is_refused(vec![Token::IF, Token::LITERAL(1)], ShiftError::Unsupported(Token::IF));
    is_refused(
        vec![Token::LITERAL(1), Token::OPERATOR(OP::EQUALITY), Token::LITERAL(1)],
        ShiftError::Unsupported(Token::OPERATOR(OP::EQUALITY)),
    );
}

#[test]
fn what_is_no_single_expression_is_malformed() {
    is_refused(vec![], ShiftError::Malformed);
    is_refused(vec![Token::LITERAL(1), Token::OPERATOR(OP::PLUS)], ShiftError::Malformed);
    is_refused(vec![Token::OPERATOR(OP::PLUS), Token::LITERAL(1)], ShiftError::Malformed);
    is_refused(vec![Token::LPAREN, Token::LITERAL(1)], ShiftError::Malformed);
    is_refused(vec![Token::LITERAL(1), Token::RPAREN], ShiftError::Malformed);
    is_refused(vec![Token::LITERAL(1), Token::LITERAL(2)], ShiftError::Malformed);
    is_refused(vec![Token::LPAREN, Token::RPAREN], ShiftError::Malformed);
    is_refused(vec![Token::OPERATOR(OP::MULT)], ShiftError::Malformed);
}

#[test]
fn run_again_gives_the_same_expression() {
    let tokens = vec![Token::LITERAL(1), Token::OPERATOR(OP::PLUS), Token::LITERAL(2)];
    let expected = E::BINARY(Box::new(E::LITERAL(1)), OP::PLUS, Box::new(E::LITERAL(2)));
    let mut parser = Parser::new(&tokens);
    assert_eq!(Ok(&expected), parser.run());
    assert_eq!(Ok(&expected), parser.run());
}

#[test]
fn operator_of_a_token() {
    assert_eq!(Some(OP::PLUS), OP::from(&Token::OPERATOR(OP::PLUS)));
    assert_eq!(Some(OP::MINUS), OP::from(&Token::OPERATOR(OP::MINUS)));
    assert_eq!(Some(OP::MULT), OP::from(&Token::OPERATOR(OP::MULT)));
    assert_eq!(Some(OP::DIV), OP::from(&Token::OPERATOR(OP::DIV)));
    assert_eq!(None, OP::from(&Token::OPERATOR(OP::POW)));
    assert_eq!(None, OP::from(&Token::OPERATOR(OP::EQUALITY)));
    assert_eq!(None, OP::from(&Token::OPERATOR(OP::GREATER)));
    assert_eq!(None, OP::from(&Token::LITERAL(1)));
    assert_eq!(None, OP::from(&Token::LPAREN));
    assert_eq!(None, OP::from(&Token::THEN));
}
