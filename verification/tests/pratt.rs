use pratt_calc::pratt::{bp, expression, ParseError, Tokens, E};
use pratt_calc::tokenizer::{Token, OP};

fn literal(i: u32) -> Box<E> {
    Box::new(E::LITERAL(i))
}

fn boxx(e: E) -> Box<E> {
    Box::new(e)
}

fn parse_all(tokens: Vec<Token>) -> Result<E, ParseError> {
    let mut iter = Tokens::new(&tokens);
    expression(&mut iter, 0)
}

#[test]
fn pratt_single_literal() {
    let tokens = vec![Token::LITERAL(10)];
    let mut iter = Tokens::new(&tokens);
    let result = expression(&mut iter, 0);
    assert_eq!(Ok(E::LITERAL(10)), result);
}

#[test]
fn single_literal_parens() {
    let tokens = vec![Token::LPAREN, Token::LITERAL(10), Token::RPAREN];
    let mut iter = Tokens::new(&tokens);
    let result = expression(&mut iter, 0);
    assert_eq!(Ok(E::PAREN(literal(10))), result);
}

#[test]
fn single_literal_parens_x2() {
    let tokens = vec![
        Token::LPAREN,
        Token::LPAREN,
        Token::LITERAL(10),
        Token::RPAREN,
        Token::RPAREN,
    ];
    let mut iter = Tokens::new(&tokens);
    let result = expression(&mut iter, 0);
    assert_eq!(Ok(E::PAREN(Box::new(E::PAREN(literal(10))))), result);
}

#[test]
fn unary_minus() {
    let tokens = vec![Token::OPERATOR(OP::MINUS), Token::LITERAL(10)];
    let mut iter = Tokens::new(&tokens);
    let result = expression(&mut iter, 0);
    let asd = E::UNARY(OP::MINUS, Box::new(E::LITERAL(10)));
    assert_eq!(Ok(asd), result);
}

#[test]
fn unary_minus_plus() {
    let tokens = vec![
        Token::OPERATOR(OP::MINUS),
        Token::LITERAL(1),
        Token::OPERATOR(OP::PLUS),
        Token::LITERAL(2),
        Token::OPERATOR(OP::MULT),
        Token::LITERAL(3),
    ];
    let mut iter = Tokens::new(&tokens);
    let result = expression(&mut iter, 0);
    let unary = E::UNARY(OP::MINUS, literal(1));
    let mult = E::BINARY(literal(2), OP::MULT, literal(3));
    let asd = E::BINARY(boxx(unary), OP::PLUS, boxx(mult));
    assert_eq!(Ok(asd), result);
}

#[test]
fn pratt_addition() {
    let tokens = vec![
        Token::LITERAL(1),
        Token::OPERATOR(OP::PLUS),
        Token::LITERAL(2),
    ];
    let mut iter = Tokens::new(&tokens);
    let result = expression(&mut iter, 0);
    let lit1 = Box::new(E::LITERAL(1));
    let lit2 = Box::new(E::LITERAL(2));
    let bin = E::BINARY(lit1, OP::PLUS, lit2);
    assert_eq!(Ok(bin), result);
}

#[test]
fn pratt_plus_mult() {
    let tok_lit = Token::LITERAL(10);
    let tokens = vec![
        tok_lit.clone(),
        Token::OPERATOR(OP::PLUS),
        tok_lit.clone(),
        Token::OPERATOR(OP::MULT),
        tok_lit.clone(),
        Token::OPERATOR(OP::PLUS),
        tok_lit,
    ];
    let mut iter = Tokens::new(&tokens);
    let result = expression(&mut iter, 0);
    let lit = Box::new(E::LITERAL(10));
    let mult = Box::new(E::BINARY(lit.clone(), OP::MULT, lit.clone()));
    let bin = Box::new(E::BINARY(mult, OP::PLUS, lit.clone()));
    let bin = E::BINARY(lit, OP::PLUS, bin);
    assert_eq!(Ok(bin), result);
}

#[test]
fn binding_powers() {
    assert_eq!(10, bp(&Token::OPERATOR(OP::PLUS)));
    assert_eq!(10, bp(&Token::OPERATOR(OP::MINUS)));
    assert_eq!(20, bp(&Token::OPERATOR(OP::MULT)));
    assert_eq!(20, bp(&Token::OPERATOR(OP::DIV)));
    assert_eq!(30, bp(&Token::OPERATOR(OP::POW)));
    assert_eq!(5, bp(&Token::OPERATOR(OP::EQUALITY)));
    assert_eq!(5, bp(&Token::OPERATOR(OP::GREATER)));
    assert_eq!(5, bp(&Token::OPERATOR(OP::LESS)));
    assert_eq!(5, bp(&Token::OPERATOR(OP::GEQ)));
    assert_eq!(5, bp(&Token::OPERATOR(OP::LEQ)));
    assert_eq!(0, bp(&Token::RPAREN));
    assert_eq!(0, bp(&Token::LPAREN));
    assert_eq!(0, bp(&Token::LITERAL(99)));
    assert_eq!(0, bp(&Token::BOOL(true)));
    assert_eq!(0, bp(&Token::IF));
    assert_eq!(0, bp(&Token::THEN));
    assert_eq!(0, bp(&Token::ELSE));
}

#[test]
fn equal_powers_nest_to_the_right() {
    let tokens = vec![
        Token::LITERAL(1),
        Token::OPERATOR(OP::MINUS),
        Token::LITERAL(2),
        Token::OPERATOR(OP::MINUS),
        Token::LITERAL(3),
    ];
    let inner = E::BINARY(literal(2), OP::MINUS, literal(3));
    assert_eq!(Ok(E::BINARY(literal(1), OP::MINUS, boxx(inner))), parse_all(tokens));
}

#[test]
fn lower_power_nests_to_the_left() {
    let tokens = vec![
        Token::LITERAL(1),
        Token::OPERATOR(OP::MULT),
        Token::LITERAL(2),
        Token::OPERATOR(OP::PLUS),
        Token::LITERAL(3),
    ];
    let inner = E::BINARY(literal(1), OP::MULT, literal(2));
    assert_eq!(Ok(E::BINARY(boxx(inner), OP::PLUS, literal(3))), parse_all(tokens));
}

#[test]
fn comparison_binds_less_than_arithmetic() {
    let tokens = vec![
        Token::LITERAL(1),
        Token::OPERATOR(OP::PLUS),
        Token::LITERAL(2),
        Token::OPERATOR(OP::EQUALITY),
        Token::LITERAL(3),
    ];
    let sum = E::BINARY(literal(1), OP::PLUS, literal(2));
    assert_eq!(Ok(E::BINARY(boxx(sum), OP::EQUALITY, literal(3))), parse_all(tokens));
}

#[test]
fn unary_binds_tighter_than_power() {
    let tokens = vec![
        Token::OPERATOR(OP::MINUS),
        Token::LITERAL(2),
        Token::OPERATOR(OP::POW),
        Token::LITERAL(2),
    ];
    let unary = E::UNARY(OP::MINUS, literal(2));
    assert_eq!(Ok(E::BINARY(boxx(unary), OP::POW, literal(2))), parse_all(tokens));
}

#[test]
fn conditional() {
    let tokens = vec![
        Token::IF,
        Token::LITERAL(1),
        Token::OPERATOR(OP::LESS),
        Token::LITERAL(2),
        Token::THEN,
        Token::LITERAL(3),
        Token::OPERATOR(OP::PLUS),
        Token::LITERAL(4),
        Token::ELSE,
        Token::LITERAL(5),
        Token::OPERATOR(OP::PLUS),
        Token::LITERAL(6),
    ];
    let cond = E::BINARY(literal(1), OP::LESS, literal(2));
    let then = E::BINARY(literal(3), OP::PLUS, literal(4));
    let whole = E::IF(boxx(cond), boxx(then), literal(5));
    assert_eq!(Ok(E::BINARY(boxx(whole), OP::PLUS, literal(6))), parse_all(tokens));
}

#[test]
fn parsing_stops_in_front_of_what_is_no_operator() {
    let tokens = vec![Token::LITERAL(1), Token::RPAREN, Token::LITERAL(2)];
    let mut cursor = Tokens::new(&tokens);
    assert_eq!(Ok(E::LITERAL(1)), expression(&mut cursor, 0));
    assert_eq!(Some(Token::RPAREN), cursor.peek());
    assert_eq!(Some(Token::RPAREN), cursor.next());
    assert_eq!(Ok(E::LITERAL(2)), expression(&mut cursor, 0));
    assert_eq!(None, cursor.peek());
    assert_eq!(None, cursor.next());
}

#[test]
fn parsing_stops_in_front_of_a_weaker_operator() {
    let tokens = vec![
        Token::LITERAL(1),
        Token::OPERATOR(OP::MULT),
        Token::LITERAL(2),
        Token::OPERATOR(OP::PLUS),
        Token::LITERAL(3),
    ];
    let mut cursor = Tokens::new(&tokens);
    let product = E::BINARY(literal(1), OP::MULT, literal(2));
    assert_eq!(Ok(product), expression(&mut cursor, 20));
    assert_eq!(Some(Token::OPERATOR(OP::PLUS)), cursor.peek());
}

#[test]
fn end_of_tokens_where_an_operand_is_due() {
    assert_eq!(Err(ParseError::UnexpectedEnd), parse_all(vec![]));
    assert_eq!(
        Err(ParseError::UnexpectedEnd),
        parse_all(vec![Token::LITERAL(1), Token::OPERATOR(OP::PLUS)])
    );
    assert_eq!(Err(ParseError::UnexpectedEnd), parse_all(vec![Token::OPERATOR(OP::MINUS)]));
    assert_eq!(Err(ParseError::UnexpectedEnd), parse_all(vec![Token::LPAREN]));
    assert_eq!(Err(ParseError::UnexpectedEnd), parse_all(vec![Token::LPAREN, Token::LITERAL(1)]));
    assert_eq!(Err(ParseError::UnexpectedEnd), parse_all(vec![Token::IF, Token::LITERAL(1)]));
    assert_eq!(
        Err(ParseError::UnexpectedEnd),
        parse_all(vec![Token::IF, Token::LITERAL(1), Token::THEN, Token::LITERAL(1)])
    );
    assert_eq!(
        Err(ParseError::UnexpectedEnd),
        parse_all(vec![Token::IF, Token::LITERAL(1), Token::THEN, Token::LITERAL(1), Token::ELSE])
    );
}

#[test]
fn token_that_starts_no_expression() {
    assert_eq!(Err(ParseError::UnexpectedToken(Token::RPAREN)), parse_all(vec![Token::RPAREN]));
    assert_eq!(
        Err(ParseError::UnexpectedToken(Token::BOOL(true))),
        parse_all(vec![Token::BOOL(true)])
    );
    assert_eq!(Err(ParseError::UnexpectedToken(Token::THEN)), parse_all(vec![Token::THEN]));
    assert_eq!(
        Err(ParseError::UnexpectedToken(Token::ELSE)),
        parse_all(vec![Token::LITERAL(1), Token::OPERATOR(OP::PLUS), Token::ELSE])
    );
}

#[test]
fn group_that_is_not_closed() {
    assert_eq!(
        Err(ParseError::MissingRParen),
        parse_all(vec![Token::LPAREN, Token::LITERAL(1), Token::LITERAL(2)])
    );
    assert_eq!(
        Err(ParseError::MissingRParen),
        parse_all(vec![Token::LPAREN, Token::LITERAL(1), Token::THEN])
    );
}

#[test]
fn conditional_without_its_marks() {
    assert_eq!(
        Err(ParseError::MissingThen),
        parse_all(vec![Token::IF, Token::LITERAL(1), Token::ELSE, Token::LITERAL(2)])
    );
    assert_eq!(
        Err(ParseError::MissingElse),
        parse_all(vec![
            Token::IF,
            Token::LITERAL(1),
            Token::THEN,
            Token::LITERAL(2),
            Token::THEN,
            Token::LITERAL(3),
        ])
    );
}

#[test]
fn a_failed_parse_leaves_the_cursor() {
    let tokens = vec![Token::LPAREN, Token::LITERAL(1), Token::OPERATOR(OP::PLUS)];
    let mut cursor = Tokens::new(&tokens);
    assert_eq!(Err(ParseError::UnexpectedEnd), expression(&mut cursor, 0));
    assert_eq!(Some(Token::LPAREN), cursor.peek());
}

#[test]
fn a_tree_and_its_copy_are_equal() {
    let tree = E::IF(
        literal(1),
        boxx(E::UNARY(OP::MINUS, literal(2))),
        boxx(E::PAREN(boxx(E::BINARY(literal(3), OP::POW, literal(4))))),
    );
    assert_eq!(tree, tree.clone());
    assert_eq!(tree, tree.duplicate());
}
