use pratt_calc::tokenizer::{LexError, Token, Tokenizer, OP};

fn lexes_to(input: &str, expected: Vec<Token>) {
    let text = String::from(input);
    let mut tokenizer = Tokenizer::new(&text);
    let res = tokenizer.run();

    assert_eq!(Ok(&expected), res);
}

fn fails_with(input: &str, expected: LexError) {
    let text = String::from(input);
    let mut tokenizer = Tokenizer::new(&text);
    assert_eq!(Err(expected), tokenizer.run());
}

#[test]
fn tokenizer_single_literal() {
    lexes_to("1", vec![Token::LITERAL(1)]);
}

#[test]
fn single_big_literal() {
    lexes_to("123", vec![Token::LITERAL(123)]);
}

#[test]
fn unary_minus_number() {
    let expected = vec![Token::OPERATOR(OP::MINUS), Token::LITERAL(123)];
    lexes_to("-123", expected);
}

#[test]
fn tokenizer_addition() {
    let expected = vec![Token::LITERAL(3), Token::OPERATOR(OP::PLUS), Token::LITERAL(5)];
    lexes_to("3+5", expected);
}

#[test]
fn mult() {
    let expected = vec![Token::LITERAL(5), Token::OPERATOR(OP::MULT), Token::LITERAL(123)];
    lexes_to("5*123", expected);
}

#[test]
fn div() {
    let expected = vec![Token::LITERAL(10), Token::OPERATOR(OP::DIV), Token::LITERAL(2)];
    lexes_to("10/2", expected);
}

#[test]
fn whitespace() {
    let expected = vec![Token::LITERAL(5)];
    lexes_to(" 5", expected);
}

#[test]
fn whitespace_and_addition() {
    let expected = vec![Token::LITERAL(5), Token::OPERATOR(OP::PLUS), Token::LITERAL(10)];
    lexes_to(" 5 +     10", expected);
}

#[test]
fn equality() {
    let expected = vec![Token::LITERAL(10), Token::OPERATOR(OP::EQUALITY), Token::LITERAL(10)];
    lexes_to("10==10", expected);
}

#[test]
fn less() {
    let expected = vec![Token::LITERAL(10), Token::OPERATOR(OP::LESS), Token::LITERAL(9)];
    lexes_to("10 < 9", expected);
}

#[test]
fn greater() {
    let expected = vec![Token::LITERAL(10), Token::OPERATOR(OP::GREATER), Token::LITERAL(11)];
    lexes_to("10 > 11", expected);
}

#[test]
fn less_equal() {
    let expected = vec![Token::LITERAL(10), Token::OPERATOR(OP::LEQ), Token::LITERAL(10)];
    lexes_to("10 <= 10", expected);
}

#[test]
fn greater_equal() {
    let expected = vec![Token::LITERAL(10), Token::OPERATOR(OP::GEQ), Token::LITERAL(11)];
    lexes_to("10 >= 11", expected);
}

#[test]
fn parens() {
    let expected = vec![
        Token::LPAREN,
        Token::LITERAL(2),
        Token::OPERATOR(OP::PLUS),
        Token::LITERAL(5),
        Token::RPAREN,
    ];
    lexes_to("(2 + 5)", expected);
}

#[test]
fn parse_true() {
    let expected = vec![Token::BOOL(true)];
    lexes_to("true", expected);
}

#[test]
fn empty_text_has_no_tokens() {
    lexes_to("", vec![]);
    lexes_to("  \t\n", vec![]);
}

#[test]
fn every_single_character_operator() {
    let expected = vec![
        Token::OPERATOR(OP::PLUS),
        Token::OPERATOR(OP::MINUS),
        Token::OPERATOR(OP::MULT),
        Token::OPERATOR(OP::DIV),
        Token::OPERATOR(OP::POW),
        Token::THEN,
        Token::LPAREN,
        Token::RPAREN,
    ];
    lexes_to("+-*/^|()", expected);
}

#[test]
fn keywords() {
    let expected = vec![
        Token::IF,
        Token::BOOL(true),
        Token::THEN,
        Token::BOOL(false),
        Token::ELSE,
        Token::LITERAL(0),
    ];
    lexes_to("if true | false else 0", expected);
}

#[test]
fn keywords_need_no_space_around_them() {
    let expected = vec![Token::IF, Token::LITERAL(1), Token::ELSE, Token::BOOL(true), Token::IF];
    lexes_to("if1elsetrueif", expected);
}

#[test]
fn comparison_at_the_end_of_the_text() {
    lexes_to("1>", vec![Token::LITERAL(1), Token::OPERATOR(OP::GREATER)]);
    lexes_to("1<", vec![Token::LITERAL(1), Token::OPERATOR(OP::LESS)]);
    lexes_to(">=<=", vec![Token::OPERATOR(OP::GEQ), Token::OPERATOR(OP::LEQ)]);
}

#[test]
fn single_equals_is_refused() {
    fails_with("10=5", LexError::MalformedEquality);
    fails_with("10=", LexError::MalformedEquality);
    fails_with("> =", LexError::MalformedEquality);
}

#[test]
fn misspelled_keywords_are_refused() {
    fails_with("tru", LexError::MalformedKeyword);
    fails_with("trux", LexError::MalformedKeyword);
    fails_with("fals", LexError::MalformedKeyword);
    fails_with("falze", LexError::MalformedKeyword);
    fails_with("i", LexError::MalformedKeyword);
    fails_with("in", LexError::MalformedKeyword);
    fails_with("els", LexError::MalformedKeyword);
    fails_with("elze", LexError::MalformedKeyword);
}

#[test]
fn unknown_characters_are_refused() {
    fails_with("1 + x", LexError::UnrecognizedChar('x'));
    fails_with("#", LexError::UnrecognizedChar('#'));
    fails_with("1 & 2", LexError::UnrecognizedChar('&'));
    fails_with("\u{0663}", LexError::UnrecognizedChar('\u{0663}'));
}

#[test]
fn the_first_failure_is_reported() {
    fails_with("1 = x", LexError::MalformedEquality);
    fails_with("x = 1", LexError::UnrecognizedChar('x'));
}

#[test]
fn unicode_whitespace_is_skipped() {
    let expected = vec![Token::LITERAL(1), Token::OPERATOR(OP::PLUS), Token::LITERAL(2)];
    lexes_to("1\u{00A0}+\u{2003}2\u{3000}", expected);
    lexes_to("\u{0085}1\u{1680}+\u{2028}\u{2029}2\u{202F}\u{205F}\r\u{000B}\u{000C}", vec![
        Token::LITERAL(1),
        Token::OPERATOR(OP::PLUS),
        Token::LITERAL(2),
    ]);
}

#[test]
fn characters_next_to_whitespace_are_not_whitespace() {
    fails_with("\u{0008}", LexError::UnrecognizedChar('\u{0008}'));
    fails_with("\u{000E}", LexError::UnrecognizedChar('\u{000E}'));
    fails_with("\u{200B}", LexError::UnrecognizedChar('\u{200B}'));
    fails_with("\u{180E}", LexError::UnrecognizedChar('\u{180E}'));
    fails_with("\u{1FFF}", LexError::UnrecognizedChar('\u{1FFF}'));
}

#[test]
fn whitespace_agrees_with_the_standard_library() {
    let mut code: u32 = 0;
    while code <= 0x3100 {
        if let Some(c) = char::from_u32(code) {
            let text = String::from(c);
            let mut tokenizer = Tokenizer::new(&text);
            let skipped = tokenizer.run() == Ok(&vec![]);
            assert_eq!(c.is_whitespace(), skipped, "U+{:04X}", code);
        }
        code += 1;
    }
}

#[test]
fn leading_zeros_do_not_change_a_literal() {
    lexes_to("007", vec![Token::LITERAL(7)]);
    lexes_to("0000000000000000000042", vec![Token::LITERAL(42)]);
    lexes_to("0", vec![Token::LITERAL(0)]);
}

#[test]
fn largest_literal() {
    lexes_to("4294967295", vec![Token::LITERAL(4294967295)]);
    lexes_to("2147483648", vec![Token::LITERAL(2147483648)]);
}

#[test]
fn literal_beyond_the_width_is_refused() {
    fails_with("4294967296", LexError::LiteralOverflow);
    fails_with("99999999999999999999999999", LexError::LiteralOverflow);
    fails_with("1 + 4294967296 x", LexError::LiteralOverflow);
}

#[test]
fn digits_lex_to_their_decimal_value() {
    let mut value: u32 = 0;
    while value < 100000 {
        let text = format!("{}", value);
        let mut tokenizer = Tokenizer::new(&text);
        assert_eq!(Ok(&vec![Token::LITERAL(value)]), tokenizer.run());
        value = value * 3 + 1;
    }
}

#[test]
fn run_again_adds_nothing() {
    let text = String::from("1 + 2");
    let mut tokenizer = Tokenizer::new(&text);
    let expected = vec![Token::LITERAL(1), Token::OPERATOR(OP::PLUS), Token::LITERAL(2)];
    assert_eq!(Ok(&expected), tokenizer.run());
    assert_eq!(Ok(&expected), tokenizer.run());
}

#[test]
fn a_failed_run_keeps_nothing() {
    let text = String::from("1 + 2 ?");
    let mut tokenizer = Tokenizer::new(&text);
    assert_eq!(Err(LexError::UnrecognizedChar('?')), tokenizer.run());
    assert_eq!(Err(LexError::UnrecognizedChar('?')), tokenizer.run());
}
