//! Laws of the language as a whole: what lexing, parsing and evaluation
//! together make of a text.

use vstd::prelude::*;
use crate::lex_laws::{apart, is_blank, lemma_lex_blank, lemma_lex_concat};
use crate::parse_laws::{lemma_parenthesized, lemma_parse_operation};
use crate::pratt::{parse_expression, ParseError, E, LOWEST_POWER};
use crate::resolver::{apply_binary, evaluate, power, EvalError};
use crate::tokenizer::{
    decimal_value, is_number, lemma_lex_digits, lex, lex_from, LexError, Token, OP,
};

verus! {

/// The operators of arithmetic.
pub open spec fn is_arithmetic(op: OP) -> bool {
    op == OP::PLUS || op == OP::MINUS || op == OP::MULT || op == OP::DIV || op == OP::POW
}

/// The character that an operator of arithmetic is written with.
pub open spec fn symbol(op: OP) -> char
    recommends
        is_arithmetic(op),
{
    match op {
        OP::PLUS => '+',
        OP::MINUS => '-',
        OP::MULT => '*',
        OP::DIV => '/',
        _ => '^',
    }
}

/// Grouping changes no value: a tree in parentheses evaluates as the tree
/// itself does.
pub proof fn lemma_paren_keeps_value(e: E)
    ensures
        evaluate(E::PAREN(Box::new(e))) == evaluate(e),
{
}

/// A conditional is evaluated by its condition and one branch. Where the
/// condition is 1 its value is that of the first branch, whatever the second
/// holds, be it a failure; where the condition is another number its value
/// is that of the second branch, whatever the first holds.
pub proof fn lemma_conditional_takes_one_branch(cond: E, then: E, otherwise: E)
    ensures
        evaluate(cond) == Ok::<int, EvalError>(1) ==> evaluate(
            E::IF(Box::new(cond), Box::new(then), Box::new(otherwise)),
        ) == evaluate(then),
        (evaluate(cond) matches Ok(c) && c != 1) ==> evaluate(
            E::IF(Box::new(cond), Box::new(then), Box::new(otherwise)),
        ) == evaluate(otherwise),
        evaluate(cond) is Err ==> evaluate(
            E::IF(Box::new(cond), Box::new(then), Box::new(otherwise)),
        ) == evaluate(cond),
{
}

/// A power is a repeated multiplication: the power to 0 is 1, and each
/// further step of the exponent multiplies by the base once more.
pub proof fn lemma_power_is_repeated_multiplication(base: int, exp: nat)
    ensures
        power(base, 0) == 1,
        power(base, exp + 1) == base * power(base, exp),
{
}

/// A binary operator between two literals evaluates to what the operator
/// gives on the literals' numbers.
pub proof fn lemma_operation_on_literals(a: u32, op: OP, b: u32)
    requires
        a <= i32::MAX,
        b <= i32::MAX,
    ensures
        evaluate(E::BINARY(Box::new(E::LITERAL(a)), op, Box::new(E::LITERAL(b)))) == apply_binary(
            op,
            a as int,
            b as int,
        ),
{
    reveal_with_fuel(evaluate, 2);
}

/// A number, an operator of arithmetic and a number, with or without
/// whitespace around the operator, lex to three tokens: the literal of the
/// first number's value, the operator, and the literal of the second
/// number's value.
pub proof fn lemma_lex_operation(
    left: Seq<char>,
    before: Seq<char>,
    op: OP,
    after: Seq<char>,
    right: Seq<char>,
)
    requires
        is_number(left),
        is_number(right),
        is_blank(before),
        is_blank(after),
        is_arithmetic(op),
        decimal_value(left) <= u32::MAX,
        decimal_value(right) <= u32::MAX,
    ensures
        lex(left + before + seq![symbol(op)] + after + right) == Ok::<Seq<Token>, LexError>(
            seq![
                Token::LITERAL(decimal_value(left) as u32),
                Token::OPERATOR(op),
                Token::LITERAL(decimal_value(right) as u32),
            ],
        ),
{
    let sign = seq![symbol(op)];
    let first = Token::LITERAL(decimal_value(left) as u32);
    let third = Token::LITERAL(decimal_value(right) as u32);
    lemma_lex_digits(left);
    lemma_lex_digits(right);
    lemma_lex_blank(before);
    lemma_lex_blank(after);
    assert(lex(sign) == Ok::<Seq<Token>, LexError>(seq![Token::OPERATOR(op)])) by {
        assert(lex_from(sign, 1) == Ok::<Seq<Token>, LexError>(Seq::empty()));
    }
    let tail = after + right;
    assert(apart(after, right));
    lemma_lex_concat(after, right);
    let signed = sign + tail;
    lemma_lex_concat(sign, tail);
    assert(seq![Token::OPERATOR(op)] + seq![third] =~= seq![Token::OPERATOR(op), third]);
    let spaced = before + signed;
    assert(apart(before, signed));
    lemma_lex_concat(before, signed);
    assert(apart(left, spaced));
    lemma_lex_concat(left, spaced);
    assert(seq![first] + seq![Token::OPERATOR(op), third] =~= seq![
        first,
        Token::OPERATOR(op),
        third,
    ]);
    assert(left + spaced =~= left + before + sign + after + right);
}

/// Arithmetic on two numbers, from text to value: the text of a number, an
/// operator of arithmetic and a number, with or without whitespace around the
/// operator, lexes, parses to the end of its tokens, and evaluates to what the
/// operator gives on the two numbers: their sum, difference or product,
/// their quotient rounded toward zero, or the first multiplied by itself as
/// often as the second says. `Overflow` comes exactly where that result does
/// not fit in `i32`, and `DivisionByZero` where the divisor is 0.
pub proof fn lemma_arithmetic_from_text(
    left: Seq<char>,
    before: Seq<char>,
    op: OP,
    after: Seq<char>,
    right: Seq<char>,
)
    requires
        is_number(left),
        is_number(right),
        is_blank(before),
        is_blank(after),
        is_arithmetic(op),
        decimal_value(left) <= i32::MAX,
        decimal_value(right) <= i32::MAX,
    ensures
        lex(left + before + seq![symbol(op)] + after + right) matches Ok(tokens)
            && parse_expression(tokens, 0, LOWEST_POWER) matches Ok((tree, n)) && n
            == tokens.len() && evaluate(tree) == apply_binary(
            op,
            decimal_value(left) as int,
            decimal_value(right) as int,
        ),
{
    lemma_lex_operation(left, before, op, after, right);
    lemma_parse_operation(decimal_value(left) as u32, op, decimal_value(right) as u32);
    lemma_operation_on_literals(decimal_value(left) as u32, op, decimal_value(right) as u32);
}

/// Parentheses around a whole text: where a text lexes and its tokens
/// parse, to their end, as the tree `e`, the text between `(` and `)` lexes
/// and parses, to the end, as `e` in parentheses, and has the value of `e`.
pub proof fn lemma_parenthesized_text(text: Seq<char>, e: E)
    requires
        lex(text) matches Ok(ts) && parse_expression(ts, 0, LOWEST_POWER) == Ok::<
            (E, nat),
            ParseError,
        >((e, ts.len())),
    ensures
        lex(seq!['('] + text + seq![')']) matches Ok(ts) && parse_expression(
            ts,
            0,
            LOWEST_POWER,
        ) == Ok::<(E, nat), ParseError>((E::PAREN(Box::new(e)), ts.len())),
        evaluate(E::PAREN(Box::new(e))) == evaluate(e),
{
    let ts = lex(text)->Ok_0;
    let open = seq!['('];
    let close = seq![')'];
    assert(lex(close) == Ok::<Seq<Token>, LexError>(seq![Token::RPAREN])) by {
        assert(lex_from(close, 1) == Ok::<Seq<Token>, LexError>(Seq::empty()));
    }
    assert(lex(open) == Ok::<Seq<Token>, LexError>(seq![Token::LPAREN])) by {
        assert(lex_from(open, 1) == Ok::<Seq<Token>, LexError>(Seq::empty()));
    }
    lemma_lex_concat(text, close);
    lemma_lex_concat(open, text + close);
    assert(open + (text + close) =~= open + text + close);
    assert(seq![Token::LPAREN] + (ts + seq![Token::RPAREN]) =~= seq![Token::LPAREN] + ts
        + seq![Token::RPAREN]);
    lemma_parenthesized(ts, e);
}

} // verus!
