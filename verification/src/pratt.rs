//! Expression parser by operator precedence (Pratt parsing).
//!
//! The grammar is given by spec functions that call each other:
//! [`parse_prefix`] reads what can start an expression (with
//! [`parse_branches`] for the branches of a conditional), [`parse_infix`]
//! extends a left operand by the binary operators that follow it, and
//! [`parse_expression`] is one after the other. [`expression`] is proved to
//! compute exactly [`parse_expression`].
//!
//! Binding powers: comparisons 5, `+` and `-` 10, `*` and `/` 20, `^` 30, and
//! 80 for the operand of a prefix operator.
//!
//! Associativity is a stated policy: the right operand of a binary operator is
//! parsed at the operator's own binding power, so a chain of operators of
//! equal power nests to the right (`a - b - c` is `a - (b - c)`).

use vstd::prelude::*;
use crate::tokenizer::{Token, OP};

verus! {

/// An expression tree. Every node owns its children.
#[derive(PartialEq, Eq, Debug)]
pub enum E {
    LITERAL(u32),
    UNARY(OP, Box<E>),
    BINARY(Box<E>, OP, Box<E>),
    PAREN(Box<E>),
    /// Condition, branch taken when it holds, branch taken when it does not.
    IF(Box<E>, Box<E>, Box<E>),
}

impl E {
    /// A copy of the whole tree.
    pub fn duplicate(&self) -> (copy: E)
        ensures
            copy == *self,
        decreases self,
    {
        match self {
            E::LITERAL(v) => E::LITERAL(*v),
            E::UNARY(op, operand) => E::UNARY(*op, Box::new(operand.duplicate())),
            E::BINARY(left, op, right) => E::BINARY(
                Box::new(left.duplicate()),
                *op,
                Box::new(right.duplicate()),
            ),
            E::PAREN(inner) => E::PAREN(Box::new(inner.duplicate())),
            E::IF(cond, then, otherwise) => E::IF(
                Box::new(cond.duplicate()),
                Box::new(then.duplicate()),
                Box::new(otherwise.duplicate()),
            ),
        }
    }
}

impl Clone for E {
    fn clone(&self) -> (copy: Self)
        ensures
            copy == *self,
    {
        self.duplicate()
    }
}

/// Why a token sequence could not be parsed.
#[derive(Clone, Copy, PartialEq, Eq, Debug, Structural)]
pub enum ParseError {
    /// The tokens ended where an operand, `)`, `|` or `else` had to follow.
    UnexpectedEnd,
    /// A token that cannot start an expression; it is carried along.
    UnexpectedToken(Token),
    /// A group was opened and something other than `)` follows its content.
    MissingRParen,
    /// Something other than `|` follows the condition of an `if`.
    MissingThen,
    /// Something other than `else` follows the first branch of an `if`.
    MissingElse,
}

/// The power with which an operand of a prefix operator, and the last branch
/// of a conditional, is parsed: higher than that of every binary operator.
pub const UNARY_POWER: u8 = 80;

/// The lowest power: an expression parsed with it takes every binary
/// operator that follows.
pub const LOWEST_POWER: u8 = 0;

/// How tightly an operator binds its operands when it stands between them.
pub open spec fn binding_power(op: OP) -> u8 {
    match op {
        OP::EQUALITY | OP::GREATER | OP::LESS | OP::GEQ | OP::LEQ => 5,
        OP::PLUS | OP::MINUS => 10,
        OP::MULT | OP::DIV => 20,
        OP::POW => 30,
    }
}

/// The binding power of a token: that of its operator, and 0 for a token
/// that is no operator and so never binds anything.
pub open spec fn token_power(token: Token) -> u8 {
    match token {
        Token::OPERATOR(op) => binding_power(op),
        _ => 0,
    }
}

/// The outcome of parsing from some position: the expression and the number
/// of tokens it is made of, or the failure.
pub type Parsed = Result<(E, nat), ParseError>;

/// The same outcome, counted from `by` tokens earlier.
pub open spec fn advance(parsed: Parsed, by: nat) -> Parsed {
    match parsed {
        Ok((e, n)) => Ok((e, n + by)),
        Err(failure) => Err(failure),
    }
}

/// The number of tokens from `pos` to the end.
pub open spec fn remaining(ts: Seq<Token>, pos: int) -> nat {
    if 0 <= pos <= ts.len() {
        (ts.len() - pos) as nat
    } else {
        0
    }
}

/// Asks for the token `wanted` at `pos`: the end of the tokens is
/// `UnexpectedEnd`, another token is `missing`.
pub open spec fn require_token(ts: Seq<Token>, pos: int, wanted: Token, missing: ParseError)
    -> Result<(), ParseError> {
    if !(0 <= pos < ts.len()) {
        Err(ParseError::UnexpectedEnd)
    } else if ts[pos] == wanted {
        Ok(())
    } else {
        Err(missing)
    }
}

/// What can start an expression at `pos`: a literal, a prefix operator with
/// its operand, a group in parentheses, or a conditional.
pub open spec fn parse_prefix(ts: Seq<Token>, pos: int) -> Parsed
    decreases remaining(ts, pos), 1int,
{
    if !(0 <= pos < ts.len()) {
        Err(ParseError::UnexpectedEnd)
    } else {
        match ts[pos] {
            Token::LITERAL(v) => Ok((E::LITERAL(v), 1)),
            Token::OPERATOR(op) => match parse_expression(ts, pos + 1, UNARY_POWER) {
                Ok((operand, n)) => Ok((E::UNARY(op, Box::new(operand)), 1 + n)),
                Err(failure) => Err(failure),
            },
            Token::LPAREN => match parse_expression(ts, pos + 1, LOWEST_POWER) {
                Ok((inner, n)) => match require_token(
                    ts,
                    pos + 1 + n,
                    Token::RPAREN,
                    ParseError::MissingRParen,
                ) {
                    Ok(_) => Ok((E::PAREN(Box::new(inner)), 1 + n + 1)),
                    Err(failure) => Err(failure),
                },
                Err(failure) => Err(failure),
            },
            Token::IF => match parse_expression(ts, pos + 1, LOWEST_POWER) {
                Ok((cond, n)) => match require_token(
                    ts,
                    pos + 1 + n,
                    Token::THEN,
                    ParseError::MissingThen,
                ) {
                    Ok(_) => advance(parse_branches(ts, pos + 1 + n + 1, cond), 1 + n + 1),
                    Err(failure) => Err(failure),
                },
                Err(failure) => Err(failure),
            },
            other => Err(ParseError::UnexpectedToken(other)),
        }
    }
}

/// The two branches of a conditional whose condition `cond` and `|` end in
/// front of `pos`. The first branch ends at `else` and is
/// parsed at the lowest power; the second has no end mark and is parsed at
/// the power of a prefix operand, so that a binary operator behind it applies
/// to the conditional as a whole.
pub open spec fn parse_branches(ts: Seq<Token>, pos: int, cond: E) -> Parsed
    decreases remaining(ts, pos), 3int,
{
    if !(0 <= pos < ts.len()) {
        Err(ParseError::UnexpectedEnd)
    } else {
        match parse_expression(ts, pos, LOWEST_POWER) {
            Ok((then, n)) => match require_token(
                ts,
                pos + n,
                Token::ELSE,
                ParseError::MissingElse,
            ) {
                Ok(_) => match parse_expression(ts, pos + n + 1, UNARY_POWER) {
                    Ok((otherwise, m)) => Ok(
                        (
                            E::IF(Box::new(cond), Box::new(then), Box::new(otherwise)),
                            n + 1 + m,
                        ),
                    ),
                    Err(failure) => Err(failure),
                },
                Err(failure) => Err(failure),
            },
            Err(failure) => Err(failure),
        }
    }
}

/// Extends the left operand `lhs`, which ends in front of `pos`, by the
/// binary operators that follow, as long as their power is not lower than
/// `min`. Stops, with success, at the end of the tokens, at a token that is
/// no operator, and at an operator of lower power.
pub open spec fn parse_infix(ts: Seq<Token>, lhs: E, pos: int, min: u8) -> Parsed
    decreases remaining(ts, pos), 0int,
{
    if !(0 <= pos < ts.len()) {
        Ok((lhs, 0))
    } else {
        match ts[pos] {
            Token::OPERATOR(op) => if binding_power(op) < min {
                Ok((lhs, 0))
            } else {
                match parse_expression(ts, pos + 1, binding_power(op)) {
                    Ok((rhs, n)) => advance(
                        parse_infix(
                            ts,
                            E::BINARY(Box::new(lhs), op, Box::new(rhs)),
                            pos + 1 + n,
                            min,
                        ),
                        1 + n,
                    ),
                    Err(failure) => Err(failure),
                }
            },
            _ => Ok((lhs, 0)),
        }
    }
}

/// The expression that starts at `pos` and takes no binary operator of a
/// power lower than `min`.
pub open spec fn parse_expression(ts: Seq<Token>, pos: int, min: u8) -> Parsed
    decreases remaining(ts, pos), 2int,
{
    if !(0 <= pos < ts.len()) {
        Err(ParseError::UnexpectedEnd)
    } else {
        match parse_prefix(ts, pos) {
            Ok((lhs, n)) => advance(parse_infix(ts, lhs, pos + n, min), n),
            Err(failure) => Err(failure),
        }
    }
}

/// The binary operator at `pos` and its right operand, joined to the left
/// operand `lhs`. The right operand is parsed at the operator's own power.
pub open spec fn parse_operation(ts: Seq<Token>, lhs: E, pos: int) -> Parsed {
    if !(0 <= pos < ts.len()) {
        Err(ParseError::UnexpectedEnd)
    } else {
        match ts[pos] {
            Token::OPERATOR(op) => match parse_expression(ts, pos + 1, binding_power(op)) {
                Ok((rhs, n)) => Ok((E::BINARY(Box::new(lhs), op, Box::new(rhs)), 1 + n)),
                Err(failure) => Err(failure),
            },
            other => Err(ParseError::UnexpectedToken(other)),
        }
    }
}

/// How a parsing function answers to an outcome: with the expression, and
/// the cursor moved from `before` to behind the expression's tokens; or with
/// the failure, and the cursor left at `before`.
pub open spec fn hands_back(r: Result<E, ParseError>, before: nat, after: nat, outcome: Parsed)
    -> bool {
    match outcome {
        Ok((e, n)) => r == Ok::<E, ParseError>(e) && after == before + n,
        Err(failure) => r == Err::<E, ParseError>(failure) && after == before,
    }
}

/// What a token cursor holds: the tokens, and how many of them were taken.
pub struct TokensView {
    pub tokens: Seq<Token>,
    pub pos: nat,
}

/// A cursor over a token sequence: the tokens in front of it were taken,
/// the one at it can be looked at before it is taken.
#[derive(Debug)]
pub struct Tokens<'a> {
    tokens: &'a Vec<Token>,
    pos: usize,
}

impl<'a> View for Tokens<'a> {
    type V = TokensView;

    closed spec fn view(&self) -> TokensView {
        TokensView { tokens: self.tokens@, pos: self.pos as nat }
    }
}

impl<'a> Tokens<'a> {
    /// The cursor stands within the tokens or at their end.
    pub open spec fn wf(&self) -> bool {
        self@.pos <= self@.tokens.len()
    }

    /// A cursor in front of the first of `tokens`.
    pub fn new(tokens: &'a Vec<Token>) -> (cursor: Tokens<'a>)
        ensures
            cursor.wf(),
            cursor@.tokens == tokens@,
            cursor@.pos == 0,
    {
        Tokens { tokens, pos: 0 }
    }

    /// The token at the cursor, if there is one; the cursor stays.
    pub fn peek(&self) -> (token: Option<Token>)
        ensures
            token == (if self@.pos < self@.tokens.len() {
                Some(self@.tokens[self@.pos as int])
            } else {
                None
            }),
    {
        if self.pos < self.tokens.len() {
            Some(self.tokens[self.pos])
        } else {
            None
        }
    }

    /// Takes the token at the cursor, if there is one.
    pub fn next(&mut self) -> (token: Option<Token>)
        requires
            old(self).wf(),
        ensures
            final(self).wf(),
            final(self)@.tokens == old(self)@.tokens,
            token == (if old(self)@.pos < old(self)@.tokens.len() {
                Some(old(self)@.tokens[old(self)@.pos as int])
            } else {
                None
            }),
            final(self)@.pos == (if old(self)@.pos < old(self)@.tokens.len() {
                old(self)@.pos + 1
            } else {
                old(self)@.pos
            }),
    {
        if self.pos < self.tokens.len() {
            let token = self.tokens[self.pos];
            self.pos = self.pos + 1;
            Some(token)
        } else {
            None
        }
    }

    /// Takes the token at the cursor if it is `wanted`; fails, and leaves the
    /// cursor, if the tokens have ended or another token stands there.
    fn require(&mut self, wanted: Token, missing: ParseError) -> (r: Result<(), ParseError>)
        requires
            old(self).wf(),
        ensures
            final(self).wf(),
            final(self)@.tokens == old(self)@.tokens,
            r == require_token(old(self)@.tokens, old(self)@.pos as int, wanted, missing),
            final(self)@.pos == (if r is Ok {
                old(self)@.pos + 1
            } else {
                old(self)@.pos
            }),
    {
        match self.peek() {
            None => Err(ParseError::UnexpectedEnd),
            Some(token) => {
                if token == wanted {
                    assert(self.pos < self.tokens.len());
                    self.pos = self.pos + 1;
                    Ok(())
                } else {
                    Err(missing)
                }
            },
        }
    }
}

/// The binding power of `token`.
pub fn bp(token: &Token) -> (power: u8)
    ensures
        power == token_power(*token),
{
    match token {
        Token::OPERATOR(op) => match op {
            OP::EQUALITY | OP::GREATER | OP::LESS | OP::GEQ | OP::LEQ => 5,
            OP::PLUS | OP::MINUS => 10,
            OP::MULT | OP::DIV => 20,
            OP::POW => 30,
        },
        _ => 0,
    }
}

/// Parses one expression at the cursor, taking the binary operators whose
/// power is at least `prev_bp`.
///
/// On success the cursor stands behind the expression's last token. On failure
/// the cursor is left where it was.
pub fn expression(tokens: &mut Tokens, prev_bp: u8) -> (r: Result<E, ParseError>)
    requires
        old(tokens).wf(),
    ensures
        final(tokens).wf(),
        final(tokens)@.tokens == old(tokens)@.tokens,
        hands_back(
            r,
            old(tokens)@.pos,
            final(tokens)@.pos,
            parse_expression(old(tokens)@.tokens, old(tokens)@.pos as int, prev_bp),
        ),
    decreases remaining(old(tokens)@.tokens, old(tokens)@.pos as int), 2int,
{
    let ghost ts = tokens@.tokens;
    let start = tokens.pos;
    let mut lhs = match nud(tokens) {
        Ok(e) => e,
        Err(failure) => {
            return Err(failure);
        },
    };
    loop
        invariant
            tokens.wf(),
            tokens@.tokens == ts,
            ts == old(tokens)@.tokens,
            start == old(tokens)@.pos,
            start < ts.len(),
            start <= tokens.pos,
            parse_expression(ts, start as int, prev_bp) == advance(
                parse_infix(ts, lhs, tokens.pos as int, prev_bp),
                (tokens.pos - start) as nat,
            ),
        ensures
            tokens.wf(),
            tokens@.tokens == ts,
            start <= tokens.pos,
            parse_expression(ts, start as int, prev_bp) == Ok::<(E, nat), ParseError>(
                (lhs, (tokens.pos - start) as nat),
            ),
        decreases remaining(ts, tokens.pos as int),
    {
        let next = match tokens.peek() {
            Some(next) => next,
            None => {
                break ;
            },
        };
        if !matches!(next, Token::OPERATOR(_)) || bp(&next) < prev_bp {
            break ;
        }
        lhs = match led(lhs, tokens) {
            Ok(e) => e,
            Err(failure) => {
                tokens.pos = start;
                return Err(failure);
            },
        };
    }
    Ok(lhs)
}

/// Parses what can start an expression at the cursor.
fn nud(tokens: &mut Tokens) -> (r: Result<E, ParseError>)
    requires
        old(tokens).wf(),
    ensures
        final(tokens).wf(),
        final(tokens)@.tokens == old(tokens)@.tokens,
        hands_back(
            r,
            old(tokens)@.pos,
            final(tokens)@.pos,
            parse_prefix(old(tokens)@.tokens, old(tokens)@.pos as int),
        ),
    decreases remaining(old(tokens)@.tokens, old(tokens)@.pos as int), 1int,
{
    let start = tokens.pos;
    let parsed = match tokens.next() {
        None => Err(ParseError::UnexpectedEnd),
        Some(Token::LITERAL(v)) => Ok(E::LITERAL(v)),
        Some(Token::OPERATOR(op)) => match expression(tokens, UNARY_POWER) {
            Ok(operand) => Ok(E::UNARY(op, Box::new(operand))),
            Err(failure) => Err(failure),
        },
        Some(Token::LPAREN) => match expression(tokens, LOWEST_POWER) {
            Ok(inner) => match tokens.require(Token::RPAREN, ParseError::MissingRParen) {
                Ok(_) => Ok(E::PAREN(Box::new(inner))),
                Err(failure) => Err(failure),
            },
            Err(failure) => Err(failure),
        },
        Some(Token::IF) => match expression(tokens, LOWEST_POWER) {
            Ok(cond) => match tokens.require(Token::THEN, ParseError::MissingThen) {
                Ok(_) => branches(cond, tokens),
                Err(failure) => Err(failure),
            },
            Err(failure) => Err(failure),
        },
        Some(other) => Err(ParseError::UnexpectedToken(other)),
    };
    if parsed.is_err() {
        tokens.pos = start;
    }
    parsed
}

/// Parses the two branches of a conditional whose condition, `cond`, and
/// `|` were taken.
fn branches(cond: E, tokens: &mut Tokens) -> (r: Result<E, ParseError>)
    requires
        old(tokens).wf(),
    ensures
        final(tokens).wf(),
        final(tokens)@.tokens == old(tokens)@.tokens,
        hands_back(
            r,
            old(tokens)@.pos,
            final(tokens)@.pos,
            parse_branches(old(tokens)@.tokens, old(tokens)@.pos as int, cond),
        ),
    decreases remaining(old(tokens)@.tokens, old(tokens)@.pos as int), 3int,
{
    let start = tokens.pos;
    let parsed = match expression(tokens, LOWEST_POWER) {
        Ok(then) => match tokens.require(Token::ELSE, ParseError::MissingElse) {
            Ok(_) => match expression(tokens, UNARY_POWER) {
                Ok(otherwise) => Ok(E::IF(Box::new(cond), Box::new(then), Box::new(otherwise))),
                Err(failure) => Err(failure),
            },
            Err(failure) => Err(failure),
        },
        Err(failure) => Err(failure),
    };
    if parsed.is_err() {
        tokens.pos = start;
    }
    parsed
}

/// Takes the binary operator at the cursor and its right operand, and joins
/// them to the left operand `left`.
fn led(left: E, tokens: &mut Tokens) -> (r: Result<E, ParseError>)
    requires
        old(tokens).wf(),
    ensures
        final(tokens).wf(),
        final(tokens)@.tokens == old(tokens)@.tokens,
        hands_back(
            r,
            old(tokens)@.pos,
            final(tokens)@.pos,
            parse_operation(old(tokens)@.tokens, left, old(tokens)@.pos as int),
        ),
    decreases remaining(old(tokens)@.tokens, old(tokens)@.pos as int), 0int,
{
    let start = tokens.pos;
    let parsed = match tokens.next() {
        None => Err(ParseError::UnexpectedEnd),
        Some(Token::OPERATOR(operator)) => {
            let power = bp(&Token::OPERATOR(operator));
            match expression(tokens, power) {
                Ok(right) => Ok(E::BINARY(Box::new(left), operator, Box::new(right))),
                Err(failure) => Err(failure),
            }
        },
        Some(other) => Err(ParseError::UnexpectedToken(other)),
    };
    if parsed.is_err() {
        tokens.pos = start;
    }
    parsed
}

} // verus!
