//! Expression parser by shifting and reducing.
//!
//! The parser keeps a stack of symbols. It shifts one token at a time onto the
//! stack and, after each, reduces the top of the stack as often as it can:
//! an expression, an operator and an expression become one expression, and
//! an expression in parentheses becomes one expression. It holds a reduction
//! back while the token to come is an operator that binds more tightly than
//! the operator on the stack. A chain of operators of equal precedence
//! therefore nests to the left (`a + b + c` is `(a + b) + c`).
//!
//! [`drive`] says where the parser ends from any state, and [`Parser::run`]
//! is proved to end there.

use vstd::prelude::*;
use crate::pratt::{Tokens, E};
use crate::tokenizer::{Token, OP};

verus! {

/// A symbol on the parse stack.
#[derive(PartialEq, Eq, Debug)]
pub enum Type {
    EXPRESSION(E),
    LITERAL(u32),
    OP(OP),
    LPAREN,
    RPAREN,
}

/// Why a token sequence could not be parsed.
#[derive(Clone, Copy, PartialEq, Eq, Debug, Structural)]
pub enum ShiftError {
    /// A token that this parser has no symbol for; it is carried along.
    Unsupported(Token),
    /// The tokens were all shifted and the stack is not one expression.
    Malformed,
}

impl OP {
    /// The operator of a token that is `+`, `-`, `*` or `/`.
    pub fn from(token: &Token) -> (op: Option<OP>)
        ensures
            op == match *token {
                Token::OPERATOR(OP::PLUS) => Some(OP::PLUS),
                Token::OPERATOR(OP::MINUS) => Some(OP::MINUS),
                Token::OPERATOR(OP::MULT) => Some(OP::MULT),
                Token::OPERATOR(OP::DIV) => Some(OP::DIV),
                _ => None,
            },
    {
        match token {
            Token::OPERATOR(OP::PLUS) => Some(OP::PLUS),
            Token::OPERATOR(OP::MINUS) => Some(OP::MINUS),
            Token::OPERATOR(OP::MULT) => Some(OP::MULT),
            Token::OPERATOR(OP::DIV) => Some(OP::DIV),
            _ => None,
        }
    }
}

/// The symbol that a token is shifted as, if the parser has one for it.
pub open spec fn symbol_of(token: Token) -> Option<Type> {
    match token {
        Token::LITERAL(v) => Some(Type::EXPRESSION(E::LITERAL(v))),
        Token::OPERATOR(OP::PLUS) => Some(Type::OP(OP::PLUS)),
        Token::OPERATOR(OP::MULT) => Some(Type::OP(OP::MULT)),
        Token::OPERATOR(OP::POW) => Some(Type::OP(OP::POW)),
        Token::LPAREN => Some(Type::LPAREN),
        Token::RPAREN => Some(Type::RPAREN),
        _ => None,
    }
}

/// The precedence of the operators that have one: the higher, the tighter.
pub open spec fn precedence(op: OP) -> Option<u8> {
    match op {
        OP::PLUS | OP::MINUS => Some(1u8),
        OP::MULT => Some(2u8),
        OP::POW => Some(3u8),
        _ => None,
    }
}

/// Whether a reduction has to wait: the token to come is an operator that
/// binds more tightly than the operator just below the top of the stack.
pub open spec fn must_wait(ts: Seq<Token>, stack: Seq<Type>, pos: int) -> bool {
    &&& stack.len() >= 2
    &&& 0 <= pos < ts.len()
    &&& ts[pos] matches Token::OPERATOR(coming)
    &&& stack[stack.len() - 2] matches Type::OP(lying)
    &&& precedence(coming) matches Some(new)
    &&& precedence(lying) matches Some(old)
    &&& new > old
}

/// The expression that the three symbols on top of the stack reduce to, if
/// they form one.
pub open spec fn reduct(stack: Seq<Type>) -> Option<E> {
    if stack.len() < 3 {
        None
    } else {
        match (stack[stack.len() - 3], stack[stack.len() - 2], stack[stack.len() - 1]) {
            (Type::EXPRESSION(left), Type::OP(op), Type::EXPRESSION(right)) => Some(
                E::BINARY(Box::new(left), op, Box::new(right)),
            ),
            (Type::LPAREN, Type::EXPRESSION(inner), Type::RPAREN) => Some(
                E::PAREN(Box::new(inner)),
            ),
            _ => None,
        }
    }
}

/// The stack after one reduction, if one is due.
pub open spec fn reduce_once(ts: Seq<Token>, stack: Seq<Type>, pos: int) -> Option<Seq<Type>> {
    if must_wait(ts, stack, pos) {
        None
    } else {
        match reduct(stack) {
            Some(e) => Some(stack.take(stack.len() - 3).push(Type::EXPRESSION(e))),
            None => None,
        }
    }
}

/// The stack after every reduction that is due.
pub open spec fn reduce_all(ts: Seq<Token>, stack: Seq<Type>, pos: int) -> Seq<Type>
    decreases stack.len(),
{
    match reduce_once(ts, stack, pos) {
        Some(reduced) => reduce_all(ts, reduced, pos),
        None => stack,
    }
}

/// Where a parser ends.
pub struct Halt {
    /// The stack it is left with.
    pub stack: Seq<Type>,
    /// How many tokens it has shifted.
    pub pos: int,
    /// The token it could not shift, if it met one.
    pub refused: Option<Token>,
}

/// Where the parser ends from the stack `stack` with `pos` tokens shifted:
/// it shifts each token and reduces after it, reduces once more when no
/// token is left, and stops early in front of a token it has no symbol for.
pub open spec fn drive(ts: Seq<Token>, stack: Seq<Type>, pos: int) -> Halt
    decreases ts.len() - pos,
{
    if !(0 <= pos < ts.len()) {
        Halt { stack: reduce_all(ts, stack, pos), pos, refused: None }
    } else {
        match symbol_of(ts[pos]) {
            Some(symbol) => drive(ts, reduce_all(ts, stack.push(symbol), pos + 1), pos + 1),
            None => Halt { stack, pos, refused: Some(ts[pos]) },
        }
    }
}

/// What the parser has made where it ends: the one expression on its stack,
/// or the reason why there is none.
pub open spec fn outcome(halt: Halt) -> Result<E, ShiftError> {
    match halt.refused {
        Some(token) => Err(ShiftError::Unsupported(token)),
        None => if halt.stack.len() == 1 {
            match halt.stack[0] {
                Type::EXPRESSION(e) => Ok(e),
                _ => Err(ShiftError::Malformed),
            }
        } else {
            Err(ShiftError::Malformed)
        },
    }
}

/// The expression that a whole token sequence parses to.
pub open spec fn parse(ts: Seq<Token>) -> Result<E, ShiftError> {
    outcome(drive(ts, Seq::empty(), 0))
}

/// What a parser holds: the tokens, how many of them it has shifted, and
/// its stack.
pub struct ParserView {
    pub tokens: Seq<Token>,
    pub pos: nat,
    pub stack: Seq<Type>,
}

/// A shift-reduce parser over a token sequence.
#[derive(Debug)]
pub struct Parser<'a> {
    parse_stack: Vec<Type>,
    tokens: Tokens<'a>,
}

impl<'a> View for Parser<'a> {
    type V = ParserView;

    closed spec fn view(&self) -> ParserView {
        ParserView {
            tokens: self.tokens@.tokens,
            pos: self.tokens@.pos,
            stack: self.parse_stack@,
        }
    }
}

/// Reducing a stack takes symbols away.
pub proof fn lemma_reduce_once_shrinks(ts: Seq<Token>, stack: Seq<Type>, pos: int)
    ensures
        reduce_once(ts, stack, pos) matches Some(reduced) ==> reduced.len() + 2 == stack.len(),
{
}

/// After every reduction that was due, none is due.
pub proof fn lemma_reduce_all_is_final(ts: Seq<Token>, stack: Seq<Type>, pos: int)
    ensures
        reduce_once(ts, reduce_all(ts, stack, pos), pos) is None,
    decreases stack.len(),
{
    lemma_reduce_once_shrinks(ts, stack, pos);
    if let Some(reduced) = reduce_once(ts, stack, pos) {
        lemma_reduce_all_is_final(ts, reduced, pos);
    }
}

impl<'a> Parser<'a> {
    /// The cursor stands within the tokens or at their end.
    pub open spec fn wf(&self) -> bool {
        self@.pos <= self@.tokens.len()
    }

    /// A parser in front of the first of `tokens`, with an empty stack.
    pub fn new(tokens: &'a Vec<Token>) -> (parser: Parser<'a>)
        ensures
            parser.wf(),
            parser@.tokens == tokens@,
            parser@.pos == 0,
            parser@.stack == Seq::<Type>::empty(),
    {
        Parser { parse_stack: Vec::new(), tokens: Tokens::new(tokens) }
    }

    /// Shifts the next token onto the stack, and says whether there was one.
    /// A token without a symbol is refused and not taken.
    fn shift(&mut self) -> (r: Result<bool, ShiftError>)
        requires
            old(self).wf(),
        ensures
            final(self).wf(),
            final(self)@.tokens == old(self)@.tokens,
            old(self)@.pos >= old(self)@.tokens.len() ==> r == Ok::<bool, ShiftError>(false)
                && final(self)@ == old(self)@,
            old(self)@.pos < old(self)@.tokens.len() ==> match symbol_of(
                old(self)@.tokens[old(self)@.pos as int],
            ) {
                Some(symbol) => {
                    &&& r == Ok::<bool, ShiftError>(true)
                    &&& final(self)@.pos == old(self)@.pos + 1
                    &&& final(self)@.stack == old(self)@.stack.push(symbol)
                },
                None => r == Err::<bool, ShiftError>(
                    ShiftError::Unsupported(old(self)@.tokens[old(self)@.pos as int]),
                ) && final(self)@ == old(self)@,
            },
    {
        match self.tokens.peek() {
            Some(t) => {
                match t {
                    Token::LITERAL(v) => self.parse_stack.push(Type::EXPRESSION(E::LITERAL(v))),
                    Token::OPERATOR(OP::PLUS) => self.parse_stack.push(Type::OP(OP::PLUS)),
                    Token::OPERATOR(OP::MULT) => self.parse_stack.push(Type::OP(OP::MULT)),
                    Token::LPAREN => self.parse_stack.push(Type::LPAREN),
                    Token::RPAREN => self.parse_stack.push(Type::RPAREN),
                    Token::OPERATOR(OP::POW) => self.parse_stack.push(Type::OP(OP::POW)),
                    _ => {
                        return Err(ShiftError::Unsupported(t));
                    },
                }
                self.tokens.next();
                Ok(true)
            },
            None => Ok(false),
        }
    }

    /// The three symbols on top of the stack, the topmost last.
    fn peek_three(&self) -> (top: Option<(&Type, &Type, &Type)>)
        ensures
            self@.stack.len() < 3 ==> top is None,
            self@.stack.len() >= 3 ==> ({
                &&& top matches Some((third, second, last))
                &&& *third == self@.stack[self@.stack.len() - 3]
                &&& *second == self@.stack[self@.stack.len() - 2]
                &&& *last == self@.stack[self@.stack.len() - 1]
            }),
    {
        if self.parse_stack.len() < 3 {
            None
        } else {
            let last_idx = self.parse_stack.len() - 1;
            let last = &self.parse_stack[last_idx];
            let second_last = &self.parse_stack[last_idx - 1];
            let third_last = &self.parse_stack[last_idx - 2];
            Some((third_last, second_last, last))
        }
    }

    /// Takes the `n` topmost symbols off the stack.
    fn pop(&mut self, n: u32)
        requires
            n <= old(self)@.stack.len(),
        ensures
            final(self)@.tokens == old(self)@.tokens,
            final(self)@.pos == old(self)@.pos,
            final(self)@.stack == old(self)@.stack.take(old(self)@.stack.len() - n),
    {
        let mut taken: u32 = 0;
        while taken < n
            invariant
                taken <= n,
                n <= old(self)@.stack.len(),
                self.tokens == old(self).tokens,
                self.parse_stack@ == old(self)@.stack.take(old(self)@.stack.len() - taken),
            decreases n - taken,
        {
            self.parse_stack.pop();
            taken = taken + 1;
        }
    }

    /// Whether a reduction has to wait for the operator to come.
    fn check_precedence(&self) -> (wait: bool)
        ensures
            wait == must_wait(self@.tokens, self@.stack, self@.pos as int),
    {
        if self.parse_stack.len() < 2 {
            return false;
        }
        let peek = self.tokens.peek();
        let peek_precedence: Option<u8> = match peek {
            Some(Token::OPERATOR(OP::PLUS)) | Some(Token::OPERATOR(OP::MINUS)) => Some(1),
            Some(Token::OPERATOR(OP::MULT)) => Some(2),
            Some(Token::OPERATOR(OP::POW)) => Some(3),
            _ => None,
        };

        let prev = &self.parse_stack[self.parse_stack.len() - 2];

        let prev_precedence: Option<u8> = match prev {
            Type::OP(OP::PLUS) | Type::OP(OP::MINUS) => Some(1),
            Type::OP(OP::MULT) => Some(2),
            Type::OP(OP::POW) => Some(3),
            _ => None,
        };

        match (prev_precedence, peek_precedence) {
            (None, _) | (_, None) => false,
            (Some(prev), Some(peek)) => peek > prev,
        }
    }

    /// Reduces the top of the stack once, if a reduction is due, and says
    /// whether it did.
    fn reduce(&mut self) -> (reduced: bool)
        ensures
            final(self)@.tokens == old(self)@.tokens,
            final(self)@.pos == old(self)@.pos,
            match reduce_once(old(self)@.tokens, old(self)@.stack, old(self)@.pos as int) {
                Some(stack) => reduced && final(self)@.stack == stack,
                None => !reduced && final(self)@.stack == old(self)@.stack,
            },
    {
        if self.check_precedence() {
            return false;
        }
        let e = match self.peek_three() {
            Some(tokens) => match tokens {
                (Type::EXPRESSION(v1), Type::OP(op), Type::EXPRESSION(v2)) => {
                    E::BINARY(Box::new(v1.clone()), *op, Box::new(v2.clone()))
                },
                (Type::LPAREN, Type::EXPRESSION(e), Type::RPAREN) => {
                    E::PAREN(Box::new(e.clone()))
                },
                _ => {
                    return false;
                },
            },
            _ => {
                return false;
            },
        };
        self.pop(3);
        self.parse_stack.push(Type::EXPRESSION(e));
        true
    }

    /// Parses the tokens that are left, from the stack as it is.
    ///
    /// Returns the one expression that the stack holds in the end. Fails, in
    /// front of it, at a token that has no symbol, and fails as malformed where
    /// the stack ends as anything but one expression.
    pub fn run(&mut self) -> (r: Result<&E, ShiftError>)
        requires
            old(self).wf(),
        ensures
            final(self).wf(),
            final(self)@.tokens == old(self)@.tokens,
            final(self)@.stack == drive(
                old(self)@.tokens,
                old(self)@.stack,
                old(self)@.pos as int,
            ).stack,
            final(self)@.pos == drive(
                old(self)@.tokens,
                old(self)@.stack,
                old(self)@.pos as int,
            ).pos,
            match outcome(drive(old(self)@.tokens, old(self)@.stack, old(self)@.pos as int)) {
                Ok(e) => r matches Ok(made) && *made == e,
                Err(failure) => r matches Err(f) && f == failure,
            },
    {
        let ghost ts = self@.tokens;
        let ghost end = drive(ts, self@.stack, self@.pos as int);
        loop
            invariant
                self.wf(),
                self@.tokens == ts,
                ts == old(self)@.tokens,
                end == drive(ts, old(self)@.stack, old(self)@.pos as int),
                end == drive(ts, self@.stack, self@.pos as int),
            ensures
                self.wf(),
                self@.tokens == ts,
                self@.stack == end.stack,
                self@.pos == end.pos,
                end.refused is None,
            decreases ts.len() - self@.pos,
        {
            let shifted = match self.shift() {
                Ok(shifted) => shifted,
                Err(failure) => {
                    return Err(failure);
                },
            };
            let ghost pos = self@.pos as int;
            let ghost shifted_stack = self@.stack;
            loop
                invariant
                    self.wf(),
                    self@.tokens == ts,
                    self@.pos == pos,
                    reduce_all(ts, self@.stack, pos) == reduce_all(ts, shifted_stack, pos),
                ensures
                    self.wf(),
                    self@.tokens == ts,
                    self@.pos == pos,
                    self@.stack == reduce_all(ts, shifted_stack, pos),
                decreases self@.stack.len(),
            {
                proof {
                    lemma_reduce_once_shrinks(ts, self@.stack, pos);
                }
                if !self.reduce() {
                    break ;
                }
            }
            if !shifted {
                break ;
            }
        }
        if self.parse_stack.len() == 1 {
            match &self.parse_stack[0] {
                Type::EXPRESSION(a) => Ok(a),
                _ => Err(ShiftError::Malformed),
            }
        } else {
            Err(ShiftError::Malformed)
        }
    }
}

} // verus!
