//! Lexer: turns a character sequence into a token sequence.
//!
//! The grammar of lexemes is given by [`scan`], which says what starts at one
//! position of the text, and by [`lex_from`], which chains the lexemes up to
//! the end of the text. [`Tokenizer::run`] is proved to compute exactly that.

use vstd::prelude::*;

verus! {

/// The operators of the language.
#[derive(Clone, Copy, PartialEq, Eq, Debug, Structural)]
pub enum OP {
    PLUS,
    MINUS,
    MULT,
    POW,
    DIV,
    EQUALITY,
    GREATER,
    LESS,
    GEQ,
    LEQ,
}

/// One lexeme of the source text.
#[derive(Clone, Copy, PartialEq, Eq, Debug, Structural)]
pub enum Token {
    LITERAL(u32),
    BOOL(bool),
    OPERATOR(OP),
    LPAREN,
    RPAREN,
    IF,
    THEN,
    ELSE,
}

/// Why a text could not be lexed.
#[derive(Clone, Copy, PartialEq, Eq, Debug, Structural)]
pub enum LexError {
    /// A character that starts no lexeme; it is carried along.
    UnrecognizedChar(char),
    /// `t`, `f`, `i` or `e` not followed by the rest of `true`, `false`, `if`, `else`.
    MalformedKeyword,
    /// `=` not followed by a second `=`.
    MalformedEquality,
    /// A run of digits whose decimal value does not fit in `u32`.
    LiteralOverflow,
}

/// What starts at one position of the text.
pub enum Scan {
    /// A token, and the position just behind it.
    Emit(Token, int),
    /// Whitespace, and the position just behind it.
    Skip(int),
    /// Nothing that the language knows.
    Fail(LexError),
}

/// The decimal digits `0` to `9`.
pub open spec fn is_digit(c: char) -> bool {
    '0' <= c && c <= '9'
}

/// A string of one digit or more.
pub open spec fn is_number(digits: Seq<char>) -> bool {
    digits.len() > 0 && forall|i: int| 0 <= i < digits.len() ==> is_digit(#[trigger] digits[i])
}

/// The number that a decimal digit stands for.
pub open spec fn digit_value(c: char) -> nat
    recommends
        is_digit(c),
{
    (c as u32 - '0' as u32) as nat
}

/// The characters with the Unicode property `White_Space`.
pub open spec fn is_whitespace(c: char) -> bool {
    let u = c as u32;
    ||| 0x09 <= u <= 0x0D
    ||| u == 0x20
    ||| u == 0x85
    ||| u == 0xA0
    ||| u == 0x1680
    ||| 0x2000 <= u <= 0x200A
    ||| u == 0x2028
    ||| u == 0x2029
    ||| u == 0x202F
    ||| u == 0x205F
    ||| u == 0x3000
}

/// The text has the character `c` at index `i`.
pub open spec fn is_at(s: Seq<char>, i: int, c: char) -> bool {
    0 <= i < s.len() && s[i] == c
}

/// The first index from `pos` on that holds no digit (the length of the text
/// if there is none).
pub open spec fn digit_run_end(s: Seq<char>, pos: int) -> int
    decreases s.len() - pos,
{
    if 0 <= pos < s.len() && is_digit(s[pos]) {
        digit_run_end(s, pos + 1)
    } else {
        pos
    }
}

/// The value of a string of digits in base 10, most significant digit first.
pub open spec fn decimal_value(digits: Seq<char>) -> nat
    decreases digits.len(),
{
    if digits.len() == 0 {
        0
    } else {
        decimal_value(digits.drop_last()) * 10 + digit_value(digits.last())
    }
}

/// The lexeme that starts at `pos`.
pub open spec fn scan(s: Seq<char>, pos: int) -> Scan
    recommends
        0 <= pos < s.len(),
{
    let c = s[pos];
    if c == '+' {
        Scan::Emit(Token::OPERATOR(OP::PLUS), pos + 1)
    } else if c == '-' {
        Scan::Emit(Token::OPERATOR(OP::MINUS), pos + 1)
    } else if c == '*' {
        Scan::Emit(Token::OPERATOR(OP::MULT), pos + 1)
    } else if c == '/' {
        Scan::Emit(Token::OPERATOR(OP::DIV), pos + 1)
    } else if c == '^' {
        Scan::Emit(Token::OPERATOR(OP::POW), pos + 1)
    } else if c == '|' {
        Scan::Emit(Token::THEN, pos + 1)
    } else if c == '(' {
        Scan::Emit(Token::LPAREN, pos + 1)
    } else if c == ')' {
        Scan::Emit(Token::RPAREN, pos + 1)
    } else if c == 't' {
        if is_at(s, pos + 1, 'r') && is_at(s, pos + 2, 'u') && is_at(s, pos + 3, 'e') {
            Scan::Emit(Token::BOOL(true), pos + 4)
        } else {
            Scan::Fail(LexError::MalformedKeyword)
        }
    } else if c == 'f' {
        if is_at(s, pos + 1, 'a') && is_at(s, pos + 2, 'l') && is_at(s, pos + 3, 's') && is_at(
            s,
            pos + 4,
            'e',
        ) {
            Scan::Emit(Token::BOOL(false), pos + 5)
        } else {
            Scan::Fail(LexError::MalformedKeyword)
        }
    } else if c == 'i' {
        if is_at(s, pos + 1, 'f') {
            Scan::Emit(Token::IF, pos + 2)
        } else {
            Scan::Fail(LexError::MalformedKeyword)
        }
    } else if c == 'e' {
        if is_at(s, pos + 1, 'l') && is_at(s, pos + 2, 's') && is_at(s, pos + 3, 'e') {
            Scan::Emit(Token::ELSE, pos + 4)
        } else {
            Scan::Fail(LexError::MalformedKeyword)
        }
    } else if c == '>' {
        if is_at(s, pos + 1, '=') {
            Scan::Emit(Token::OPERATOR(OP::GEQ), pos + 2)
        } else {
            Scan::Emit(Token::OPERATOR(OP::GREATER), pos + 1)
        }
    } else if c == '<' {
        if is_at(s, pos + 1, '=') {
            Scan::Emit(Token::OPERATOR(OP::LEQ), pos + 2)
        } else {
            Scan::Emit(Token::OPERATOR(OP::LESS), pos + 1)
        }
    } else if c == '=' {
        if is_at(s, pos + 1, '=') {
            Scan::Emit(Token::OPERATOR(OP::EQUALITY), pos + 2)
        } else {
            Scan::Fail(LexError::MalformedEquality)
        }
    } else if is_digit(c) {
        let end = digit_run_end(s, pos + 1);
        let value = decimal_value(s.subrange(pos, end));
        if value <= u32::MAX {
            Scan::Emit(Token::LITERAL(value as u32), end)
        } else {
            Scan::Fail(LexError::LiteralOverflow)
        }
    } else if is_whitespace(c) {
        Scan::Skip(pos + 1)
    } else {
        Scan::Fail(LexError::UnrecognizedChar(c))
    }
}

/// A run of digits ends at or behind the position it is asked from, and within the text.
pub proof fn lemma_digit_run_end_bounds(s: Seq<char>, pos: int)
    requires
        0 <= pos <= s.len(),
    ensures
        pos <= digit_run_end(s, pos) <= s.len(),
    decreases s.len() - pos,
{
    if pos < s.len() && is_digit(s[pos]) {
        lemma_digit_run_end_bounds(s, pos + 1);
    }
}

/// Every lexeme and every skipped character ends behind the position where
/// it starts, and within the text.
pub proof fn lemma_scan_advances(s: Seq<char>, pos: int)
    requires
        0 <= pos < s.len(),
    ensures
        scan(s, pos) matches Scan::Emit(_, next) ==> pos < next <= s.len(),
        scan(s, pos) matches Scan::Skip(next) ==> pos < next <= s.len(),
{
    lemma_digit_run_end_bounds(s, pos + 1);
}

/// `tokens` in front of what `rest` holds; an error stays as it is.
pub open spec fn prepend(tokens: Seq<Token>, rest: Result<Seq<Token>, LexError>) -> Result<
    Seq<Token>,
    LexError,
> {
    match rest {
        Ok(more) => Ok(tokens + more),
        Err(e) => Err(e),
    }
}

/// The tokens of the text from `pos` to its end, or the first failure met on
/// the way.
pub open spec fn lex_from(s: Seq<char>, pos: int) -> Result<Seq<Token>, LexError>
    decreases s.len() - pos,
{
    if 0 <= pos < s.len() {
        proof {
            lemma_scan_advances(s, pos);
        }
        match scan(s, pos) {
            Scan::Emit(token, next) => prepend(seq![token], lex_from(s, next)),
            Scan::Skip(next) => lex_from(s, next),
            Scan::Fail(e) => Err(e),
        }
    } else {
        Ok(Seq::empty())
    }
}

/// The tokens of a whole text.
pub open spec fn lex(s: Seq<char>) -> Result<Seq<Token>, LexError> {
    lex_from(s, 0)
}

/// What a tokenizer holds: the text, how far it has been read, and the
/// tokens made of the part that was read.
pub struct TokenizerView {
    pub source: Seq<char>,
    pub pos: nat,
    pub tokens: Seq<Token>,
}

/// A cursor over a text that collects the tokens it has read.
pub struct Tokenizer {
    source: Vec<char>,
    pos: usize,
    tokens: Vec<Token>,
}

impl View for Tokenizer {
    type V = TokenizerView;

    closed spec fn view(&self) -> TokenizerView {
        TokenizerView { source: self.source@, pos: self.pos as nat, tokens: self.tokens@ }
    }
}

impl Tokenizer {
    /// The cursor stands within the text or at its end.
    pub open spec fn wf(&self) -> bool {
        self@.pos <= self@.source.len()
    }

    /// A tokenizer at the start of `source`, with no tokens yet.
    pub fn new(source: &String) -> (t: Tokenizer)
        ensures
            t.wf(),
            t@.source == source@,
            t@.pos == 0,
            t@.tokens == Seq::<Token>::empty(),
    {
        let mut chars: Vec<char> = Vec::new();
        for c in it: source.as_str().chars()
            invariant
                chars@ == it.history(),
        {
            chars.push(c);
        }
        Tokenizer { source: chars, pos: 0, tokens: Vec::new() }
    }

    /// Takes the character at the cursor, if there is one, and moves on.
    fn next(&mut self) -> (c: Option<char>)
        requires
            old(self).wf(),
        ensures
            final(self).wf(),
            final(self)@.source == old(self)@.source,
            final(self)@.tokens == old(self)@.tokens,
            old(self)@.pos < old(self)@.source.len() ==> c == Some(
                old(self)@.source[old(self)@.pos as int],
            ) && final(self)@.pos == old(self)@.pos + 1,
            old(self)@.pos >= old(self)@.source.len() ==> c.is_none() && final(self)@.pos
                == old(self)@.pos,
    {
        if self.pos < self.source.len() {
            let c = self.source[self.pos];
            self.pos = self.pos + 1;
            Some(c)
        } else {
            None
        }
    }

    /// The character at the cursor, if there is one.
    fn peek(&self) -> (c: Option<&char>)
        ensures
            self@.pos < self@.source.len() ==> c == Some(&self@.source[self@.pos as int]),
            self@.pos >= self@.source.len() ==> c.is_none(),
    {
        if self.pos < self.source.len() {
            Some(&self.source[self.pos])
        } else {
            None
        }
    }

    /// Takes the next character and says whether it was `c`.
    fn expect(&mut self, c: char) -> (found: bool)
        requires
            old(self).wf(),
        ensures
            final(self).wf(),
            final(self)@.source == old(self)@.source,
            final(self)@.tokens == old(self)@.tokens,
            found == is_at(old(self)@.source, old(self)@.pos as int, c),
            final(self)@.pos == (if old(self)@.pos < old(self)@.source.len() {
                old(self)@.pos + 1
            } else {
                old(self)@.pos
            }),
    {
        match self.next() {
            Some(d) => d == c,
            None => false,
        }
    }

    /// Takes the next character if it is `c`, and says whether it was.
    fn expect_if(&mut self, c: char) -> (found: bool)
        requires
            old(self).wf(),
        ensures
            final(self).wf(),
            final(self)@.source == old(self)@.source,
            final(self)@.tokens == old(self)@.tokens,
            found == is_at(old(self)@.source, old(self)@.pos as int, c),
            final(self)@.pos == (if found {
                old(self)@.pos + 1
            } else {
                old(self)@.pos
            }),
    {
        let found = match self.peek() {
            Some(d) => *d == c,
            None => false,
        };
        if found {
            self.next();
        }
        found
    }

    /// Reads the rest of the run of digits whose first digit, `first`, was
    /// just taken, and gives the run's value.
    fn number(&mut self, first: char) -> (r: Result<u32, LexError>)
        requires
            old(self).wf(),
            old(self)@.pos >= 1,
            old(self)@.source[old(self)@.pos - 1] == first,
            is_digit(first),
        ensures
            final(self).wf(),
            final(self)@.source == old(self)@.source,
            final(self)@.tokens == old(self)@.tokens,
            final(self)@.pos == digit_run_end(old(self)@.source, old(self)@.pos as int),
            r == (if decimal_value(
                old(self)@.source.subrange(old(self)@.pos - 1, final(self)@.pos as int),
            ) <= u32::MAX {
                Ok::<u32, LexError>(
                    decimal_value(
                        old(self)@.source.subrange(old(self)@.pos - 1, final(self)@.pos as int),
                    ) as u32,
                )
            } else {
                Err::<u32, LexError>(LexError::LiteralOverflow)
            }),
    {
        let ghost s = self.source@;
        let ghost start = self.pos - 1;
        let mut value: u64 = (first as u32 - '0' as u32) as u64;
        let mut overflow = false;
        proof {
            reveal_with_fuel(decimal_value, 2);
        }
        loop
            invariant
                self.source@ == s,
                s == old(self).source@,
                start == old(self).pos - 1,
                self.tokens@ == old(self).tokens@,
                0 <= start < self.pos <= s.len(),
                digit_run_end(s, start + 1) == digit_run_end(s, self.pos as int),
                !overflow ==> value == decimal_value(s.subrange(start, self.pos as int)) && value
                    <= u32::MAX,
                overflow ==> decimal_value(s.subrange(start, self.pos as int)) > u32::MAX,
            ensures
                self.pos == digit_run_end(s, start + 1),
            decreases s.len() - self.pos,
        {
            let d = match self.peek() {
                Some(d) => *d,
                None => { break ; },
            };
            if !(d >= '0' && d <= '9') {
                break ;
            }
            proof {
                let longer = s.subrange(start, self.pos + 1);
                assert(longer.drop_last() =~= s.subrange(start, self.pos as int));
            }
            let digit: u64 = (d as u32 - '0' as u32) as u64;
            assert(self.pos < self.source.len());
            self.pos = self.pos + 1;
            if !overflow {
                value = value * 10 + digit;
                if value > 0xFFFF_FFFF {
                    overflow = true;
                }
            }
        }
        if overflow {
            Err(LexError::LiteralOverflow)
        } else {
            Ok(value as u32)
        }
    }

    /// Reads the lexeme whose first character, `c`, was just taken. Where
    /// none starts with it, the tokenizer is left as it was.
    fn dispatch(&mut self, c: char) -> (r: Result<(), LexError>)
        requires
            old(self).wf(),
            old(self)@.pos >= 1,
            old(self)@.source[old(self)@.pos - 1] == c,
        ensures
            final(self).wf(),
            final(self)@.source == old(self)@.source,
            match scan(old(self)@.source, old(self)@.pos - 1) {
                Scan::Emit(token, next) => {
                    &&& r is Ok
                    &&& final(self)@.pos == next
                    &&& final(self)@.tokens == old(self)@.tokens.push(token)
                },
                Scan::Skip(next) => {
                    &&& r is Ok
                    &&& final(self)@.pos == next
                    &&& final(self)@.tokens == old(self)@.tokens
                },
                Scan::Fail(e) => {
                    &&& r == Err::<(), LexError>(e)
                    &&& final(self)@ == old(self)@
                },
            },
    {
        let start = self.pos;
        let token = match c {
            '+' => Ok(Some(Token::OPERATOR(OP::PLUS))),
            '-' => Ok(Some(Token::OPERATOR(OP::MINUS))),
            '*' => Ok(Some(Token::OPERATOR(OP::MULT))),
            '/' => Ok(Some(Token::OPERATOR(OP::DIV))),
            '^' => Ok(Some(Token::OPERATOR(OP::POW))),
            '|' => Ok(Some(Token::THEN)),
            '(' => Ok(Some(Token::LPAREN)),
            ')' => Ok(Some(Token::RPAREN)),
            't' => {
                if self.expect('r') && self.expect('u') && self.expect('e') {
                    Ok(Some(Token::BOOL(true)))
                } else {
                    Err(LexError::MalformedKeyword)
                }
            },
            'f' => {
                if self.expect('a') && self.expect('l') && self.expect('s') && self.expect('e') {
                    Ok(Some(Token::BOOL(false)))
                } else {
                    Err(LexError::MalformedKeyword)
                }
            },
            'i' => {
                if self.expect('f') {
                    Ok(Some(Token::IF))
                } else {
                    Err(LexError::MalformedKeyword)
                }
            },
            'e' => {
                if self.expect('l') && self.expect('s') && self.expect('e') {
                    Ok(Some(Token::ELSE))
                } else {
                    Err(LexError::MalformedKeyword)
                }
            },
            '>' => {
                if self.expect_if('=') {
                    Ok(Some(Token::OPERATOR(OP::GEQ)))
                } else {
                    Ok(Some(Token::OPERATOR(OP::GREATER)))
                }
            },
            '<' => {
                if self.expect_if('=') {
                    Ok(Some(Token::OPERATOR(OP::LEQ)))
                } else {
                    Ok(Some(Token::OPERATOR(OP::LESS)))
                }
            },
            '=' => {
                if self.expect('=') {
                    Ok(Some(Token::OPERATOR(OP::EQUALITY)))
                } else {
                    Err(LexError::MalformedEquality)
                }
            },
            _ => {
                if c >= '0' && c <= '9' {
                    match self.number(c) {
                        Ok(value) => Ok(Some(Token::LITERAL(value))),
                        Err(failure) => Err(failure),
                    }
                } else if is_space(c) {
                    Ok(None)
                } else {
                    Err(LexError::UnrecognizedChar(c))
                }
            },
        };
        match token {
            Ok(Some(token)) => {
                self.tokens.push(token);
                Ok(())
            },
            Ok(None) => Ok(()),
            Err(failure) => {
                self.pos = start;
                Err(failure)
            },
        }
    }

    /// Lexes the text from the cursor to its end.
    ///
    /// On success the cursor stands at the end of the text and the new tokens
    /// stand behind those that were there. On failure the tokenizer is left as
    /// it was: no part of a text that fails is kept.
    pub fn run(&mut self) -> (r: Result<&Vec<Token>, LexError>)
        requires
            old(self).wf(),
        ensures
            final(self).wf(),
            final(self)@.source == old(self)@.source,
            match lex_from(old(self)@.source, old(self)@.pos as int) {
                Ok(rest) => {
                    &&& r matches Ok(tokens)
                    &&& tokens@ == old(self)@.tokens + rest
                    &&& final(self)@.tokens == old(self)@.tokens + rest
                    &&& final(self)@.pos == old(self)@.source.len()
                },
                Err(e) => {
                    &&& r matches Err(failure)
                    &&& failure == e
                    &&& final(self)@ == old(self)@
                },
            },
    {
        let start = self.pos;
        let kept = self.tokens.len();
        let ghost s = self.source@;
        let ghost before = self.tokens@;
        let ghost mut added = Seq::<Token>::empty();
        assert(prepend(added, lex_from(s, start as int)) == lex_from(s, start as int)) by {
            match lex_from(s, start as int) {
                Ok(more) => assert(added + more =~= more),
                Err(_) => {},
            }
        }
        loop
            invariant
                self.source@ == s,
                s == old(self).source@,
                self.pos <= s.len(),
                start == old(self).pos,
                before == old(self).tokens@,
                kept == before.len(),
                self.tokens@ == before + added,
                lex_from(s, start as int) == prepend(added, lex_from(s, self.pos as int)),
            ensures
                self.pos == s.len(),
            decreases s.len() - self.pos,
        {
            let ghost here = self.pos as int;
            let c = match self.next() {
                Some(c) => c,
                None => { break ; },
            };
            proof {
                lemma_scan_advances(s, here);
            }
            match self.dispatch(c) {
                Ok(()) => {
                    proof {
                        if let Scan::Emit(token, next) = scan(s, here) {
                            match lex_from(s, next) {
                                Ok(more) => assert(added + (seq![token] + more) =~= added.push(
                                    token,
                                ) + more),
                                Err(_) => {},
                            }
                            added = added.push(token);
                        }
                    }
                },
                Err(e) => {
                    self.pos = start;
                    self.tokens.truncate(kept);
                    assert(self.tokens@ =~= before);
                    return Err(e);
                },
            }
        }
        Ok(&self.tokens)
    }
}

/// Where every character from `pos` on is a digit, the run of digits ends
/// with the text.
pub proof fn lemma_digit_run_to_end(s: Seq<char>, pos: int)
    requires
        0 <= pos <= s.len(),
        forall|i: int| pos <= i < s.len() ==> is_digit(#[trigger] s[i]),
    ensures
        digit_run_end(s, pos) == s.len(),
    decreases s.len() - pos,
{
    if pos < s.len() {
        lemma_digit_run_to_end(s, pos + 1);
    }
}

/// A zero in front of a string of digits does not change its value.
pub proof fn lemma_leading_zero(digits: Seq<char>)
    ensures
        decimal_value(seq!['0'] + digits) == decimal_value(digits),
    decreases digits.len(),
{
    let longer = seq!['0'] + digits;
    if digits.len() == 0 {
        reveal_with_fuel(decimal_value, 2);
    } else {
        lemma_leading_zero(digits.drop_last());
        assert(longer.drop_last() =~= seq!['0'] + digits.drop_last());
    }
}

/// A text made of digits alone lexes to one literal that holds the text's
/// decimal value, whenever that value fits in `u32`; where it does not, the
/// text is refused and nothing of it is lost in silence.
pub proof fn lemma_lex_digits(s: Seq<char>)
    requires
        is_number(s),
    ensures
        decimal_value(s) <= u32::MAX ==> lex(s) == Ok::<Seq<Token>, LexError>(
            seq![Token::LITERAL(decimal_value(s) as u32)],
        ),
        decimal_value(s) > u32::MAX ==> lex(s) == Err::<Seq<Token>, LexError>(
            LexError::LiteralOverflow,
        ),
{
    lemma_digit_run_to_end(s, 1);
    assert(s.subrange(0, s.len() as int) =~= s);
    if decimal_value(s) <= u32::MAX {
        assert(lex_from(s, s.len() as int) == Ok::<Seq<Token>, LexError>(Seq::empty()));
    }
}

/// Whether `c` is whitespace.
fn is_space(c: char) -> (r: bool)
    ensures
        r == is_whitespace(c),
{
    let u: u32 = c as u32;
    (0x09 <= u && u <= 0x0D) || u == 0x20 || u == 0x85 || u == 0xA0 || u == 0x1680 || (0x2000
        <= u && u <= 0x200A) || u == 0x2028 || u == 0x2029 || u == 0x202F || u == 0x205F || u
        == 0x3000
}

} // verus!
