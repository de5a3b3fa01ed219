//! Laws of lexing: numbers and their digits, and how the tokens of a text
//! are made of the tokens of its parts.

use vstd::prelude::*;
use crate::tokenizer::{
    decimal_value, digit_run_end, is_at, is_digit, is_number, is_whitespace,
    lemma_digit_run_end_bounds, lemma_lex_digits, lemma_scan_advances, lex, lex_from, prepend,
    scan, LexError, Scan, Token,
};

verus! {

/// A run of digits that starts at `pos` ends at `end` if digits alone stand
/// between the two and none stands at `end`.
pub proof fn lemma_digit_run_stops(s: Seq<char>, pos: int, end: int)
    requires
        0 <= pos <= end <= s.len(),
        forall|i: int| pos <= i < end ==> is_digit(#[trigger] s[i]),
        end < s.len() ==> !is_digit(s[end]),
    ensures
        digit_run_end(s, pos) == end,
    decreases end - pos,
{
    if pos < end {
        lemma_digit_run_stops(s, pos + 1, end);
    }
}

/// A run of digits holds digits alone, and no digit stands at its end.
pub proof fn lemma_digit_run_is_digits(s: Seq<char>, pos: int)
    requires
        0 <= pos <= s.len(),
    ensures
        forall|i: int| pos <= i < digit_run_end(s, pos) ==> is_digit(#[trigger] s[i]),
        digit_run_end(s, pos) < s.len() ==> !is_digit(s[digit_run_end(s, pos)]),
    decreases s.len() - pos,
{
    if pos < s.len() && is_digit(s[pos]) {
        lemma_digit_run_is_digits(s, pos + 1);
    }
}

/// The digit that stands for a number below 10.
pub open spec fn digit_char(d: nat) -> char
    recommends
        d < 10,
{
    ('0' as u32 + d as u32) as char
}

/// A number written in base 10 without leading zeros; 0 is written `0`.
pub open spec fn decimal(v: nat) -> Seq<char>
    decreases v,
{
    if v < 10 {
        seq![digit_char(v)]
    } else {
        decimal(v / 10).push(digit_char(v % 10))
    }
}

/// A string of digits that starts with a digit other than `0` is at least 1.
pub proof fn lemma_decimal_value_positive(digits: Seq<char>)
    requires
        is_number(digits),
        digits[0] != '0',
    ensures
        decimal_value(digits) >= 1,
    decreases digits.len(),
{
    if digits.len() > 1 {
        let front = digits.drop_last();
        assert(is_number(front)) by {
            assert forall|i: int| 0 <= i < front.len() implies is_digit(#[trigger] front[i]) by {}
        }
        lemma_decimal_value_positive(front);
    }
}

/// Writing a number and reading the digits gives the number back; what is
/// written is made of digits and has no leading zero.
pub proof fn lemma_decimal_value_of_decimal(v: nat)
    ensures
        is_number(decimal(v)),
        decimal_value(decimal(v)) == v,
        decimal(v).len() > 1 ==> decimal(v)[0] != '0',
        v >= 10 ==> decimal(v).len() > 1,
    decreases v,
{
    if v < 10 {
        let one = seq![digit_char(v)];
        assert(decimal_value(one.drop_last()) == 0);
    } else {
        lemma_decimal_value_of_decimal(v / 10);
        let front = decimal(v / 10);
        let all = front.push(digit_char(v % 10));
        assert(all.drop_last() =~= front);
        assert forall|i: int| 0 <= i < all.len() implies is_digit(#[trigger] all[i]) by {}
    }
}

/// Reading digits that have no leading zero and writing the number gives the
/// digits back.
pub proof fn lemma_decimal_of_decimal_value(digits: Seq<char>)
    requires
        is_number(digits),
        digits.len() > 1 ==> digits[0] != '0',
    ensures
        decimal(decimal_value(digits)) == digits,
    decreases digits.len(),
{
    let front = digits.drop_last();
    if digits.len() == 1 {
        assert(decimal_value(front) == 0);
    } else {
        assert(is_number(front)) by {
            assert forall|i: int| 0 <= i < front.len() implies is_digit(#[trigger] front[i]) by {}
        }
        lemma_decimal_value_positive(front);
        lemma_decimal_of_decimal_value(front);
    }
}

/// A text of digits alone, lexed and written again as a number, is the
/// number it was: leading zeros go, nothing else changes. And every number
/// that `u32` holds, written and lexed, is the literal of that number.
pub proof fn lemma_number_round_trip(digits: Seq<char>, v: u32)
    ensures
        is_number(digits) && decimal_value(digits) <= u32::MAX ==> lex(digits) == Ok::<
            Seq<Token>,
            LexError,
        >(seq![Token::LITERAL(decimal_value(digits) as u32)]) && decimal_value(
            decimal(decimal_value(digits)),
        ) == decimal_value(digits),
        lex(decimal(v as nat)) == Ok::<Seq<Token>, LexError>(seq![Token::LITERAL(v)]),
{
    lemma_decimal_value_of_decimal(v as nat);
    lemma_lex_digits(decimal(v as nat));
    if is_number(digits) && decimal_value(digits) <= u32::MAX {
        lemma_lex_digits(digits);
        lemma_decimal_value_of_decimal(decimal_value(digits));
    }
}

/// The lexeme at a position of `b` stands, in a text that ends with `b`, as
/// many characters later as stand before `b`.
pub open spec fn shifted(found: Scan, by: int) -> Scan {
    match found {
        Scan::Emit(token, next) => Scan::Emit(token, next + by),
        Scan::Skip(next) => Scan::Skip(next + by),
        Scan::Fail(failure) => Scan::Fail(failure),
    }
}

/// What starts at a position of `b` starts at the same place of `b` in
/// `a + b`.
pub proof fn lemma_scan_in_suffix(a: Seq<char>, b: Seq<char>, pos: int)
    requires
        0 <= pos < b.len(),
    ensures
        scan(a + b, a.len() + pos) == shifted(scan(b, pos), a.len() as int),
{
    let s = a + b;
    let n = a.len() as int;
    assert forall|i: int, c: char| 0 <= i implies is_at(s, n + i, c) == is_at(b, i, c) by {}
    if is_digit(b[pos]) {
        let end = digit_run_end(b, pos + 1);
        lemma_digit_run_end_bounds(b, pos + 1);
        lemma_digit_run_is_digits(b, pos + 1);
        assert forall|i: int| n + pos + 1 <= i < n + end implies is_digit(#[trigger] s[i]) by {}
        lemma_digit_run_stops(s, n + pos + 1, n + end);
        assert(s.subrange(n + pos, n + end) =~= b.subrange(pos, end));
    }
}

/// The end of a text lexes as it does alone: the tokens of `a + b` from a
/// position within `b` are the tokens of `b` from that position.
pub proof fn lemma_lex_suffix(a: Seq<char>, b: Seq<char>, pos: int)
    requires
        0 <= pos <= b.len(),
    ensures
        lex_from(a + b, a.len() + pos) == lex_from(b, pos),
    decreases b.len() - pos,
{
    if pos < b.len() {
        lemma_scan_in_suffix(a, b, pos);
        lemma_scan_advances(b, pos);
        match scan(b, pos) {
            Scan::Emit(_, next) => lemma_lex_suffix(a, b, next),
            Scan::Skip(next) => lemma_lex_suffix(a, b, next),
            Scan::Fail(_) => {},
        }
    }
}

/// No lexeme that ends with `a` goes on into `b`: a digit at the end of `a`
/// meets no digit, and `<` or `>` at the end of `a` meets no `=`.
pub open spec fn apart(a: Seq<char>, b: Seq<char>) -> bool {
    a.len() > 0 && b.len() > 0 ==> {
        &&& !(is_digit(a.last()) && is_digit(b[0]))
        &&& !((a.last() == '>' || a.last() == '<') && b[0] == '=')
    }
}

/// What starts at a position of `a`, if anything does, starts there in
/// `a + b` too, where no lexeme goes on into `b`.
pub proof fn lemma_scan_in_prefix(a: Seq<char>, b: Seq<char>, pos: int)
    requires
        0 <= pos < a.len(),
        apart(a, b),
        !(scan(a, pos) is Fail),
    ensures
        scan(a + b, pos) == scan(a, pos),
{
    let s = a + b;
    let n = a.len() as int;
    assert forall|i: int, c: char| 0 <= i < n implies is_at(s, i, c) == is_at(a, i, c) by {}
    if is_digit(a[pos]) {
        let end = digit_run_end(a, pos + 1);
        lemma_digit_run_end_bounds(a, pos + 1);
        lemma_digit_run_is_digits(a, pos + 1);
        assert forall|i: int| pos + 1 <= i < end implies is_digit(#[trigger] s[i]) by {}
        lemma_digit_run_stops(s, pos + 1, end);
        assert(s.subrange(pos, end) =~= a.subrange(pos, end));
    }
}

/// The tokens of `a + b` from a position within `a` are the tokens of `a`
/// from there and then the tokens of `b`, where `a` lexes from there and no
/// lexeme goes on into `b`.
pub proof fn lemma_lex_prefix(a: Seq<char>, b: Seq<char>, pos: int)
    requires
        0 <= pos <= a.len(),
        apart(a, b),
        lex_from(a, pos) is Ok,
    ensures
        lex_from(a + b, pos) == prepend(lex_from(a, pos)->Ok_0, lex(b)),
    decreases a.len() - pos,
{
    if pos < a.len() {
        lemma_scan_advances(a, pos);
        lemma_scan_in_prefix(a, b, pos);
        match scan(a, pos) {
            Scan::Emit(token, next) => {
                lemma_lex_prefix(a, b, next);
                let rest = lex_from(a, next)->Ok_0;
                match lex(b) {
                    Ok(more) => assert(seq![token] + (rest + more) =~= (seq![token] + rest)
                        + more),
                    Err(_) => {},
                }
            },
            Scan::Skip(next) => lemma_lex_prefix(a, b, next),
            Scan::Fail(_) => {},
        }
    } else {
        lemma_lex_suffix(a, b, 0);
        match lex(b) {
            Ok(more) => assert(Seq::<Token>::empty() + more =~= more),
            Err(_) => {},
        }
    }
}

/// Lexing goes text by text: where `a` lexes and no lexeme goes on from it
/// into `b`, `a + b` lexes to the tokens of `a` and then those of `b`, or
/// fails as `b` does.
pub proof fn lemma_lex_concat(a: Seq<char>, b: Seq<char>)
    requires
        lex(a) is Ok,
        apart(a, b),
    ensures
        lex(a + b) == prepend(lex(a)->Ok_0, lex(b)),
{
    lemma_lex_prefix(a, b, 0);
}

/// A string of whitespace alone; it may be empty.
pub open spec fn is_blank(s: Seq<char>) -> bool {
    forall|i: int| 0 <= i < s.len() ==> is_whitespace(#[trigger] s[i])
}

/// Whitespace from a position to the end of a text gives no token.
pub proof fn lemma_lex_blank_from(s: Seq<char>, pos: int)
    requires
        0 <= pos <= s.len(),
        forall|i: int| pos <= i < s.len() ==> is_whitespace(#[trigger] s[i]),
    ensures
        lex_from(s, pos) == Ok::<Seq<Token>, LexError>(Seq::empty()),
    decreases s.len() - pos,
{
    if pos < s.len() {
        lemma_lex_blank_from(s, pos + 1);
    }
}

/// Whitespace alone lexes to no token.
pub proof fn lemma_lex_blank(s: Seq<char>)
    requires
        is_blank(s),
    ensures
        lex(s) == Ok::<Seq<Token>, LexError>(Seq::empty()),
{
    lemma_lex_blank_from(s, 0);
}

} // verus!
