//! Laws of parsing: how operators nest under each of the two parsers, that a
//! parse depends on the tokens it takes alone, and how deep a tree can be.

use vstd::prelude::*;
use crate::parser::{drive, parse, precedence, reduce_all, reduce_once, ShiftError, Type};
use crate::pratt::{
    binding_power, parse_branches, parse_expression, parse_infix, parse_prefix, remaining,
    ParseError, E, LOWEST_POWER, UNARY_POWER,
};
use crate::tokenizer::{Token, OP};

verus! {

/// The operators that compare.
pub open spec fn is_comparison(op: OP) -> bool {
    op == OP::EQUALITY || op == OP::GREATER || op == OP::LESS || op == OP::GEQ || op == OP::LEQ
}

/// The order of the binding powers: a comparison binds less tightly than
/// every operator of arithmetic, and every operator between two operands
/// binds less tightly than an operator in front of one.
pub proof fn lemma_power_order(op: OP, other: OP)
    ensures
        is_comparison(op) && !is_comparison(other) ==> binding_power(op) < binding_power(other),
        binding_power(op) < UNARY_POWER,
{
}

/// A literal, an operator and a literal parse to the operator's node over
/// the two literals.
pub proof fn lemma_parse_operation(a: u32, op: OP, b: u32)
    ensures
        parse_expression(
            seq![Token::LITERAL(a), Token::OPERATOR(op), Token::LITERAL(b)],
            0,
            LOWEST_POWER,
        ) == Ok::<(E, nat), ParseError>(
            (E::BINARY(Box::new(E::LITERAL(a)), op, Box::new(E::LITERAL(b))), 3),
        ),
{
    let ts = seq![Token::LITERAL(a), Token::OPERATOR(op), Token::LITERAL(b)];
    let power = binding_power(op);
    let whole = E::BINARY(Box::new(E::LITERAL(a)), op, Box::new(E::LITERAL(b)));
    assert(parse_infix(ts, E::LITERAL(b), 3, power) == Ok::<(E, nat), ParseError>(
        (E::LITERAL(b), 0),
    ));
    assert(parse_expression(ts, 2, power) == Ok::<(E, nat), ParseError>((E::LITERAL(b), 1)));
    assert(parse_infix(ts, whole, 3, LOWEST_POWER) == Ok::<(E, nat), ParseError>((whole, 0)));
    assert(parse_infix(ts, E::LITERAL(a), 1, LOWEST_POWER) == Ok::<(E, nat), ParseError>(
        (whole, 2),
    ));
}

/// Two operators between three literals. Where the second binds at least as
/// tightly as the first, it takes the middle literal and the tree nests to
/// the right: so it is in a chain of operators of one power. Where the second
/// binds less tightly, the first takes the middle literal and the tree nests
/// to the left.
pub proof fn lemma_parse_chain(a: u32, first: OP, b: u32, second: OP, c: u32)
    ensures
        parse_expression(
            seq![
                Token::LITERAL(a),
                Token::OPERATOR(first),
                Token::LITERAL(b),
                Token::OPERATOR(second),
                Token::LITERAL(c),
            ],
            0,
            LOWEST_POWER,
        ) == Ok::<(E, nat), ParseError>(
            (
                if binding_power(second) >= binding_power(first) {
                    E::BINARY(
                        Box::new(E::LITERAL(a)),
                        first,
                        Box::new(
                            E::BINARY(Box::new(E::LITERAL(b)), second, Box::new(E::LITERAL(c))),
                        ),
                    )
                } else {
                    E::BINARY(
                        Box::new(
                            E::BINARY(Box::new(E::LITERAL(a)), first, Box::new(E::LITERAL(b))),
                        ),
                        second,
                        Box::new(E::LITERAL(c)),
                    )
                },
                5,
            ),
        ),
{
    let ts = seq![
        Token::LITERAL(a),
        Token::OPERATOR(first),
        Token::LITERAL(b),
        Token::OPERATOR(second),
        Token::LITERAL(c),
    ];
    let early = binding_power(first);
    let late = binding_power(second);
    let la = E::LITERAL(a);
    let lb = E::LITERAL(b);
    let lc = E::LITERAL(c);
    assert(parse_expression(ts, 4, late) == Ok::<(E, nat), ParseError>((lc, 1)));
    if late >= early {
        let inner = E::BINARY(Box::new(lb), second, Box::new(lc));
        let whole = E::BINARY(Box::new(la), first, Box::new(inner));
        assert(parse_infix(ts, inner, 5, early) == Ok::<(E, nat), ParseError>((inner, 0)));
        assert(parse_expression(ts, 2, early) == Ok::<(E, nat), ParseError>((inner, 3)));
        assert(parse_infix(ts, whole, 5, LOWEST_POWER) == Ok::<(E, nat), ParseError>(
            (whole, 0),
        ));
    } else {
        let inner = E::BINARY(Box::new(la), first, Box::new(lb));
        let whole = E::BINARY(Box::new(inner), second, Box::new(lc));
        assert(parse_infix(ts, whole, 5, LOWEST_POWER) == Ok::<(E, nat), ParseError>(
            (whole, 0),
        ));
        assert(parse_infix(ts, inner, 3, LOWEST_POWER) == Ok::<(E, nat), ParseError>(
            (whole, 2),
        ));
    }
}

/// The tokens of `a` stand in `b` from index `k` on, and what follows them
/// in `b`, if anything does, is no operator.
pub open spec fn embeds(a: Seq<Token>, b: Seq<Token>, k: int) -> bool {
    &&& 0 <= k
    &&& k + a.len() <= b.len()
    &&& forall|i: int| 0 <= i < a.len() ==> b[k + i] == #[trigger] a[i]
    &&& k + a.len() < b.len() ==> !(b[k + a.len()] is OPERATOR)
}

/// What starts an expression in `a` starts the same expression where the
/// tokens of `a` stand in `b`, and ends within `a`.
pub proof fn lemma_embedded_prefix(a: Seq<Token>, b: Seq<Token>, k: int, pos: int)
    requires
        embeds(a, b, k),
        0 <= pos,
        parse_prefix(a, pos) is Ok,
    ensures
        parse_prefix(b, pos + k) == parse_prefix(a, pos),
        pos + parse_prefix(a, pos)->Ok_0.1 <= a.len(),
    decreases remaining(a, pos), 1int,
{
    match a[pos] {
        Token::OPERATOR(_) => {
            lemma_embedded_expression(a, b, k, pos + 1, UNARY_POWER);
        },
        Token::LPAREN => {
            lemma_embedded_expression(a, b, k, pos + 1, LOWEST_POWER);
        },
        Token::IF => {
            lemma_embedded_expression(a, b, k, pos + 1, LOWEST_POWER);
            let (cond, n) = parse_expression(a, pos + 1, LOWEST_POWER)->Ok_0;
            lemma_embedded_branches(a, b, k, pos + 1 + n + 1, cond);
        },
        _ => {},
    }
}

/// The branches of a conditional in `a` are the same where the tokens of
/// `a` stand in `b`, and end within `a`.
pub proof fn lemma_embedded_branches(a: Seq<Token>, b: Seq<Token>, k: int, pos: int, cond: E)
    requires
        embeds(a, b, k),
        0 <= pos,
        parse_branches(a, pos, cond) is Ok,
    ensures
        parse_branches(b, pos + k, cond) == parse_branches(a, pos, cond),
        pos + parse_branches(a, pos, cond)->Ok_0.1 <= a.len(),
    decreases remaining(a, pos), 3int,
{
    lemma_embedded_expression(a, b, k, pos, LOWEST_POWER);
    let n = parse_expression(a, pos, LOWEST_POWER)->Ok_0.1;
    lemma_embedded_expression(a, b, k, pos + n + 1, UNARY_POWER);
}

/// A left operand in `a` is extended in the same way where the tokens of `a`
/// stand in `b`, and the extension ends within `a`.
pub proof fn lemma_embedded_infix(
    a: Seq<Token>,
    b: Seq<Token>,
    k: int,
    lhs: E,
    pos: int,
    min: u8,
)
    requires
        embeds(a, b, k),
        0 <= pos <= a.len(),
        parse_infix(a, lhs, pos, min) is Ok,
    ensures
        parse_infix(b, lhs, pos + k, min) == parse_infix(a, lhs, pos, min),
        pos + parse_infix(a, lhs, pos, min)->Ok_0.1 <= a.len(),
    decreases remaining(a, pos), 0int,
{
    if pos < a.len() {
        if let Token::OPERATOR(op) = a[pos] {
            if binding_power(op) >= min {
                lemma_embedded_expression(a, b, k, pos + 1, binding_power(op));
                let (rhs, n) = parse_expression(a, pos + 1, binding_power(op))->Ok_0;
                lemma_embedded_infix(
                    a,
                    b,
                    k,
                    E::BINARY(Box::new(lhs), op, Box::new(rhs)),
                    pos + 1 + n,
                    min,
                );
            }
        }
    }
}

/// An expression in `a` is the same expression where the tokens of `a`
/// stand in `b`, and ends within `a`: what a parse makes depends on the tokens
/// it takes and, where it stops in front of a token, on that token being no
/// operator.
pub proof fn lemma_embedded_expression(a: Seq<Token>, b: Seq<Token>, k: int, pos: int, min: u8)
    requires
        embeds(a, b, k),
        0 <= pos,
        parse_expression(a, pos, min) is Ok,
    ensures
        parse_expression(b, pos + k, min) == parse_expression(a, pos, min),
        pos + parse_expression(a, pos, min)->Ok_0.1 <= a.len(),
    decreases remaining(a, pos), 2int,
{
    lemma_embedded_prefix(a, b, k, pos);
    let (lhs, n) = parse_prefix(a, pos)->Ok_0;
    lemma_embedded_infix(a, b, k, lhs, pos + n, min);
}

/// A parse ends within the tokens: it takes no more tokens than there are
/// from where it starts.
pub proof fn lemma_expression_within(ts: Seq<Token>, pos: int, min: u8)
    requires
        0 <= pos,
        parse_expression(ts, pos, min) is Ok,
    ensures
        pos + parse_expression(ts, pos, min)->Ok_0.1 <= ts.len(),
{
    lemma_embedded_expression(ts, ts, 0, pos, min);
}

/// Parentheses around a whole expression add one node on top of its tree
/// and change nothing below: where tokens parse, to their end, as the tree
/// `e`, the same tokens between `(` and `)` parse as `e` in parentheses.
pub proof fn lemma_parenthesized(ts: Seq<Token>, e: E)
    requires
        parse_expression(ts, 0, LOWEST_POWER) == Ok::<(E, nat), ParseError>((e, ts.len())),
    ensures
        parse_expression(seq![Token::LPAREN] + ts + seq![Token::RPAREN], 0, LOWEST_POWER) == Ok::<
            (E, nat),
            ParseError,
        >((E::PAREN(Box::new(e)), ts.len() + 2)),
{
    let wrapped = seq![Token::LPAREN] + ts + seq![Token::RPAREN];
    let group = E::PAREN(Box::new(e));
    let n = ts.len() as int;
    assert(embeds(ts, wrapped, 1)) by {
        assert forall|i: int| 0 <= i < ts.len() implies wrapped[1 + i] == #[trigger] ts[i] by {}
    }
    lemma_embedded_expression(ts, wrapped, 1, 0, LOWEST_POWER);
    assert(parse_infix(wrapped, group, n + 2, LOWEST_POWER) == Ok::<(E, nat), ParseError>(
        (group, 0),
    ));
}

/// The larger of two numbers.
pub open spec fn larger(a: nat, b: nat) -> nat {
    if a >= b {
        a
    } else {
        b
    }
}

/// The number of nodes on the longest way from the top of a tree to a
/// literal.
pub open spec fn depth(e: E) -> nat
    decreases e,
{
    match e {
        E::LITERAL(_) => 1,
        E::UNARY(_, operand) => 1 + depth(*operand),
        E::BINARY(left, _, right) => 1 + larger(depth(*left), depth(*right)),
        E::PAREN(inner) => 1 + depth(*inner),
        E::IF(cond, then, otherwise) => 1 + larger(
            depth(*cond),
            larger(depth(*then), depth(*otherwise)),
        ),
    }
}

/// Every tree has a top.
pub proof fn lemma_depth_positive(e: E)
    ensures
        depth(e) >= 1,
{
}

/// What starts an expression is made of at least one token and is no
/// deeper than the number of its tokens.
pub proof fn lemma_prefix_depth(ts: Seq<Token>, pos: int)
    requires
        parse_prefix(ts, pos) is Ok,
    ensures
        1 <= depth(parse_prefix(ts, pos)->Ok_0.0) <= parse_prefix(ts, pos)->Ok_0.1,
    decreases remaining(ts, pos), 1int,
{
    match ts[pos] {
        Token::OPERATOR(_) => {
            lemma_expression_depth(ts, pos + 1, UNARY_POWER);
        },
        Token::LPAREN => {
            lemma_expression_depth(ts, pos + 1, LOWEST_POWER);
        },
        Token::IF => {
            lemma_expression_depth(ts, pos + 1, LOWEST_POWER);
            let n = parse_expression(ts, pos + 1, LOWEST_POWER)->Ok_0.1;
            let then_at = pos + 1 + n + 1;
            lemma_expression_depth(ts, then_at, LOWEST_POWER);
            let m = parse_expression(ts, then_at, LOWEST_POWER)->Ok_0.1;
            lemma_expression_depth(ts, then_at + m + 1, UNARY_POWER);
        },
        _ => {},
    }
}

/// A left operand that is extended grows no deeper than by the number of
/// tokens that the extension takes.
pub proof fn lemma_infix_depth(ts: Seq<Token>, lhs: E, pos: int, min: u8)
    requires
        parse_infix(ts, lhs, pos, min) is Ok,
    ensures
        depth(parse_infix(ts, lhs, pos, min)->Ok_0.0) <= depth(lhs) + parse_infix(
            ts,
            lhs,
            pos,
            min,
        )->Ok_0.1,
    decreases remaining(ts, pos), 0int,
{
    if 0 <= pos < ts.len() {
        if let Token::OPERATOR(op) = ts[pos] {
            if binding_power(op) >= min {
                lemma_expression_depth(ts, pos + 1, binding_power(op));
                let (rhs, n) = parse_expression(ts, pos + 1, binding_power(op))->Ok_0;
                lemma_infix_depth(
                    ts,
                    E::BINARY(Box::new(lhs), op, Box::new(rhs)),
                    pos + 1 + n,
                    min,
                );
            }
        }
    }
}

/// A tree is never deeper than the number of tokens it was parsed from, and
/// no tree is parsed from no token.
pub proof fn lemma_expression_depth(ts: Seq<Token>, pos: int, min: u8)
    requires
        parse_expression(ts, pos, min) is Ok,
    ensures
        1 <= depth(parse_expression(ts, pos, min)->Ok_0.0) <= parse_expression(
            ts,
            pos,
            min,
        )->Ok_0.1,
    decreases remaining(ts, pos), 2int,
{
    lemma_prefix_depth(ts, pos);
    let (lhs, n) = parse_prefix(ts, pos)->Ok_0;
    lemma_infix_depth(ts, lhs, pos + n, min);
    lemma_depth_positive(parse_expression(ts, pos, min)->Ok_0.0);
}

/// The operators that the shift-reduce parser has a symbol for.
pub open spec fn is_shifted(op: OP) -> bool {
    op == OP::PLUS || op == OP::MULT || op == OP::POW
}

/// Two operators between three literals, parsed by shifting and reducing.
/// Where the second binds more tightly than the first, it takes the middle
/// literal and the tree nests to the right. Where it does not, the first takes
/// the middle literal and the tree nests to the left: so it is in a chain of
/// operators of one precedence, where parsing by binding power nests to the
/// right.
pub proof fn lemma_shift_reduce_chain(a: u32, first: OP, b: u32, second: OP, c: u32)
    requires
        is_shifted(first),
        is_shifted(second),
    ensures
        parse(
            seq![
                Token::LITERAL(a),
                Token::OPERATOR(first),
                Token::LITERAL(b),
                Token::OPERATOR(second),
                Token::LITERAL(c),
            ],
        ) == Ok::<E, ShiftError>(
            if precedence(second)->0 > precedence(first)->0 {
                E::BINARY(
                    Box::new(E::LITERAL(a)),
                    first,
                    Box::new(E::BINARY(Box::new(E::LITERAL(b)), second, Box::new(E::LITERAL(c)))),
                )
            } else {
                E::BINARY(
                    Box::new(E::BINARY(Box::new(E::LITERAL(a)), first, Box::new(E::LITERAL(b)))),
                    second,
                    Box::new(E::LITERAL(c)),
                )
            },
        ),
{
    let ts = seq![
        Token::LITERAL(a),
        Token::OPERATOR(first),
        Token::LITERAL(b),
        Token::OPERATOR(second),
        Token::LITERAL(c),
    ];
    let ea = Type::EXPRESSION(E::LITERAL(a));
    let eb = Type::EXPRESSION(E::LITERAL(b));
    let ec = Type::EXPRESSION(E::LITERAL(c));
    let o1 = Type::OP(first);
    let o2 = Type::OP(second);
    let s1 = seq![ea];
    let s2 = seq![ea, o1];
    let s3 = seq![ea, o1, eb];
    assert(s1.push(o1) =~= s2);
    assert(s2.push(eb) =~= s3);
    if precedence(second)->0 > precedence(first)->0 {
        let inner = Type::EXPRESSION(
            E::BINARY(Box::new(E::LITERAL(b)), second, Box::new(E::LITERAL(c))),
        );
        let whole = E::BINARY(
            Box::new(E::LITERAL(a)),
            first,
            Box::new(E::BINARY(Box::new(E::LITERAL(b)), second, Box::new(E::LITERAL(c)))),
        );
        let s4 = seq![ea, o1, eb, o2];
        let s5 = seq![ea, o1, eb, o2, ec];
        let s6 = seq![ea, o1, inner];
        let s7 = seq![Type::EXPRESSION(whole)];
        assert(s3.push(o2) =~= s4);
        assert(s4.push(ec) =~= s5);
        assert(reduce_once(ts, s5, 5) == Some(s6));
        assert(reduce_once(ts, s6, 5) == Some(s7));
        assert(reduce_all(ts, s6, 5) == s7);
        assert(drive(ts, s7, 5).stack == s7 && drive(ts, s7, 5).refused is None);
        assert(drive(ts, s3, 3) == drive(ts, s4, 4));
        assert(drive(ts, s1, 1) == drive(ts, s2, 2));
    } else {
        let inner = E::BINARY(Box::new(E::LITERAL(a)), first, Box::new(E::LITERAL(b)));
        let whole = E::BINARY(Box::new(inner), second, Box::new(E::LITERAL(c)));
        let r3 = seq![Type::EXPRESSION(inner)];
        let s4 = seq![Type::EXPRESSION(inner), o2];
        let s5 = seq![Type::EXPRESSION(inner), o2, ec];
        let s6 = seq![Type::EXPRESSION(whole)];
        assert(r3.push(o2) =~= s4);
        assert(s4.push(ec) =~= s5);
        assert(reduce_once(ts, s3, 3) == Some(r3));
        assert(reduce_once(ts, s5, 5) == Some(s6));
        assert(drive(ts, s6, 5).stack == s6 && drive(ts, s6, 5).refused is None);
        assert(drive(ts, r3, 3) == drive(ts, s4, 4));
    }
}

/// The tokens of the numbers `values` with the operator `op` between each
/// two of them.
pub open spec fn chain(values: Seq<u32>, op: OP) -> Seq<Token>
    recommends
        values.len() >= 1,
{
    Seq::new(
        (2 * values.len() - 1) as nat,
        |i: int|
            if i % 2 == 0 {
                Token::LITERAL(values[i / 2])
            } else {
                Token::OPERATOR(op)
            },
    )
}

/// The numbers from index `from` on, joined by `op` and nested to the
/// right: the first with all the rest.
pub open spec fn nested_right(values: Seq<u32>, op: OP, from: int) -> E
    decreases values.len() - from,
{
    if from + 1 >= values.len() {
        E::LITERAL(values[from])
    } else {
        E::BINARY(
            Box::new(E::LITERAL(values[from])),
            op,
            Box::new(nested_right(values, op, from + 1)),
        )
    }
}

/// The numbers up to index `upto`, joined by `op` and nested to the left:
/// all but the last with the last.
pub open spec fn nested_left(values: Seq<u32>, op: OP, upto: int) -> E
    decreases upto,
{
    if upto <= 0 {
        E::LITERAL(values[0])
    } else {
        E::BINARY(
            Box::new(nested_left(values, op, upto - 1)),
            op,
            Box::new(E::LITERAL(values[upto])),
        )
    }
}

/// Parsed by binding power, a chain of one operator nests to the right,
/// however long it is, from each of its numbers on.
pub proof fn lemma_chain_nests_right(values: Seq<u32>, op: OP, from: int, min: u8)
    requires
        0 <= from < values.len(),
        min <= binding_power(op),
    ensures
        parse_expression(chain(values, op), 2 * from, min) == Ok::<(E, nat), ParseError>(
            (nested_right(values, op, from), (2 * (values.len() - from) - 1) as nat),
        ),
    decreases values.len() - from,
{
    let ts = chain(values, op);
    let first = E::LITERAL(values[from]);
    if from + 1 < values.len() {
        lemma_chain_nests_right(values, op, from + 1, binding_power(op));
        let whole = nested_right(values, op, from);
        assert(parse_infix(ts, whole, ts.len() as int, min) == Ok::<(E, nat), ParseError>(
            (whole, 0),
        ));
        assert(parse_infix(ts, first, 2 * from + 1, min) == Ok::<(E, nat), ParseError>(
            (whole, (2 * (values.len() - from) - 2) as nat),
        ));
    } else {
        assert(parse_infix(ts, first, 2 * from + 1, min) == Ok::<(E, nat), ParseError>(
            (first, 0),
        ));
    }
}

/// Parsed by shifting and reducing, a chain of one operator nests to the
/// left, however long it is: with the numbers up to one of them reduced to one
/// expression, the parser ends with all of them reduced to one.
pub proof fn lemma_chain_nests_left(values: Seq<u32>, op: OP, upto: int)
    requires
        0 <= upto < values.len(),
        is_shifted(op),
    ensures
        drive(
            chain(values, op),
            seq![Type::EXPRESSION(nested_left(values, op, upto))],
            2 * upto + 1,
        ).stack == seq![Type::EXPRESSION(nested_left(values, op, values.len() - 1))],
        drive(
            chain(values, op),
            seq![Type::EXPRESSION(nested_left(values, op, upto))],
            2 * upto + 1,
        ).refused is None,
    decreases values.len() - upto,
{
    let ts = chain(values, op);
    let at = 2 * upto + 1;
    let done = Type::EXPRESSION(nested_left(values, op, upto));
    let one = seq![done];
    if upto + 1 < values.len() {
        let number = Type::EXPRESSION(E::LITERAL(values[upto + 1]));
        let two = seq![done, Type::OP(op)];
        let three = seq![done, Type::OP(op), number];
        let next = seq![Type::EXPRESSION(nested_left(values, op, upto + 1))];
        assert(one.push(Type::OP(op)) =~= two);
        assert(two.push(number) =~= three);
        assert(reduce_once(ts, three, at + 2) == Some(next)) by {
            assert(three.take(0).push(Type::EXPRESSION(nested_left(values, op, upto + 1)))
                =~= next);
        }
        lemma_chain_nests_left(values, op, upto + 1);
        assert(drive(ts, two, at + 1) == drive(ts, next, at + 2));
    }
}

/// A chain of one operator, of any length, under the two parsers: parsing by
/// binding power nests it to the right, parsing by shifting and reducing
/// nests it to the left. Both take the whole chain.
pub proof fn lemma_chain_associativity(values: Seq<u32>, op: OP)
    requires
        values.len() >= 1,
    ensures
        parse_expression(chain(values, op), 0, LOWEST_POWER) == Ok::<(E, nat), ParseError>(
            (nested_right(values, op, 0), chain(values, op).len()),
        ),
        is_shifted(op) ==> parse(chain(values, op)) == Ok::<E, ShiftError>(
            nested_left(values, op, values.len() - 1),
        ),
{
    lemma_chain_nests_right(values, op, 0, LOWEST_POWER);
    if is_shifted(op) {
        lemma_chain_nests_left(values, op, 0);
    }
}

} // verus!
