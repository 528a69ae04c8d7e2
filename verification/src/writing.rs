//! Writing an expression out as tokens, with parentheses only where the
//! order of operations needs them, and reading it back: the parser gives
//! back every expression of numbers, identifiers, calls, negations and
//! binary operators from its written form.
use vstd::prelude::*;
use crate::lexer::{is_builtin_function, is_operator_char};
use crate::parser::{
    binding, close_group, is_binary_operator, is_negation, operator_char, parse_climb,
    parse_operand_spec, parse_spec, spec_operator_info, Expr, OpType,
};
use crate::token::Token;

verus! {

/// Whether `e` can be written out: it is made of numbers, identifiers,
/// calls, negations and the binary operators `= + - / * ^`, with no
/// placeholder.
pub open spec fn writable(e: Expr) -> bool
    decreases e,
{
    match e {
        Expr::Number { .. } => true,
        Expr::Identifier { .. } => true,
        Expr::Function { arg, .. } => writable(*arg),
        Expr::Operator { lhs, rhs: Some(r), op } => {
            &&& is_operator_char(operator_char(op))
            &&& writable(*lhs)
            &&& writable(*r)
        },
        Expr::Operator { lhs, rhs: None, op } => op == OpType::Sub && writable(*lhs),
        Expr::Placeholder => false,
    }
}

/// Whether `l` needs no parentheses as the left operand of `op`: it binds
/// more tightly, or as tightly and `op` associates to the left.
pub open spec fn bare_left(l: Expr, op: OpType) -> bool {
    let (_, p, right) = spec_operator_info(operator_char(op), false);
    binding(l) > p || (binding(l) == p && !right)
}

/// Whether `r` needs no parentheses as the right operand of `op`: it binds
/// more tightly, or as tightly and `op` associates to the right, or it is a
/// negation.
pub open spec fn bare_right(r: Expr, op: OpType) -> bool {
    let (_, p, right) = spec_operator_info(operator_char(op), false);
    binding(r) > p || (binding(r) == p && right) || is_negation(r)
}

/// The token that names the function `name`: a builtin or an identifier.
pub open spec fn name_token(name: String) -> Token {
    if is_builtin_function(name@) {
        Token::Builtin(name)
    } else {
        Token::Identifier(name)
    }
}

/// `e` written out as tokens, with each operand that binds too loosely for
/// its place in parentheses.
pub open spec fn written(e: Expr) -> Seq<Token>
    decreases e,
{
    match e {
        Expr::Number { value } => seq![Token::Number(value)],
        Expr::Identifier { value } => seq![Token::Identifier(value)],
        Expr::Function { name, arg } => seq![name_token(name), Token::OpenParen] + written(*arg)
            + seq![Token::CloseParen],
        Expr::Operator { lhs, rhs: Some(r), op } => (if bare_left(*lhs, op) {
            written(*lhs)
        } else {
            seq![Token::OpenParen] + written(*lhs) + seq![Token::CloseParen]
        }) + seq![Token::Operator(operator_char(op))] + (if bare_right(*r, op) {
            written(*r)
        } else {
            seq![Token::OpenParen] + written(*r) + seq![Token::CloseParen]
        }),
        Expr::Operator { lhs, rhs: None, op } => seq![Token::Operator(operator_char(op))] + (
        if binding(*lhs) > 4 {
            written(*lhs)
        } else {
            seq![Token::OpenParen] + written(*lhs) + seq![Token::CloseParen]
        }),
        Expr::Placeholder => Seq::empty(),
    }
}

/// Whether `rest` can follow a complete operand: nothing, a closing
/// parenthesis or a binary operator.
pub open spec fn after_operand(rest: Seq<Token>) -> bool {
    rest.len() == 0 || rest[0] is CloseParen || is_binary_operator(rest[0])
}

/// Whether `rest` can follow `e` written bare: after an operand, and an
/// operator there may take `e` as its left operand.
pub open spec fn after_bare(e: Expr, rest: Seq<Token>) -> bool {
    &&& after_operand(rest)
    &&& rest.len() > 0 && rest[0] is Operator ==> {
        let (_, q, right) = spec_operator_info(rest[0]->Operator_0, false);
        binding(e) > q || (binding(e) == q && !right)
    }
}

proof fn lemma_binding_positive(e: Expr)
    requires
        writable(e),
    ensures
        binding(e) > 0,
{
}

proof fn lemma_parse_group_written(e: Expr, rest: Seq<Token>, p: u64)
    requires
        writable(e),
        after_operand(rest),
    ensures
        parse_spec(seq![Token::OpenParen] + written(e) + seq![Token::CloseParen] + rest, p)
            == parse_climb(rest, p, e),
    decreases e, 1nat,
{
    let toks = seq![Token::OpenParen] + written(e) + seq![Token::CloseParen] + rest;
    let inner = written(e) + (seq![Token::CloseParen] + rest);
    assert(toks[0] == Token::OpenParen);
    assert(toks.drop_first() =~= inner);
    lemma_binding_positive(e);
    lemma_parse_written(e, seq![Token::CloseParen] + rest, 0);
    assert((seq![Token::CloseParen] + rest)[0] == Token::CloseParen);
    assert((seq![Token::CloseParen] + rest).drop_first() =~= rest);
    assert(parse_climb(seq![Token::CloseParen] + rest, 0, e) == (e, seq![Token::CloseParen] + rest));
    assert(close_group((e, seq![Token::CloseParen] + rest)) == (e, rest));
    assert(parse_operand_spec(toks) == (e, rest));
}

#[verifier::rlimit(60)]
proof fn lemma_parse_written(e: Expr, rest: Seq<Token>, p: u64)
    requires
        writable(e),
        binding(e) > p || is_negation(e),
        after_bare(e, rest),
    ensures
        parse_spec(written(e) + rest, p) == parse_climb(rest, p, e),
    decreases e, 0nat,
{
    let toks = written(e) + rest;
    if rest.len() > 0 {
        assert(!(rest[0] is OpenParen));
    }
    match e {
        Expr::Number { value } => {
            assert(toks[0] == Token::Number(value));
            assert(toks.drop_first() =~= rest);
        },
        Expr::Identifier { value } => {
            assert(toks[0] == Token::Identifier(value));
            assert(toks.drop_first() =~= rest);
        },
        Expr::Function { name, arg } => {
            let a = *arg;
            let inner = written(a) + (seq![Token::CloseParen] + rest);
            assert(toks[0] == name_token(name));
            assert(toks.drop_first()[0] == Token::OpenParen);
            assert(toks.drop_first().drop_first() =~= inner);
            lemma_binding_positive(a);
            lemma_parse_written(a, seq![Token::CloseParen] + rest, 0);
            assert((seq![Token::CloseParen] + rest)[0] == Token::CloseParen);
            assert((seq![Token::CloseParen] + rest).drop_first() =~= rest);
            assert(parse_climb(seq![Token::CloseParen] + rest, 0, a) == (
                a,
                seq![Token::CloseParen] + rest,
            ));
            assert(parse_operand_spec(toks) == (e, rest));
        },
        Expr::Operator { lhs, rhs: None, op } => {
            let c = *lhs;
            assert(toks[0] == Token::Operator('-'));
            if rest.len() > 0 && rest[0] is Operator {
                assert(spec_operator_info(rest[0]->Operator_0, false).1 <= 4);
            }
            if binding(c) > 4 {
                assert(toks.drop_first() =~= written(c) + rest);
                lemma_parse_written(c, rest, 4);
            } else {
                assert(toks.drop_first() =~= seq![Token::OpenParen] + written(c) + seq![
                    Token::CloseParen,
                ] + rest);
                lemma_parse_group_written(c, rest, 4);
            }
            assert(parse_climb(rest, 4, c) == (c, rest));
            assert(parse_operand_spec(toks) == (e, rest));
        },
        Expr::Operator { lhs, rhs: Some(r), op } => {
            let l = *lhs;
            let r = *r;
            let o = operator_char(op);
            let (_, q, right) = spec_operator_info(o, false);
            let rq: u64 = if right {
                (q - 1) as u64
            } else {
                q
            };
            let wl = if bare_left(l, op) {
                written(l)
            } else {
                seq![Token::OpenParen] + written(l) + seq![Token::CloseParen]
            };
            let wr = if bare_right(r, op) {
                written(r)
            } else {
                seq![Token::OpenParen] + written(r) + seq![Token::CloseParen]
            };
            let y = seq![Token::Operator(o)] + wr + rest;
            assert(toks =~= wl + y);
            assert(y[0] == Token::Operator(o));
            if bare_left(l, op) {
                lemma_parse_written(l, y, p);
            } else {
                assert(wl + y =~= seq![Token::OpenParen] + written(l) + seq![Token::CloseParen] + y);
                lemma_parse_group_written(l, y, p);
            }
            if rest.len() > 0 && rest[0] is Operator {
                let c2 = rest[0]->Operator_0;
                assert(spec_operator_info(c2, false).1 <= rq);
            }
            if bare_right(r, op) {
                lemma_parse_written(r, rest, rq);
            } else {
                lemma_parse_group_written(r, rest, rq);
            }
            assert(parse_climb(rest, rq, r) == (r, rest));
            assert(y.drop_first() =~= wr + rest);
            assert(spec_operator_info(o, false).0 == op);
        },
        Expr::Placeholder => {},
    }
}

/// Order of operations, for every expression: an expression of numbers,
/// identifiers, calls, negations and binary operators, written out with
/// parentheses only where an operand binds too loosely for its place,
/// parses, to the end, back into itself. In particular a prefix `-` takes
/// as its operand only what binds more tightly than negation, whether a
/// number, an identifier, a call or a parenthesised group.
pub proof fn lemma_parse_written_expression(e: Expr)
    requires
        writable(e),
    ensures
        parse_spec(written(e), 0) == (e, Seq::<Token>::empty()),
{
    lemma_binding_positive(e);
    lemma_parse_written(e, Seq::empty(), 0);
    assert(written(e) + Seq::<Token>::empty() =~= written(e));
}

} // verus!
