//! Order of operations on a text: `a o1 b o2 c`, with numbers in decimal
//! digits, is read with the operator that binds more tightly taking the
//! middle number.
use vstd::prelude::*;
use crate::lexer::{
    ascii_digits_numeric, grouped_fractions, implied_tokens, is_operator_char, numeric_flags, scanned_tokens,
    whitespace_flags,
};
use crate::parser::{
    atom_expr, lemma_parse_tokens_of, operator_char, parse_spec, respects_precedence,
    spec_operator_info, tokens_of, Expr,
};
use crate::reading::{is_digits, lemma_tokens_of_spaced_text, spaced_text};
use crate::token::{views, NumberView, Token, TokenView};

verus! {

/// The tree that `a o1 b o2 c` is read as: `a o1 (b o2 c)` when `o2` binds
/// more tightly than `o1`, or as tightly and `o1` is right associative;
/// `(a o1 b) o2 c` otherwise.
pub open spec fn two_operator_tree(a: Expr, o1: char, b: Expr, o2: char, c: Expr) -> Expr {
    let (t1, p1, r1) = spec_operator_info(o1, false);
    let (t2, p2, _) = spec_operator_info(o2, false);
    if p1 < p2 || (p1 == p2 && r1) {
        Expr::Operator {
            lhs: Box::new(a),
            rhs: Some(Box::new(Expr::Operator { lhs: Box::new(b), rhs: Some(Box::new(c)), op: t2 })),
            op: t1,
        }
    } else {
        Expr::Operator {
            lhs: Box::new(Expr::Operator { lhs: Box::new(a), rhs: Some(Box::new(b)), op: t1 }),
            rhs: Some(Box::new(c)),
            op: t2,
        }
    }
}

/// Order of operations on a text: `a o1 b o2 c`, with numbers written in
/// decimal digits and a space on each side of each operator, has the tokens
/// `a`, `o1`, `b`, `o2`, `c`, and they parse, to the end, into
/// `two_operator_tree`. Here `toks` are tokens whose models are those
/// `tokenize` gives for the text (whose contract also states that among
/// ASCII characters exactly the digits are numeric).
pub proof fn lemma_text_order_of_operations(
    a: Seq<char>,
    o1: char,
    b: Seq<char>,
    o2: char,
    c: Seq<char>,
    toks: Seq<Token>,
)
    requires
        is_digits(a),
        is_digits(b),
        is_digits(c),
        is_operator_char(o1),
        is_operator_char(o2),
        ascii_digits_numeric(spaced_text(a, o1, b, o2, c)),
        views(toks) == implied_tokens(
            grouped_fractions(
                scanned_tokens(
                    spaced_text(a, o1, b, o2, c),
                    numeric_flags(spaced_text(a, o1, b, o2, c)),
                    whitespace_flags(spaced_text(a, o1, b, o2, c)),
                ),
            ),
        ),
    ensures
        toks.len() == 5,
        toks[0]@ == TokenView::Number(NumberView::Literal(a)),
        toks[1] == Token::Operator(o1),
        toks[2]@ == TokenView::Number(NumberView::Literal(b)),
        toks[3] == Token::Operator(o2),
        toks[4]@ == TokenView::Number(NumberView::Literal(c)),
        parse_spec(toks, 0) == (
            two_operator_tree(atom_expr(toks[0]), o1, atom_expr(toks[2]), o2, atom_expr(toks[4])),
            Seq::<Token>::empty(),
        ),
{
    lemma_tokens_of_spaced_text(a, o1, b, o2, c);
    let v = views(toks);
    assert(v.len() == 5);
    assert(v[0] == toks[0]@ && v[1] == toks[1]@ && v[2] == toks[2]@ && v[3] == toks[3]@ && v[4]
        == toks[4]@);
    assert(toks[0] is Number && toks[2] is Number && toks[4] is Number);
    assert(toks[1] == Token::Operator(o1) && toks[3] == Token::Operator(o2));
    let ea = atom_expr(toks[0]);
    let eb = atom_expr(toks[2]);
    let ec = atom_expr(toks[4]);
    assert(tokens_of(ea) =~= seq![toks[0]]);
    assert(tokens_of(eb) =~= seq![toks[2]]);
    assert(tokens_of(ec) =~= seq![toks[4]]);
    assert(respects_precedence(ea) && respects_precedence(eb) && respects_precedence(ec));
    let (t1, p1, r1) = spec_operator_info(o1, false);
    let (t2, p2, r2) = spec_operator_info(o2, false);
    assert(operator_char(t1) == o1 && operator_char(t2) == o2);
    assert(p1 > 0 && p2 > 0 && p1 != 5 && p2 != 5);
    if p1 == p2 {
        assert(r1 == r2);
    }
    let e = two_operator_tree(ea, o1, eb, o2, ec);
    if p1 < p2 || (p1 == p2 && r1) {
        let inner = Expr::Operator { lhs: Box::new(eb), rhs: Some(Box::new(ec)), op: t2 };
        assert(e == Expr::Operator { lhs: Box::new(ea), rhs: Some(Box::new(inner)), op: t1 });
        assert(respects_precedence(inner));
        assert(tokens_of(inner) =~= seq![toks[2], toks[3], toks[4]]);
        assert(respects_precedence(e));
        assert(tokens_of(e) =~= toks);
    } else {
        let inner = Expr::Operator { lhs: Box::new(ea), rhs: Some(Box::new(eb)), op: t1 };
        assert(e == Expr::Operator { lhs: Box::new(inner), rhs: Some(Box::new(ec)), op: t2 });
        assert(respects_precedence(inner));
        assert(tokens_of(inner) =~= seq![toks[0], toks[1], toks[2]]);
        assert(respects_precedence(e));
        assert(tokens_of(e) =~= toks);
    }
    lemma_parse_tokens_of(e);
}

} // verus!
