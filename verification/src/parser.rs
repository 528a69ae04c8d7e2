//! A Pratt parser from tokens to an expression tree.
//!
//! `parse_expr` reads an operand and keeps folding it into operator nodes
//! as long as the next operator binds more tightly than the precedence it
//! was called with. An operand is a number, an identifier, a function call
//! `f(..)`, a builtin call, a parenthesised group, or a prefix operator
//! applied to what follows; a group ends at its own closing parenthesis.
use vstd::prelude::*;
use std::collections::VecDeque;
use crate::lexer::{
    balanced, is_operator_char, lemma_excess_append, no_juxtaposed_pair, operators_known, paren_delta,
    paren_excess, run_together,
};
use crate::token::{views, Number, Token, TokenView};

verus! {

#[derive(Debug, PartialEq, Clone, Copy)]
pub enum OpType {
    Add,
    Sub,
    Mul,
    Div,
    Exp,
    Factorial,
    Equal,
}

impl Default for OpType {
    fn default() -> (res: OpType)
        ensures
            res == OpType::Add,
    {
        OpType::Add
    }
}

/// The operation of the operator `c`, its precedence, and whether it is
/// right associative. A `-` with nothing before it is a negation. From
/// loosest to tightest: `=`; `+` and `-`; `/`; `*`, which binds more
/// tightly than `/` so that `3 / 4x` is `3 / (4x)`; negation; `^`.
pub open spec fn spec_operator_info(c: char, is_unary: bool) -> (OpType, u64, bool) {
    if c == '=' {
        (OpType::Equal, 1, true)
    } else if c == '+' {
        (OpType::Add, 2, false)
    } else if c == '-' && !is_unary {
        (OpType::Sub, 2, false)
    } else if c == '-' && is_unary {
        (OpType::Sub, 5, true)
    } else if c == '*' {
        (OpType::Mul, 4, true)
    } else if c == '/' {
        (OpType::Div, 3, false)
    } else if c == '^' {
        (OpType::Exp, 6, true)
    } else if c == '!' {
        (OpType::Factorial, 5, true)
    } else {
        (OpType::Add, 0, false)
    }
}

/// Returns (operation, precedence, is right associative) of the operator
/// `c`; `is_unary` tells a negation from a subtraction.
pub fn operator_info(c: &char, is_unary: bool) -> (res: (OpType, u64, bool))
    ensures
        res == spec_operator_info(*c, is_unary),
{
    match c {
        '=' => (OpType::Equal, 1, true),
        '+' => (OpType::Add, 2, false),
        '-' if !is_unary => (OpType::Sub, 2, false),
        '-' if is_unary => (OpType::Sub, 5, true),
        '*' => (OpType::Mul, 4, true),
        '/' => (OpType::Div, 3, false),
        '^' => (OpType::Exp, 6, true),
        '!' => (OpType::Factorial, 5, true),
        _ => (OpType::Add, 0, false),
    }
}

/// An expression tree. `Placeholder` stands for a missing operand; an
/// operator node with no right-hand side is a negation.
#[derive(Debug, PartialEq)]
#[allow(inconsistent_fields)]
pub enum Expr {
    Placeholder,
    Operator { lhs: Box<Expr>, rhs: Option<Box<Expr>>, op: OpType },
    Number { value: Number },
    Identifier { value: String },
    Function { name: String, arg: Box<Expr> },
}

impl Default for Expr {
    fn default() -> (res: Expr)
        ensures
            res == Expr::Placeholder,
    {
        Expr::Placeholder
    }
}

/// A stream of tokens that are read from the front, one at a time.
pub struct TokenStream {
    tokens: VecDeque<Token>,
}

impl View for TokenStream {
    type V = Seq<Token>;

    /// The tokens not read yet.
    closed spec fn view(&self) -> Seq<Token> {
        self.tokens@
    }
}

impl TokenStream {
    /// A stream of `tokens`, in order.
    pub fn new(tokens: Vec<Token>) -> (res: TokenStream)
        ensures
            res@ == tokens@,
    {
        let ghost all = tokens@;
        let mut rest = tokens;
        let mut stream: VecDeque<Token> = VecDeque::new();
        while rest.len() > 0
            invariant
                rest@ + stream@ == all,
            decreases rest.len(),
        {
            let ghost before = rest@;
            let t = rest.pop().unwrap();
            stream.push_front(t);
            assert(before == rest@.push(t));
            assert(rest@ + stream@ =~= all);
        }
        assert(stream@ =~= all);
        TokenStream { tokens: stream }
    }

    /// Takes the next token, if any.
    pub fn next(&mut self) -> (res: Option<Token>)
        ensures
            match res {
                Some(t) => old(self)@.len() > 0 && t == old(self)@[0] && final(self)@ == old(
                    self,
                )@.drop_first(),
                None => old(self)@.len() == 0 && final(self)@ == old(self)@,
            },
    {
        let res = self.tokens.pop_front();
        proof {
            if res is Some {
                assert(self.tokens@ =~= old(self).tokens@.drop_first());
            }
        }
        res
    }

    /// The next token, if any, without taking it.
    pub fn peek(&self) -> (res: Option<&Token>)
        ensures
            res == (if self@.len() > 0 {
                Some(&self@[0])
            } else {
                None::<&Token>
            }),
    {
        if self.tokens.len() > 0 {
            Some(&self.tokens[0])
        } else {
            None
        }
    }

    /// The number of tokens not read yet.
    pub fn len(&self) -> (res: usize)
        ensures
            res == self@.len(),
    {
        self.tokens.len()
    }
}

/// `r` with the closing parenthesis of a group taken, if it is next.
pub open spec fn close_group(r: (Expr, Seq<Token>)) -> (Expr, Seq<Token>) {
    if r.1.len() > 0 && r.1[0] is CloseParen {
        (r.0, r.1.drop_first())
    } else {
        r
    }
}

/// What `parse_expr` gives on the tokens `toks` with precedence
/// `precedence`: the expression and the tokens left unread.
pub open spec fn parse_spec(toks: Seq<Token>, precedence: u64) -> (Expr, Seq<Token>)
    decreases toks.len(), 2nat,
{
    let (node, rest) = parse_operand_spec(toks);
    if rest.len() <= toks.len() {
        parse_climb(rest, precedence, node)
    } else {
        (node, rest)
    }
}

/// The operand at the front of `toks`, and the tokens after it. A closing
/// parenthesis (or nothing) where an operand is expected gives a
/// placeholder and is not taken. A builtin not followed by `(` is applied
/// to a placeholder and the token after it is left for what follows: the
/// output of `tokenize` has a builtin without `(` only at the end of the
/// text or of an implied argument, where that token is `)` (or there is
/// none).
pub open spec fn parse_operand_spec(toks: Seq<Token>) -> (Expr, Seq<Token>)
    decreases toks.len(), 1nat,
{
    if toks.len() == 0 {
        (Expr::Placeholder, toks)
    } else {
        let rest = toks.drop_first();
        let call = rest.len() > 0 && rest[0] is OpenParen;
        match toks[0] {
            Token::Number(value) => (Expr::Number { value }, rest),
            Token::Identifier(value) => if call {
                let (arg, after) = close_group(parse_spec(rest.drop_first(), 0));
                (Expr::Function { name: value, arg: Box::new(arg) }, after)
            } else {
                (Expr::Identifier { value }, rest)
            },
            Token::Builtin(value) => if call {
                let (arg, after) = close_group(parse_spec(rest.drop_first(), 0));
                (Expr::Function { name: value, arg: Box::new(arg) }, after)
            } else {
                (Expr::Function { name: value, arg: Box::new(Expr::Placeholder) }, rest)
            },
            Token::OpenParen => close_group(parse_spec(rest, 0)),
            Token::Operator(c) => {
                let (op, p, right) = spec_operator_info(c, c == '-');
                let (operand, after) = parse_spec(
                    rest,
                    if right {
                        (p - 1) as u64
                    } else {
                        p
                    },
                );
                if c == '-' {
                    (Expr::Operator { lhs: Box::new(operand), rhs: None, op }, after)
                } else {
                    (
                        Expr::Operator {
                            lhs: Box::new(Expr::Placeholder),
                            rhs: Some(Box::new(operand)),
                            op,
                        },
                        after,
                    )
                }
            },
            Token::CloseParen => (Expr::Placeholder, toks),
        }
    }
}

/// Folds `node` into operator nodes while the next token is an operator
/// that binds more tightly than `precedence`; its right operand is parsed
/// at its own precedence, one less for a right-associative operator.
pub open spec fn parse_climb(toks: Seq<Token>, precedence: u64, node: Expr) -> (Expr, Seq<Token>)
    decreases toks.len(), 0nat,
{
    if toks.len() > 0 && toks[0] is Operator && spec_operator_info(toks[0]->Operator_0, false).1
        > precedence {
        let (op, p, right) = spec_operator_info(toks[0]->Operator_0, false);
        let (rhs, after) = parse_spec(
            toks.drop_first(),
            if right {
                (p - 1) as u64
            } else {
                p
            },
        );
        let node2 = Expr::Operator { lhs: Box::new(node), rhs: Some(Box::new(rhs)), op };
        if after.len() < toks.len() {
            parse_climb(after, precedence, node2)
        } else {
            (node2, after)
        }
    } else {
        (node, toks)
    }
}

/// `s` is what is left of `t` after some tokens were read from its front.
pub open spec fn is_suffix_of<T>(s: Seq<T>, t: Seq<T>) -> bool {
    s.len() <= t.len() && s == t.subrange(t.len() - s.len(), t.len() as int)
}

proof fn lemma_suffix_trans<T>(a: Seq<T>, b: Seq<T>, c: Seq<T>)
    requires
        is_suffix_of(a, b),
        is_suffix_of(b, c),
    ensures
        is_suffix_of(a, c),
{
    assert(a =~= c.subrange(c.len() - a.len(), c.len() as int));
}

proof fn lemma_suffix_drop_first<T>(t: Seq<T>)
    requires
        t.len() > 0,
    ensures
        is_suffix_of(t.drop_first(), t),
        is_suffix_of(t, t),
{
    assert(t.drop_first() =~= t.subrange(1, t.len() as int));
    assert(t =~= t.subrange(0, t.len() as int));
}

proof fn lemma_close_group_suffix(r: (Expr, Seq<Token>), t: Seq<Token>)
    requires
        is_suffix_of(r.1, t),
    ensures
        is_suffix_of(close_group(r).1, t),
{
    if r.1.len() > 0 && r.1[0] is CloseParen {
        lemma_suffix_drop_first(r.1);
        lemma_suffix_trans(r.1.drop_first(), r.1, t);
    }
}

/// Parsing reads tokens from the front: what is left is a suffix of the
/// input.
pub proof fn lemma_parse_suffix(toks: Seq<Token>, precedence: u64)
    ensures
        is_suffix_of(parse_spec(toks, precedence).1, toks),
    decreases toks.len(), 2nat,
{
    lemma_operand_suffix(toks);
    let (node, rest) = parse_operand_spec(toks);
    lemma_climb_suffix(rest, precedence, node);
    lemma_suffix_trans(parse_climb(rest, precedence, node).1, rest, toks);
}

proof fn lemma_operand_suffix(toks: Seq<Token>)
    ensures
        is_suffix_of(parse_operand_spec(toks).1, toks),
    decreases toks.len(), 1nat,
{
    if toks.len() == 0 {
        assert(toks =~= toks.subrange(0, 0));
    } else {
        let rest = toks.drop_first();
        lemma_suffix_drop_first(toks);
        let call = rest.len() > 0 && rest[0] is OpenParen;
        if call {
            lemma_suffix_drop_first(rest);
            lemma_suffix_trans(rest.drop_first(), rest, toks);
            lemma_parse_suffix(rest.drop_first(), 0);
            lemma_suffix_trans(parse_spec(rest.drop_first(), 0).1, rest.drop_first(), toks);
            lemma_close_group_suffix(parse_spec(rest.drop_first(), 0), toks);
        }
        match toks[0] {
            Token::OpenParen => {
                lemma_parse_suffix(rest, 0);
                lemma_suffix_trans(parse_spec(rest, 0).1, rest, toks);
                lemma_close_group_suffix(parse_spec(rest, 0), toks);
            },
            Token::Operator(c) => {
                let (op, p, right) = spec_operator_info(c, c == '-');
                let q: u64 = if right {
                    (p - 1) as u64
                } else {
                    p
                };
                lemma_parse_suffix(rest, q);
                lemma_suffix_trans(parse_spec(rest, q).1, rest, toks);
            },
            _ => {},
        }
    }
}

proof fn lemma_climb_suffix(toks: Seq<Token>, precedence: u64, node: Expr)
    ensures
        is_suffix_of(parse_climb(toks, precedence, node).1, toks),
    decreases toks.len(), 0nat,
{
    if toks.len() > 0 && toks[0] is Operator && spec_operator_info(toks[0]->Operator_0, false).1
        > precedence {
        let (op, p, right) = spec_operator_info(toks[0]->Operator_0, false);
        let q: u64 = if right {
            (p - 1) as u64
        } else {
            p
        };
        lemma_suffix_drop_first(toks);
        lemma_parse_suffix(toks.drop_first(), q);
        let (rhs, after) = parse_spec(toks.drop_first(), q);
        lemma_suffix_trans(after, toks.drop_first(), toks);
        let node2 = Expr::Operator { lhs: Box::new(node), rhs: Some(Box::new(rhs)), op };
        lemma_climb_suffix(after, precedence, node2);
        lemma_suffix_trans(parse_climb(after, precedence, node2).1, after, toks);
    } else {
        assert(toks =~= toks.subrange(0, toks.len() as int));
    }
}

/// Parses a group up to and including its closing parenthesis (if there
/// is one).
fn parse_group(tokens: &mut TokenStream) -> (res: Expr)
    ensures
        (res, final(tokens)@) == close_group(parse_spec(old(tokens)@, 0)),
        is_suffix_of(final(tokens)@, old(tokens)@),
    decreases old(tokens)@.len(), 3nat,
{
    let e = parse_expr(tokens, 0);
    proof {
        lemma_close_group_suffix((e, tokens@), old(tokens)@);
    }
    if matches!(tokens.peek(), Some(Token::CloseParen)) {
        tokens.next();
    }
    e
}

/// Parses the operand at the front of `tokens`.
fn parse_operand(tokens: &mut TokenStream) -> (res: Expr)
    ensures
        (res, final(tokens)@) == parse_operand_spec(old(tokens)@),
        is_suffix_of(final(tokens)@, old(tokens)@),
    decreases old(tokens)@.len(), 1nat,
{
    proof {
        lemma_operand_suffix(tokens@);
    }
    if tokens.len() == 0 || matches!(tokens.peek(), Some(Token::CloseParen)) {
        return Expr::Placeholder;
    }
    let token = match tokens.next() {
        Some(t) => t,
        None => {
            return Expr::Placeholder;
        },
    };
    match token {
        Token::Number(value) => Expr::Number { value },
        Token::Identifier(value) => {
            if matches!(tokens.peek(), Some(Token::OpenParen)) {
                tokens.next();
                Expr::Function { name: value, arg: Box::new(parse_group(tokens)) }
            } else {
                Expr::Identifier { value }
            }
        },
        Token::Builtin(value) => {
            if matches!(tokens.peek(), Some(Token::OpenParen)) {
                tokens.next();
                Expr::Function { name: value, arg: Box::new(parse_group(tokens)) }
            } else {
                Expr::Function { name: value, arg: Box::new(Expr::Placeholder) }
            }
        },
        Token::OpenParen => parse_group(tokens),
        Token::Operator(c) => {
            let (op, p, right_associative) = operator_info(&c, c == '-');
            let p = if right_associative {
                p - 1
            } else {
                p
            };
            let operand = parse_expr(tokens, p);
            if c == '-' {
                Expr::Operator { lhs: Box::new(operand), rhs: None, op }
            } else {
                Expr::Operator { lhs: Box::new(Expr::Placeholder), rhs: Some(Box::new(operand)), op }
            }
        },
        Token::CloseParen => Expr::Placeholder,
    }
}

/// Parses an expression from `tokens`: an operand, folded into operator
/// nodes while the next operator binds more tightly than `precedence`.
pub fn parse_expr(tokens: &mut TokenStream, precedence: u64) -> (res: Expr)
    ensures
        (res, final(tokens)@) == parse_spec(old(tokens)@, precedence),
        is_suffix_of(final(tokens)@, old(tokens)@),
    decreases old(tokens)@.len(), 2nat,
{
    let ghost start = tokens@;
    proof {
        lemma_parse_suffix(start, precedence);
    }
    let mut node = parse_operand(tokens);
    loop
        invariant_except_break
            parse_climb(tokens@, precedence, node) == parse_spec(start, precedence),
            is_suffix_of(tokens@, start),
            start == old(tokens)@,
        ensures
            (node, tokens@) == parse_spec(start, precedence),
        decreases tokens@.len(),
    {
        let info = match tokens.peek() {
            Some(Token::Operator(c)) => Some(operator_info(c, false)),
            _ => None,
        };
        match info {
            Some((op, p, right_associative)) => {
                if p <= precedence {
                    break;
                }
                let ghost toks = tokens@;
                tokens.next();
                let q = if right_associative {
                    p - 1
                } else {
                    p
                };
                let rhs = parse_expr(tokens, q);
                node = Expr::Operator { lhs: Box::new(node), rhs: Some(Box::new(rhs)), op };
                proof {
                    lemma_suffix_drop_first(toks);
                    lemma_suffix_trans(tokens@, toks.drop_first(), toks);
                    lemma_suffix_trans(tokens@, toks, start);
                }
            },
            None => {
                break;
            },
        }
    }
    node
}

/// Parsing looks no further than where it stops: when the parse of `u`
/// leaves tokens unread, appending `w` to `u` changes nothing but the
/// tokens left unread.
pub proof fn lemma_parse_append(u: Seq<Token>, w: Seq<Token>, precedence: u64)
    requires
        parse_spec(u, precedence).1.len() > 0,
    ensures
        parse_spec(u + w, precedence) == (
            parse_spec(u, precedence).0,
            parse_spec(u, precedence).1 + w,
        ),
    decreases u.len(), 2nat,
{
    let (node, rest) = parse_operand_spec(u);
    lemma_operand_suffix(u);
    lemma_operand_suffix(u + w);
    if rest.len() == 0 {
        assert(parse_climb(rest, precedence, node).1.len() == 0);
    } else {
        lemma_operand_append(u, w);
        lemma_climb_append(rest, w, precedence, node);
    }
}

proof fn lemma_operand_append(u: Seq<Token>, w: Seq<Token>)
    requires
        parse_operand_spec(u).1.len() > 0,
    ensures
        parse_operand_spec(u + w) == (parse_operand_spec(u).0, parse_operand_spec(u).1 + w),
    decreases u.len(), 1nat,
{
    let rest = u.drop_first();
    assert((u + w).drop_first() =~= rest + w);
    assert((u + w)[0] == u[0]);
    if rest.len() > 0 {
        assert((rest + w)[0] == rest[0]);
        assert((rest + w).drop_first() =~= rest.drop_first() + w);
    }
    let call = rest.len() > 0 && rest[0] is OpenParen;
    match u[0] {
        Token::Identifier(_) => {
            if call {
                lemma_group_append(rest.drop_first(), w);
            }
        },
        Token::Builtin(_) => {
            if call {
                lemma_group_append(rest.drop_first(), w);
            }
        },
        Token::OpenParen => {
            lemma_group_append(rest, w);
        },
        Token::Operator(c) => {
            let (op, p, right) = spec_operator_info(c, c == '-');
            let q: u64 = if right {
                (p - 1) as u64
            } else {
                p
            };
            lemma_parse_append(rest, w, q);
        },
        _ => {},
    }
}

proof fn lemma_group_append(v: Seq<Token>, w: Seq<Token>)
    requires
        close_group(parse_spec(v, 0)).1.len() > 0,
    ensures
        close_group(parse_spec(v + w, 0)) == (
            close_group(parse_spec(v, 0)).0,
            close_group(parse_spec(v, 0)).1 + w,
        ),
    decreases v.len(), 3nat,
{
    let r = parse_spec(v, 0).1;
    if r.len() == 0 {
    } else {
        lemma_parse_append(v, w, 0);
        assert((r + w)[0] == r[0]);
        assert((r + w).drop_first() =~= r.drop_first() + w);
    }
}

proof fn lemma_climb_append(u: Seq<Token>, w: Seq<Token>, precedence: u64, node: Expr)
    requires
        parse_climb(u, precedence, node).1.len() > 0,
    ensures
        parse_climb(u + w, precedence, node) == (
            parse_climb(u, precedence, node).0,
            parse_climb(u, precedence, node).1 + w,
        ),
    decreases u.len(), 0nat,
{
    if u.len() > 0 {
        assert((u + w)[0] == u[0]);
        assert((u + w).drop_first() =~= u.drop_first() + w);
        if u[0] is Operator && spec_operator_info(u[0]->Operator_0, false).1 > precedence {
            let (op, p, right) = spec_operator_info(u[0]->Operator_0, false);
            let q: u64 = if right {
                (p - 1) as u64
            } else {
                p
            };
            let (rhs, after) = parse_spec(u.drop_first(), q);
            lemma_parse_suffix(u.drop_first(), q);
            let node2 = Expr::Operator { lhs: Box::new(node), rhs: Some(Box::new(rhs)), op };
            if after.len() == 0 {
                assert(parse_climb(after, precedence, node2).1.len() == 0);
            } else {
                lemma_parse_append(u.drop_first(), w, q);
                lemma_climb_append(after, w, precedence, node2);
            }
        }
    } else {
        assert(u + w =~= w);
    }
}

/// Grouping: a parenthesised group whose contents parse up to its closing
/// parenthesis is one operand, whatever follows it.
pub proof fn lemma_group(s: Seq<Token>, rest: Seq<Token>, precedence: u64)
    requires
        parse_spec(s + seq![Token::CloseParen], 0).1 == seq![Token::CloseParen],
    ensures
        parse_spec(seq![Token::OpenParen] + s + seq![Token::CloseParen] + rest, precedence)
            == parse_climb(rest, precedence, parse_spec(s + seq![Token::CloseParen], 0).0),
{
    let u = s + seq![Token::CloseParen];
    let toks = seq![Token::OpenParen] + s + seq![Token::CloseParen] + rest;
    lemma_parse_append(u, rest, 0);
    assert(toks[0] == Token::OpenParen);
    assert(toks.drop_first() =~= u + rest);
    assert(seq![Token::CloseParen] + rest =~= parse_spec(u, 0).1 + rest);
    assert((seq![Token::CloseParen] + rest).drop_first() =~= rest);
}

/// Function call: an identifier followed by a parenthesised group whose
/// contents parse up to its closing parenthesis is one operand, the
/// function applied to the group, whatever follows it.
pub proof fn lemma_function_call(name: String, s: Seq<Token>, rest: Seq<Token>, precedence: u64)
    requires
        parse_spec(s + seq![Token::CloseParen], 0).1 == seq![Token::CloseParen],
    ensures
        parse_spec(
            seq![Token::Identifier(name), Token::OpenParen] + s + seq![Token::CloseParen] + rest,
            precedence,
        ) == parse_climb(
            rest,
            precedence,
            Expr::Function {
                name,
                arg: Box::new(parse_spec(s + seq![Token::CloseParen], 0).0),
            },
        ),
{
    let u = s + seq![Token::CloseParen];
    let toks = seq![Token::Identifier(name), Token::OpenParen] + s + seq![Token::CloseParen] + rest;
    lemma_parse_append(u, rest, 0);
    assert(toks[0] == Token::Identifier(name));
    assert(toks.drop_first()[0] == Token::OpenParen);
    assert(toks.drop_first().drop_first() =~= u + rest);
    assert(seq![Token::CloseParen] + rest =~= parse_spec(u, 0).1 + rest);
    assert((seq![Token::CloseParen] + rest).drop_first() =~= rest);
}

/// Builtin call: a builtin followed by a parenthesised group whose contents
/// parse up to its closing parenthesis is one operand, the builtin applied
/// to the group, whatever follows it.
pub proof fn lemma_builtin_call(name: String, s: Seq<Token>, rest: Seq<Token>, precedence: u64)
    requires
        parse_spec(s + seq![Token::CloseParen], 0).1 == seq![Token::CloseParen],
    ensures
        parse_spec(
            seq![Token::Builtin(name), Token::OpenParen] + s + seq![Token::CloseParen] + rest,
            precedence,
        ) == parse_climb(
            rest,
            precedence,
            Expr::Function {
                name,
                arg: Box::new(parse_spec(s + seq![Token::CloseParen], 0).0),
            },
        ),
{
    let u = s + seq![Token::CloseParen];
    let toks = seq![Token::Builtin(name), Token::OpenParen] + s + seq![Token::CloseParen] + rest;
    lemma_parse_append(u, rest, 0);
    assert(toks[0] == Token::Builtin(name));
    assert(toks.drop_first()[0] == Token::OpenParen);
    assert(toks.drop_first().drop_first() =~= u + rest);
    assert(seq![Token::CloseParen] + rest =~= parse_spec(u, 0).1 + rest);
    assert((seq![Token::CloseParen] + rest).drop_first() =~= rest);
}

/// A number or an identifier.
pub open spec fn is_atom(t: Token) -> bool {
    t is Number || t is Identifier
}

/// The expression that the atom `t` parses to.
pub open spec fn atom_expr(t: Token) -> Expr {
    match t {
        Token::Number(value) => Expr::Number { value },
        Token::Identifier(value) => Expr::Identifier { value },
        _ => Expr::Placeholder,
    }
}

/// One of the binary operators `= + - / * ^`.
pub open spec fn is_binary_operator(t: Token) -> bool {
    t is Operator && is_operator_char(t->Operator_0)
}

/// An operand, then binary operators each followed by an operand, where an
/// operand is a number or an identifier after any number of prefix `-`:
/// `a c1 -b c2 ... z`, with no parentheses and no calls.
pub open spec fn is_flat(toks: Seq<Token>) -> bool
    decreases toks.len(),
{
    if toks.len() == 0 {
        false
    } else if toks[0] == Token::Operator('-') {
        is_flat(toks.drop_first())
    } else {
        is_atom(toks[0]) && is_flat_tail(toks.drop_first())
    }
}

/// Binary operators each followed by an operand: what is left of a flat
/// sequence after an operand.
pub open spec fn is_flat_tail(toks: Seq<Token>) -> bool
    decreases toks.len(),
{
    toks.len() == 0 || (is_binary_operator(toks[0]) && is_flat(toks.drop_first()))
}

/// The operator character of the operation `op`.
pub open spec fn operator_char(op: OpType) -> char {
    match op {
        OpType::Add => '+',
        OpType::Sub => '-',
        OpType::Mul => '*',
        OpType::Div => '/',
        OpType::Exp => '^',
        OpType::Factorial => '!',
        OpType::Equal => '=',
    }
}

/// Whether `e` is a negation: an operator node with no right-hand side.
pub open spec fn is_negation(e: Expr) -> bool {
    e matches Expr::Operator { rhs: None, .. }
}

/// The tokens that `e` is read from, left to right: its atoms, with the
/// binary operators between them and the `-` before each negation.
pub open spec fn tokens_of(e: Expr) -> Seq<Token>
    decreases e,
{
    match e {
        Expr::Number { value } => seq![Token::Number(value)],
        Expr::Identifier { value } => seq![Token::Identifier(value)],
        Expr::Operator { lhs, rhs: Some(r), op } => tokens_of(*lhs) + seq![
            Token::Operator(operator_char(op)),
        ] + tokens_of(*r),
        Expr::Operator { lhs, rhs: None, op } => seq![Token::Operator(operator_char(op))]
            + tokens_of(*lhs),
        _ => Seq::empty(),
    }
}

/// How tightly the top of `e` binds: the precedence of its binary operator,
/// that of negation, or more than any operator for a number or an
/// identifier.
pub open spec fn binding(e: Expr) -> int {
    match e {
        Expr::Operator { rhs: Some(_), op, .. } => spec_operator_info(operator_char(op), false).1 as int,
        Expr::Operator { rhs: None, .. } => 5,
        _ => 7,
    }
}

/// Whether `e` is made of numbers, identifiers, negations and the binary
/// operators `= + - / * ^`, where the operand of each negation binds more
/// tightly than `*`, and the operands of each binary operator bind more
/// tightly than it, or as tightly on the side it associates to; a negation
/// may always stand on the right.
pub open spec fn respects_precedence(e: Expr) -> bool
    decreases e,
{
    match e {
        Expr::Number { .. } => true,
        Expr::Identifier { .. } => true,
        Expr::Operator { lhs, rhs: Some(r), op } => {
            let (_, p, right) = spec_operator_info(operator_char(op), false);
            &&& is_operator_char(operator_char(op))
            &&& (binding(*lhs) > p || (binding(*lhs) == p && !right))
            &&& (binding(*r) > p || (binding(*r) == p && right) || is_negation(*r))
            &&& respects_precedence(*lhs)
            &&& respects_precedence(*r)
        },
        Expr::Operator { lhs, rhs: None, op } => {
            &&& op == OpType::Sub
            &&& binding(*lhs) > 4
            &&& respects_precedence(*lhs)
        },
        _ => false,
    }
}

/// Whether the operator `c` may take `node` as its left operand.
pub open spec fn fits_left(node: Expr, c: char) -> bool {
    let (_, q, right) = spec_operator_info(c, false);
    binding(node) > q || (binding(node) == q && !right)
}

/// What parsing at precedence `p` leaves unread of a flat sequence:
/// nothing, or an operator that binds no more tightly than `p`, then the
/// rest of the sequence.
pub open spec fn stops_at(rest: Seq<Token>, p: u64) -> bool {
    &&& is_flat_tail(rest)
    &&& rest.len() > 0 ==> spec_operator_info(rest[0]->Operator_0, false).1 <= p
}

proof fn lemma_flat_parse(toks: Seq<Token>, p: u64)
    requires
        is_flat(toks),
        p < 6,
    ensures
        tokens_of(parse_spec(toks, p).0) + parse_spec(toks, p).1 == toks,
        respects_precedence(parse_spec(toks, p).0),
        binding(parse_spec(toks, p).0) > p || is_negation(parse_spec(toks, p).0),
        stops_at(parse_spec(toks, p).1, p),
    decreases toks.len(), 1nat,
{
    let t = toks[0];
    let rest = toks.drop_first();
    if t == Token::Operator('-') {
        lemma_flat_parse(rest, 4);
        lemma_parse_suffix(rest, 4);
        let (c, after) = parse_spec(rest, 4);
        let neg = Expr::Operator { lhs: Box::new(c), rhs: None, op: OpType::Sub };
        assert(parse_operand_spec(toks) == (neg, after));
        assert(respects_precedence(neg));
        if after.len() > 0 {
            assert(fits_left(neg, after[0]->Operator_0));
        }
        lemma_flat_climb(after, p, neg);
        assert(tokens_of(neg) =~= seq![t] + tokens_of(c));
        assert(seq![t] + tokens_of(c) + after =~= seq![t] + (tokens_of(c) + after));
        assert(seq![t] + rest =~= toks);
    } else {
        assert(is_atom(t) && is_flat_tail(rest));
        if rest.len() > 0 {
            assert(is_binary_operator(rest[0]));
        }
        assert(parse_operand_spec(toks) == (atom_expr(t), rest));
        lemma_flat_climb(rest, p, atom_expr(t));
        assert(tokens_of(atom_expr(t)) =~= seq![t]);
        assert(seq![t] + rest =~= toks);
    }
}

proof fn lemma_flat_climb(toks: Seq<Token>, p: u64, node: Expr)
    requires
        is_flat_tail(toks),
        p < 6,
        respects_precedence(node),
        binding(node) > p || is_negation(node),
        toks.len() > 0 ==> fits_left(node, toks[0]->Operator_0),
    ensures
        tokens_of(parse_climb(toks, p, node).0) + parse_climb(toks, p, node).1 == tokens_of(node)
            + toks,
        respects_precedence(parse_climb(toks, p, node).0),
        binding(parse_climb(toks, p, node).0) > p || is_negation(parse_climb(toks, p, node).0),
        stops_at(parse_climb(toks, p, node).1, p),
    decreases toks.len(), 0nat,
{
    if toks.len() > 0 && spec_operator_info(toks[0]->Operator_0, false).1 > p {
        let c = toks[0]->Operator_0;
        let (op, q, right) = spec_operator_info(c, false);
        let rq: u64 = if right {
            (q - 1) as u64
        } else {
            q
        };
        let r = toks.drop_first();
        lemma_flat_parse(r, rq);
        lemma_parse_suffix(r, rq);
        let (rhs, after) = parse_spec(r, rq);
        assert(operator_char(op) == c);
        let node2 = Expr::Operator { lhs: Box::new(node), rhs: Some(Box::new(rhs)), op };
        assert(binding(node2) == q);
        assert(respects_precedence(node2));
        if after.len() > 0 {
            let c2 = after[0]->Operator_0;
            assert(spec_operator_info(c2, false).1 <= rq);
            if spec_operator_info(c2, false).1 == q {
                assert(!right);
                assert(!spec_operator_info(c2, false).2);
            }
            assert(fits_left(node2, c2));
        }
        lemma_flat_climb(after, p, node2);
        assert(tokens_of(node2) =~= tokens_of(node) + seq![Token::Operator(c)] + tokens_of(rhs));
        assert(toks =~= seq![Token::Operator(c)] + r);
        assert(tokens_of(rhs) + after == r);
        assert(tokens_of(node) + seq![Token::Operator(c)] + tokens_of(rhs) + after =~= tokens_of(node)
            + (seq![Token::Operator(c)] + (tokens_of(rhs) + after)));
    }
}

/// Whether `rest`, after an operand, ends it: nothing, a closing
/// parenthesis, or an operator that may take the operand `node` as its
/// left operand.
pub open spec fn follows_operand(node: Expr, rest: Seq<Token>) -> bool {
    ||| rest.len() == 0
    ||| rest[0] is CloseParen
    ||| is_binary_operator(rest[0]) && fits_left(node, rest[0]->Operator_0)
}

proof fn lemma_parse_tree(e: Expr, rest: Seq<Token>, p: u64)
    requires
        respects_precedence(e),
        binding(e) > p || is_negation(e),
        follows_operand(e, rest),
    ensures
        parse_spec(tokens_of(e) + rest, p) == parse_climb(rest, p, e),
    decreases e,
{
    let toks = tokens_of(e) + rest;
    if rest.len() > 0 {
        assert(!(rest[0] is OpenParen));
    }
    match e {
        Expr::Number { value } => {
            assert(toks[0] == Token::Number(value));
            assert(toks.drop_first() =~= rest);
        },
        Expr::Identifier { value } => {
            assert(toks[0] == Token::Identifier(value));
            assert(toks.drop_first() =~= rest);
        },
        Expr::Operator { lhs, rhs: None, op } => {
            let c = *lhs;
            assert(toks[0] == Token::Operator('-'));
            assert(toks.drop_first() =~= tokens_of(c) + rest);
            lemma_parse_tree(c, rest, 4);
            if rest.len() > 0 && rest[0] is Operator {
                assert(spec_operator_info(rest[0]->Operator_0, false).1 <= 4);
            }
            assert(parse_climb(rest, 4, c) == (c, rest));
            assert(parse_operand_spec(toks) == (e, rest));
        },
        Expr::Operator { lhs, rhs: Some(r), op } => {
            let l = *lhs;
            let r = *r;
            let o = operator_char(op);
            let (_, q, right) = spec_operator_info(o, false);
            let rq: u64 = if right {
                (q - 1) as u64
            } else {
                q
            };
            let y = seq![Token::Operator(o)] + tokens_of(r) + rest;
            assert(toks =~= tokens_of(l) + y);
            assert(y[0] == Token::Operator(o));
            lemma_parse_tree(l, y, p);
            if rest.len() > 0 && rest[0] is Operator {
                let c2 = rest[0]->Operator_0;
                assert(spec_operator_info(c2, false).1 <= rq);
            }
            lemma_parse_tree(r, rest, rq);
            assert(parse_climb(rest, rq, r) == (r, rest));
            assert(y.drop_first() =~= tokens_of(r) + rest);
            assert(spec_operator_info(o, false).0 == op);
        },
        _ => {},
    }
}

/// Parsing gives back every tree that respects precedence: the tokens that
/// such a tree is read from parse, to the end, into the tree itself.
pub proof fn lemma_parse_tokens_of(e: Expr)
    requires
        respects_precedence(e),
    ensures
        parse_spec(tokens_of(e), 0) == (e, Seq::<Token>::empty()),
{
    lemma_parse_tree(e, Seq::empty(), 0);
    assert(tokens_of(e) + Seq::<Token>::empty() =~= tokens_of(e));
}

/// Only one tree that respects precedence is read from given tokens.
pub proof fn lemma_precedence_tree_unique(e1: Expr, e2: Expr)
    requires
        tokens_of(e1) == tokens_of(e2),
        respects_precedence(e1),
        respects_precedence(e2),
    ensures
        e1 == e2,
{
    lemma_parse_tokens_of(e1);
    lemma_parse_tokens_of(e2);
}

/// Order of operations: an operand (a number or an identifier after any
/// number of prefix `-`) and binary operators each followed by an operand
/// parse, to the end, into a tree that reads back as the same tokens and
/// respects precedence; it is the only such tree. From loosest to
/// tightest: `=` (right associative), `+` and `-`, `/`, `*` (right
/// associative), negation, `^` (right associative).
pub proof fn lemma_order_of_operations(toks: Seq<Token>)
    requires
        is_flat(toks),
    ensures
        parse_spec(toks, 0).1.len() == 0,
        tokens_of(parse_spec(toks, 0).0) == toks,
        respects_precedence(parse_spec(toks, 0).0),
        forall|e: Expr|
            tokens_of(e) == toks && respects_precedence(e) ==> e == parse_spec(toks, 0).0,
{
    lemma_flat_parse(toks, 0);
    let rest = parse_spec(toks, 0).1;
    if rest.len() > 0 {
        assert(is_binary_operator(rest[0]));
    }
    assert(tokens_of(parse_spec(toks, 0).0) + Seq::<Token>::empty() =~= tokens_of(parse_spec(toks, 0).0));
    assert forall|e: Expr|
        tokens_of(e) == toks && respects_precedence(e) implies e == parse_spec(toks, 0).0 by {
        lemma_precedence_tree_unique(parse_spec(toks, 0).0, e);
    }
}

/// The tokens read from the front of `toks` when `rest` is left.
pub open spec fn read_part(toks: Seq<Token>, rest: Seq<Token>) -> Seq<Token> {
    toks.subrange(0, toks.len() - rest.len())
}

/// Whether no two neighbours of `toks` run together and every operator of
/// `toks` is one of `+ - * / ^ =`.
pub open spec fn well_separated(toks: Seq<Token>) -> bool {
    no_juxtaposed_pair(views(toks)) && operators_known(views(toks))
}

/// Whether a parse at precedence `p` that left `rest` of `toks` stopped at
/// the end, or with the parentheses it read matched, at a closing
/// parenthesis or at an operator that binds no more tightly than `p`.
pub open spec fn stops_cleanly(toks: Seq<Token>, rest: Seq<Token>, p: int) -> bool {
    rest.len() > 0 ==> {
        &&& paren_excess(views(read_part(toks, rest))) == 0
        &&& (rest[0] is CloseParen || (rest[0] is Operator && spec_operator_info(
            rest[0]->Operator_0,
            false,
        ).1 <= p))
    }
}

proof fn lemma_single_excess(t: Token)
    ensures
        paren_excess(views(seq![t])) == paren_delta(t@),
        paren_excess(views(Seq::<Token>::empty())) == 0,
{
    assert(views(seq![t]) =~= seq![t@]);
    assert(seq![t@].drop_last() =~= Seq::<TokenView>::empty());
    assert(seq![t@].last() == t@);
    assert(paren_excess(Seq::<TokenView>::empty()) == 0);
    assert(paren_excess(seq![t@]) == paren_excess(seq![t@].drop_last()) + paren_delta(
        seq![t@].last(),
    ));
    assert(views(Seq::<Token>::empty()) =~= Seq::<TokenView>::empty());
}

proof fn lemma_separated_suffix(toks: Seq<Token>, r: Seq<Token>)
    requires
        is_suffix_of(r, toks),
        well_separated(toks),
    ensures
        well_separated(r),
{
    let k = toks.len() - r.len();
    let vt = views(toks);
    let vr = views(r);
    assert forall|j: int| 0 <= j < vr.len() - 1 implies !#[trigger] run_together(vr[j], vr[j + 1]) by {
        assert(vr[j] == vt[j + k] && vr[j + 1] == vt[j + k + 1]);
    }
    assert forall|j: int| 0 <= j < vr.len() implies (#[trigger] vr[j] matches TokenView::Operator(c)
        ==> crate::lexer::is_operator_char(c)) by {
        assert(vr[j] == vt[j + k]);
    }
}

proof fn lemma_read_concat(a: Seq<Token>, b: Seq<Token>, c: Seq<Token>)
    requires
        is_suffix_of(b, a),
        is_suffix_of(c, b),
    ensures
        is_suffix_of(c, a),
        read_part(a, c) == read_part(a, b) + read_part(b, c),
        paren_excess(views(read_part(a, c))) == paren_excess(views(read_part(a, b))) + paren_excess(
            views(read_part(b, c)),
        ),
{
    lemma_suffix_trans(c, b, a);
    assert(read_part(a, c) =~= read_part(a, b) + read_part(b, c));
    assert(views(read_part(a, b) + read_part(b, c)) =~= views(read_part(a, b)) + views(
        read_part(b, c),
    ));
    lemma_excess_append(views(read_part(a, b)), views(read_part(b, c)));
}

/// After a closing parenthesis that a parse stopped at, what follows it is
/// the end, a closing parenthesis or an operator.
proof fn lemma_after_close(r: Seq<Token>)
    requires
        well_separated(r),
        r.len() > 1,
        r[0] is CloseParen,
    ensures
        r.drop_first()[0] is CloseParen || r.drop_first()[0] is Operator,
{
    assert(views(r)[0] == r[0]@ && views(r)[1] == r[1]@);
    assert(!run_together(views(r)[0], views(r)[1]));
}

proof fn lemma_group_stops(toks: Seq<Token>, inner: Seq<Token>)
    requires
        well_separated(toks),
        toks.len() >= 1,
        toks[toks.len() - inner.len() - 1] is OpenParen,
        inner.len() < toks.len(),
        inner == toks.subrange(toks.len() - inner.len(), toks.len() as int),
        paren_excess(views(toks.subrange(0, toks.len() - inner.len() - 1))) == 0,
    ensures
        stops_cleanly(toks, close_group(parse_spec(inner, 0)).1, 100),
        is_suffix_of(close_group(parse_spec(inner, 0)).1, toks),
    decreases inner.len(), 3nat,
{
    assert(is_suffix_of(inner, toks));
    lemma_separated_suffix(toks, inner);
    lemma_flow_parse(inner, 0);
    lemma_parse_suffix(inner, 0);
    let r = parse_spec(inner, 0).1;
    lemma_suffix_trans(r, inner, toks);
    lemma_close_group_suffix(parse_spec(inner, 0), toks);
    if r.len() > 0 {
        let v = views(r);
        assert(v[0] == r[0]@);
        assert(!(r[0] is Operator)) by {
            lemma_separated_suffix(toks, r);
            if r[0] is Operator {
                assert(v[0] matches TokenView::Operator(c) ==> crate::lexer::is_operator_char(c));
            }
        }
        assert(r[0] is CloseParen);
        let after = r.drop_first();
        lemma_suffix_drop_first(r);
        lemma_suffix_trans(after, r, toks);
        let head = toks.subrange(0, toks.len() - inner.len() - 1);
        assert(read_part(toks, after) =~= head + seq![Token::OpenParen] + read_part(inner, r) + seq![
            Token::CloseParen,
        ]);
        assert(views(head + seq![Token::OpenParen] + read_part(inner, r) + seq![Token::CloseParen])
            =~= views(head) + seq![TokenView::OpenParen] + views(read_part(inner, r)) + seq![
            TokenView::CloseParen,
        ]);
        lemma_excess_append(views(head), seq![TokenView::OpenParen]);
        lemma_excess_append(views(head) + seq![TokenView::OpenParen], views(read_part(inner, r)));
        lemma_excess_append(
            views(head) + seq![TokenView::OpenParen] + views(read_part(inner, r)),
            seq![TokenView::CloseParen],
        );
        lemma_single_excess(Token::OpenParen);
        lemma_single_excess(Token::CloseParen);
        assert(views(seq![Token::OpenParen]) =~= seq![TokenView::OpenParen]);
        assert(views(seq![Token::CloseParen]) =~= seq![TokenView::CloseParen]);
        if after.len() > 0 {
            lemma_separated_suffix(toks, r);
            lemma_after_close(r);
        }
    }
}

proof fn lemma_flow_operand(toks: Seq<Token>)
    requires
        well_separated(toks),
    ensures
        stops_cleanly(toks, parse_operand_spec(toks).1, 100),
    decreases toks.len(), 1nat,
{
    lemma_operand_suffix(toks);
    if toks.len() > 0 {
        let rest = toks.drop_first();
        let v = views(toks);
        assert(v[0] == toks[0]@);
        if toks.len() > 1 {
            assert(v[1] == toks[1]@);
            assert(!run_together(v[0], v[1]));
            assert(rest[0] == toks[1]);
        }
        let call = rest.len() > 0 && rest[0] is OpenParen;
        assert(read_part(toks, rest) =~= seq![toks[0]]);
        lemma_single_excess(toks[0]);
        match toks[0] {
            Token::Identifier(_) => {
                if call {
                    assert(toks.subrange(0, 1) =~= seq![toks[0]]);
                    assert(rest.drop_first() =~= toks.subrange(2, toks.len() as int));
                    lemma_group_stops(toks, rest.drop_first());
                }
            },
            Token::Builtin(_) => {
                if call {
                    assert(toks.subrange(0, 1) =~= seq![toks[0]]);
                    assert(rest.drop_first() =~= toks.subrange(2, toks.len() as int));
                    lemma_group_stops(toks, rest.drop_first());
                }
            },
            Token::OpenParen => {
                assert(toks.subrange(0, 0) =~= Seq::<Token>::empty());
                lemma_single_excess(toks[0]);
                assert(rest =~= toks.subrange(1, toks.len() as int));
                lemma_group_stops(toks, rest);
            },
            Token::Operator(c) => {
                let (op, p, right) = spec_operator_info(c, c == '-');
                let q: u64 = if right {
                    (p - 1) as u64
                } else {
                    p
                };
                lemma_suffix_drop_first(toks);
                lemma_separated_suffix(toks, rest);
                lemma_flow_parse(rest, q);
                lemma_parse_suffix(rest, q);
                lemma_read_concat(toks, rest, parse_spec(rest, q).1);
            },
            Token::CloseParen => {
                assert(read_part(toks, toks) =~= Seq::<Token>::empty());
            },
            _ => {},
        }
    }
}

proof fn lemma_flow_climb(toks: Seq<Token>, p: u64, node: Expr)
    requires
        well_separated(toks),
        toks.len() > 0 ==> toks[0] is CloseParen || toks[0] is Operator,
    ensures
        stops_cleanly(toks, parse_climb(toks, p, node).1, p as int),
    decreases toks.len(), 0nat,
{
    lemma_climb_suffix(toks, p, node);
    if toks.len() > 0 && toks[0] is Operator && spec_operator_info(toks[0]->Operator_0, false).1 > p {
        let (op, q, right) = spec_operator_info(toks[0]->Operator_0, false);
        let rq: u64 = if right {
            (q - 1) as u64
        } else {
            q
        };
        let r = toks.drop_first();
        lemma_suffix_drop_first(toks);
        lemma_separated_suffix(toks, r);
        lemma_flow_parse(r, rq);
        lemma_parse_suffix(r, rq);
        let (rhs, after) = parse_spec(r, rq);
        let node2 = Expr::Operator { lhs: Box::new(node), rhs: Some(Box::new(rhs)), op };
        lemma_suffix_trans(after, r, toks);
        if after.len() > 0 {
            lemma_separated_suffix(toks, after);
            lemma_flow_climb(after, p, node2);
            lemma_climb_suffix(after, p, node2);
            let rest2 = parse_climb(after, p, node2).1;
            if rest2.len() > 0 {
                lemma_read_concat(toks, r, after);
                lemma_read_concat(toks, after, rest2);
                assert(read_part(toks, r) =~= seq![toks[0]]);
                lemma_single_excess(toks[0]);
            }
        }
    } else {
        assert(read_part(toks, toks) =~= Seq::<Token>::empty());
        lemma_single_excess(Token::CloseParen);
    }
}

proof fn lemma_flow_parse(toks: Seq<Token>, p: u64)
    requires
        well_separated(toks),
    ensures
        stops_cleanly(toks, parse_spec(toks, p).1, p as int),
    decreases toks.len(), 2nat,
{
    lemma_flow_operand(toks);
    lemma_operand_suffix(toks);
    let (node, rest) = parse_operand_spec(toks);
    lemma_separated_suffix(toks, rest);
    lemma_flow_climb(rest, p, node);
    lemma_climb_suffix(rest, p, node);
    let rest2 = parse_climb(rest, p, node).1;
    if rest2.len() > 0 {
        lemma_read_concat(toks, rest, rest2);
    }
}

/// The whole input is read: a parse at precedence 0 of tokens whose
/// parentheses are matched, in which no two neighbours run together and
/// whose operators are among `+ - * / ^ =` (as `tokenize` gives them for a
/// text whose parentheses are matched) leaves no token unread.
pub proof fn lemma_parse_reads_all(toks: Seq<Token>)
    requires
        balanced(views(toks)),
        no_juxtaposed_pair(views(toks)),
        operators_known(views(toks)),
    ensures
        parse_spec(toks, 0).1.len() == 0,
{
    lemma_flow_parse(toks, 0);
    lemma_parse_suffix(toks, 0);
    let rest = parse_spec(toks, 0).1;
    if rest.len() > 0 {
        let v = views(toks);
        let m = read_part(toks, rest).len() as int;
        assert(rest[0] == toks[m]);
        assert(v[m] == toks[m]@);
        if rest[0] is Operator {
            assert(v[m] matches TokenView::Operator(c) ==> crate::lexer::is_operator_char(c));
        }
        assert(rest[0] is CloseParen);
        assert(v.take(m + 1) =~= views(read_part(toks, rest)).push(TokenView::CloseParen));
        assert(v.take(m + 1).drop_last() =~= views(read_part(toks, rest)));
        assert(paren_excess(v.take(m + 1)) >= 0);
    }
}

} // verus!
