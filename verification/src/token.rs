//! Tokens of an expression and their mathematical model.
use vstd::prelude::*;

verus! {

/// The value of a number token.
///
/// A number written in the expression is kept as its text (digits and
/// dots); turning it into a floating-point value is left to the caller.
/// The builtin constants `π` and `e` are named.
#[derive(Debug, Clone, PartialEq)]
pub enum Number {
    Literal(String),
    Pi,
    E,
}

#[derive(Debug, Clone, PartialEq)]
pub enum Token {
    Number(Number),
    Operator(char),
    Identifier(String),
    Builtin(String),
    OpenParen,
    CloseParen,
}

/// Model of a [`Number`].
pub enum NumberView {
    Literal(Seq<char>),
    Pi,
    E,
}

/// Model of a [`Token`]: strings are taken as their characters.
pub enum TokenView {
    Number(NumberView),
    Operator(char),
    Identifier(Seq<char>),
    Builtin(Seq<char>),
    OpenParen,
    CloseParen,
}

impl View for Number {
    type V = NumberView;

    open spec fn view(&self) -> NumberView {
        match self {
            Number::Literal(text) => NumberView::Literal(text@),
            Number::Pi => NumberView::Pi,
            Number::E => NumberView::E,
        }
    }
}

impl View for Token {
    type V = TokenView;

    open spec fn view(&self) -> TokenView {
        match self {
            Token::Number(n) => TokenView::Number(n@),
            Token::Operator(c) => TokenView::Operator(*c),
            Token::Identifier(s) => TokenView::Identifier(s@),
            Token::Builtin(s) => TokenView::Builtin(s@),
            Token::OpenParen => TokenView::OpenParen,
            Token::CloseParen => TokenView::CloseParen,
        }
    }
}

/// The models of a sequence of tokens.
pub open spec fn views(ts: Seq<Token>) -> Seq<TokenView> {
    ts.map_values(|t: Token| t@)
}

/// Appending a token appends its model.
pub broadcast proof fn lemma_views_push(ts: Seq<Token>, t: Token)
    ensures
        #[trigger] views(ts.push(t)) == views(ts).push(t@),
{
    assert(views(ts.push(t)) =~= views(ts).push(t@));
}

impl Number {
    /// A copy of this number.
    pub(crate) fn duplicate(&self) -> (res: Number)
        ensures
            res@ == self@,
    {
        match self {
            Number::Literal(text) => Number::Literal(text.clone()),
            Number::Pi => Number::Pi,
            Number::E => Number::E,
        }
    }
}

impl Token {
    /// A copy of this token.
    pub(crate) fn duplicate(&self) -> (res: Token)
        ensures
            res@ == self@,
    {
        match self {
            Token::Number(n) => Token::Number(n.duplicate()),
            Token::Operator(c) => Token::Operator(*c),
            Token::Identifier(s) => Token::Identifier(s.clone()),
            Token::Builtin(s) => Token::Builtin(s.clone()),
            Token::OpenParen => Token::OpenParen,
            Token::CloseParen => Token::CloseParen,
        }
    }
}

} // verus!
