//! The scenarios of the tokenizer and the parser, with numbers compared as
//! floating-point values.
use mathexpr::lexer;
use mathexpr::parser::{self, OpType, TokenStream};
use mathexpr::token::{Number as LibNumber, Token as LibToken};

#[derive(Debug, PartialEq)]
enum Token {
    Number(f64),
    Operator(char),
    Identifier(String),
    Builtin(String),
    OpenParen,
    CloseParen,
}

#[derive(Debug, PartialEq)]
enum Expr {
    Placeholder,
    Operator {
        lhs: Box<Expr>,
        rhs: Option<Box<Expr>>,
        op: OpType,
    },
    Number {
        value: f64,
    },
    Identifier {
        value: String,
    },
    Function {
        name: String,
        arg: Box<Expr>,
    },
}

fn value_of(n: LibNumber) -> f64 {
    match n {
        LibNumber::Literal(text) => text.parse::<f64>().unwrap(),
        LibNumber::Pi => std::f64::consts::PI,
        LibNumber::E => std::f64::consts::E,
    }
}

fn float_token(t: LibToken) -> Token {
    match t {
        LibToken::Number(n) => Token::Number(value_of(n)),
        LibToken::Operator(c) => Token::Operator(c),
        LibToken::Identifier(s) => Token::Identifier(s),
        LibToken::Builtin(s) => Token::Builtin(s),
        LibToken::OpenParen => Token::OpenParen,
        LibToken::CloseParen => Token::CloseParen,
    }
}

fn float_expr(e: parser::Expr) -> Expr {
    match e {
        parser::Expr::Placeholder => Expr::Placeholder,
        parser::Expr::Operator { lhs, rhs, op } => Expr::Operator {
            lhs: Box::new(float_expr(*lhs)),
            rhs: rhs.map(|r| Box::new(float_expr(*r))),
            op,
        },
        parser::Expr::Number { value } => Expr::Number { value: value_of(value) },
        parser::Expr::Identifier { value } => Expr::Identifier { value },
        parser::Expr::Function { name, arg } => Expr::Function { name, arg: Box::new(float_expr(*arg)) },
    }
}

fn tokenize(expr: &str) -> Vec<Token> {
    lexer::tokenize(expr).into_iter().map(float_token).collect()
}

fn token_stream(expr: &str) -> TokenStream {
    TokenStream::new(lexer::tokenize(expr))
}

fn parse_expr(tokens: &mut TokenStream, precedence: u64) -> Expr {
    float_expr(parser::parse_expr(tokens, precedence))
}

#[test]
fn test_constant_tokens() {
    let pi = std::f64::consts::PI;
    let e = std::f64::consts::E;
    assert_eq!(
        tokenize("π + e"),
        vec![Token::Number(pi), Token::Operator('+'), Token::Number(e)]
    );
}

#[test]
fn test_function_tokens() {
    let expected = vec![
        Token::Number(10.0),
        Token::Operator('-'),
        Token::Number(3.0),
        Token::Operator('*'),
        Token::Builtin(String::from("sin")),
        Token::OpenParen,
        Token::Identifier(String::from("x")),
        Token::CloseParen,
        Token::Operator('*'),
        Token::OpenParen,
        Token::Number(2.0),
        Token::Operator('*'),
        Token::Identifier(String::from("x")),
        Token::CloseParen,
    ];
    assert_eq!(tokenize("10 - 3sinx(2x)"), expected);
}

#[test]
fn parse_precedence() {
    let mut tokens = token_stream("4 ^ 5 * 3 + 2 ^ (-x / 2 + 1)");

    assert_eq!(
        parse_expr(&mut tokens, 0),
        Expr::Operator {
            lhs: Box::new(Expr::Operator {
                lhs: Box::new(Expr::Operator {
                    lhs: Box::new(Expr::Number { value: 4.0 }),
                    rhs: Some(Box::new(Expr::Number { value: 5.0 })),
                    op: OpType::Exp
                }),
                rhs: Some(Box::new(Expr::Number { value: 3.0 })),
                op: OpType::Mul
            }),
            rhs: Some(Box::new(Expr::Operator {
                lhs: Box::new(Expr::Number { value: 2.0 }),
                rhs: Some(Box::new(Expr::Operator {
                    lhs: Box::new(Expr::Operator {
                        lhs: Box::new(Expr::Operator {
                            lhs: Box::new(Expr::Identifier {
                                value: String::from("x")
                            }),
                            rhs: None,
                            op: OpType::Sub
                        }),
                        rhs: Some(Box::new(Expr::Number { value: 2.0 })),
                        op: OpType::Div
                    }),
                    rhs: Some(Box::new(Expr::Number { value: 1.0 })),
                    op: OpType::Add
                })),
                op: OpType::Exp
            })),
            op: OpType::Add
        }
    );
}

#[test]
fn parse_operators() {
    let mut tokens = token_stream("-1(2) + 6 = (2 + 2xyz) + 3 / 4x");
    assert_eq!(
        parse_expr(&mut tokens, 0),
        Expr::Operator {
            lhs: Box::new(Expr::Operator {
                lhs: Box::new(Expr::Operator {
                    lhs: Box::new(Expr::Operator {
                        lhs: Box::new(Expr::Number { value: 1.0 }),
                        rhs: None,
                        op: OpType::Sub
                    }),
                    rhs: Some(Box::new(Expr::Number { value: 2.0 })),
                    op: OpType::Mul
                }),
                rhs: Some(Box::new(Expr::Number { value: 6.0 })),
                op: OpType::Add
            }),
            rhs: Some(Box::new(Expr::Operator {
                lhs: Box::new(Expr::Operator {
                    lhs: Box::new(Expr::Number { value: 2.0 }),
                    rhs: Some(Box::new(Expr::Operator {
                        lhs: Box::new(Expr::Number { value: 2.0 }),
                        rhs: Some(Box::new(Expr::Operator {
                            lhs: Box::new(Expr::Identifier {
                                value: String::from("x")
                            }),
                            rhs: Some(Box::new(Expr::Operator {
                                lhs: Box::new(Expr::Identifier {
                                    value: String::from("y")
                                }),
                                rhs: Some(Box::new(Expr::Identifier {
                                    value: String::from("z")
                                })),
                                op: OpType::Mul
                            })),
                            op: OpType::Mul
                        })),
                        op: OpType::Mul
                    })),
                    op: OpType::Add,
                }),
                rhs: Some(Box::new(Expr::Operator {
                    lhs: Box::new(Expr::Number { value: 3.0 }),
                    rhs: Some(Box::new(Expr::Operator {
                        lhs: Box::new(Expr::Number { value: 4.0 }),
                        rhs: Some(Box::new(Expr::Identifier {
                            value: String::from("x")
                        })),
                        op: OpType::Mul
                    })),
                    op: OpType::Div
                })),
                op: OpType::Add,
            })),
            op: OpType::Equal,
        }
    );
}

#[test]
fn parse_functions() {
    let mut tokens = token_stream("f(x) + 1 = y");
    assert_eq!(
        parse_expr(&mut tokens, 0),
        Expr::Operator {
            lhs: Box::new(Expr::Operator {
                lhs: Box::new(Expr::Function {
                    name: String::from("f"),
                    arg: Box::new(Expr::Identifier {
                        value: String::from("x")
                    }),
                }),
                rhs: Some(Box::new(Expr::Number { value: 1.0 })),
                op: OpType::Add,
            }),
            rhs: Some(Box::new(Expr::Identifier {
                value: String::from("y")
            })),
            op: OpType::Equal
        }
    );

    let mut tokens = token_stream("f(g(x)) = h(x) = a(x)");
    assert_eq!(
        parse_expr(&mut tokens, 0),
        Expr::Operator {
            lhs: Box::new(Expr::Function {
                name: String::from("f"),
                arg: Box::new(Expr::Function {
                    name: String::from("g"),
                    arg: Box::new(Expr::Identifier {
                        value: String::from("x")
                    })
                })
            }),
            rhs: Some(Box::new(Expr::Operator {
                lhs: Box::new(Expr::Function {
                    name: String::from("h"),
                    arg: Box::new(Expr::Identifier {
                        value: String::from("x")
                    })
                }),
                rhs: Some(Box::new(Expr::Function {
                    name: String::from("a"),
                    arg: Box::new(Expr::Identifier {
                        value: String::from("x")
                    })
                })),
                op: OpType::Equal
            })),
            op: OpType::Equal
        }
    );

    let e = std::f64::consts::E;
    let mut tokens = token_stream("f(x) = 5ln(e + 3) + sin3x + cos1/2x + cos(1/2x) + 2g(x)");
    assert_eq!(
        parse_expr(&mut tokens, 0),
        Expr::Operator {
            lhs: Box::new(Expr::Function {
                name: String::from("f"),
                arg: Box::new(Expr::Identifier {
                    value: String::from("x")
                }),
            }),
            rhs: Some(Box::new(Expr::Operator {
                lhs: Box::new(Expr::Operator {
                    lhs: Box::new(Expr::Operator {
                        lhs: Box::new(Expr::Operator {
                            lhs: Box::new(Expr::Operator {
                                lhs: Box::new(Expr::Number { value: 5.0 }),
                                rhs: Some(Box::new(Expr::Function {
                                    name: String::from("ln"),
                                    arg: Box::new(Expr::Operator {
                                        lhs: Box::new(Expr::Number { value: e }),
                                        rhs: Some(Box::new(Expr::Number { value: 3.0 })),
                                        op: OpType::Add
                                    }),
                                })),
                                op: OpType::Mul
                            }),
                            rhs: Some(Box::new(Expr::Function {
                                name: String::from("sin"),
                                arg: Box::new(Expr::Operator {
                                    lhs: Box::new(Expr::Number { value: 3.0 }),
                                    rhs: Some(Box::new(Expr::Identifier {
                                        value: String::from("x")
                                    })),
                                    op: OpType::Mul
                                }),
                            })),
                            op: OpType::Add
                        }),
                        rhs: Some(Box::new(Expr::Operator {
                            lhs: Box::new(Expr::Function {
                                name: String::from("cos"),
                                arg: Box::new(Expr::Number { value: 1.0 }),
                            }),
                            rhs: Some(Box::new(Expr::Operator {
                                lhs: Box::new(Expr::Number { value: 2.0 }),
                                rhs: Some(Box::new(Expr::Identifier {
                                    value: String::from("x")
                                })),
                                op: OpType::Mul
                            })),
                            op: OpType::Div
                        })),
                        op: OpType::Add
                    }),
                    rhs: Some(Box::new(Expr::Function {
                        name: String::from("cos"),
                        arg: Box::new(Expr::Operator {
                            lhs: Box::new(Expr::Operator {
                                lhs: Box::new(Expr::Number { value: 1.0 }),
                                rhs: Some(Box::new(Expr::Number { value: 2.0 })),
                                op: OpType::Div
                            }),
                            rhs: Some(Box::new(Expr::Identifier {
                                value: String::from("x")
                            })),
                            op: OpType::Mul
                        }),
                    })),
                    op: OpType::Add
                }),
                rhs: Some(Box::new(Expr::Operator {
                    lhs: Box::new(Expr::Number { value: 2.0 }),
                    rhs: Some(Box::new(Expr::Function {
                        name: String::from("g"),
                        arg: Box::new(Expr::Identifier {
                            value: String::from("x")
                        }),
                    })),
                    op: OpType::Mul
                })),
                op: OpType::Add
            })),
            op: OpType::Equal,
        }
    );
}

#[test]
fn tokenize_decimal_numbers() {
    assert_eq!(
        tokenize("1.5+.25"),
        vec![Token::Number(1.5), Token::Operator('+'), Token::Number(0.25)]
    );
}

#[test]
fn implied_argument_of_builtin_is_closed_before_operator() {
    assert_eq!(
        tokenize("cos1/2x"),
        vec![
            Token::Builtin(String::from("cos")),
            Token::OpenParen,
            Token::Number(1.0),
            Token::CloseParen,
            Token::Operator('/'),
            Token::Number(2.0),
            Token::Operator('*'),
            Token::Identifier(String::from("x")),
        ]
    );
}

#[test]
fn parse_implied_argument() {
    let mut tokens = token_stream("sin3x");
    assert_eq!(
        parse_expr(&mut tokens, 0),
        Expr::Function {
            name: String::from("sin"),
            arg: Box::new(Expr::Operator {
                lhs: Box::new(Expr::Number { value: 3.0 }),
                rhs: Some(Box::new(Expr::Identifier {
                    value: String::from("x")
                })),
                op: OpType::Mul
            }),
        }
    );
}
