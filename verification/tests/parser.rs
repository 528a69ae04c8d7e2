//! The parser on token streams: the precedence table, order of operations,
//! function calls, grouping and the stream itself.
use mathexpr::lexer::tokenize;
use mathexpr::parser::{operator_info, parse_expr, Expr, OpType, TokenStream};
use mathexpr::token::{Number, Token};

fn lit(text: &str) -> Token {
    Token::Number(Number::Literal(String::from(text)))
}

fn num(text: &str) -> Expr {
    Expr::Number { value: Number::Literal(String::from(text)) }
}

fn var(name: &str) -> Expr {
    Expr::Identifier { value: String::from(name) }
}

fn bin(op: OpType, lhs: Expr, rhs: Expr) -> Expr {
    Expr::Operator { lhs: Box::new(lhs), rhs: Some(Box::new(rhs)), op }
}

fn neg(e: Expr) -> Expr {
    Expr::Operator { lhs: Box::new(e), rhs: None, op: OpType::Sub }
}

fn call(name: &str, arg: Expr) -> Expr {
    Expr::Function { name: String::from(name), arg: Box::new(arg) }
}

fn parse(text: &str) -> Expr {
    let mut tokens = TokenStream::new(tokenize(text));
    parse_expr(&mut tokens, 0)
}

#[test]
fn operator_table() {
    assert_eq!(operator_info(&'=', false), (OpType::Equal, 1, true));
    assert_eq!(operator_info(&'+', false), (OpType::Add, 2, false));
    assert_eq!(operator_info(&'-', false), (OpType::Sub, 2, false));
    assert_eq!(operator_info(&'-', true), (OpType::Sub, 5, true));
    assert_eq!(operator_info(&'*', false), (OpType::Mul, 4, true));
    assert_eq!(operator_info(&'/', true), (OpType::Div, 3, false));
    assert_eq!(operator_info(&'^', false), (OpType::Exp, 6, true));
    assert_eq!(operator_info(&'!', false), (OpType::Factorial, 5, true));
    assert_eq!(operator_info(&'%', false), (OpType::Add, 0, false));
}

#[test]
fn defaults() {
    assert_eq!(OpType::default(), OpType::Add);
    assert_eq!(Expr::default(), Expr::Placeholder);
}

#[test]
fn tighter_operator_takes_the_middle_operand() {
    assert_eq!(parse("1 + 2 * 3"), bin(OpType::Add, num("1"), bin(OpType::Mul, num("2"), num("3"))));
    assert_eq!(parse("1 * 2 + 3"), bin(OpType::Add, bin(OpType::Mul, num("1"), num("2")), num("3")));
    assert_eq!(parse("a ^ b * c"), bin(OpType::Mul, bin(OpType::Exp, var("a"), var("b")), var("c")));
}

#[test]
fn left_and_right_associativity() {
    assert_eq!(parse("1 - 2 - 3"), bin(OpType::Sub, bin(OpType::Sub, num("1"), num("2")), num("3")));
    assert_eq!(parse("8 / 4 / 2"), bin(OpType::Div, bin(OpType::Div, num("8"), num("4")), num("2")));
    assert_eq!(parse("2 ^ 3 ^ 4"), bin(OpType::Exp, num("2"), bin(OpType::Exp, num("3"), num("4"))));
    assert_eq!(parse("a = b = c"), bin(OpType::Equal, var("a"), bin(OpType::Equal, var("b"), var("c"))));
    assert_eq!(parse("2 * 3 * 4"), bin(OpType::Mul, num("2"), bin(OpType::Mul, num("3"), num("4"))));
    assert_eq!(parse("8 / 2 * 4"), bin(OpType::Div, num("8"), bin(OpType::Mul, num("2"), num("4"))));
}

#[test]
fn negation_binds_tighter_than_product() {
    assert_eq!(parse("-2 * 3"), bin(OpType::Mul, neg(num("2")), num("3")));
    assert_eq!(parse("-2 ^ 3"), neg(bin(OpType::Exp, num("2"), num("3"))));
}

#[test]
fn function_call_and_builtin_call() {
    assert_eq!(parse("f(1 + 2)"), call("f", bin(OpType::Add, num("1"), num("2"))));
    assert_eq!(parse("sin(x)"), call("sin", var("x")));
    assert_eq!(parse("ln x"), call("ln", var("x")));
    let mut tokens = TokenStream::new(vec![Token::Builtin(String::from("ln"))]);
    assert_eq!(parse_expr(&mut tokens, 0), call("ln", Expr::Placeholder));
}

#[test]
fn parenthesised_group() {
    assert_eq!(parse("(1 + 2)"), bin(OpType::Add, num("1"), num("2")));
    assert_eq!(parse("(1 + 2) * 3"), bin(OpType::Mul, bin(OpType::Add, num("1"), num("2")), num("3")));
    assert_eq!(
        parse("2 * (1 + 2) + 3"),
        bin(OpType::Add, bin(OpType::Mul, num("2"), bin(OpType::Add, num("1"), num("2"))), num("3"))
    );
    assert_eq!(
        parse("f(1) + ln(2) * 3"),
        bin(OpType::Add, call("f", num("1")), bin(OpType::Mul, call("ln", num("2")), num("3")))
    );
}

#[test]
fn empty_stream_gives_placeholder() {
    let mut tokens = TokenStream::new(vec![]);
    assert_eq!(parse_expr(&mut tokens, 0), Expr::Placeholder);
    assert_eq!(tokens.len(), 0);
}

#[test]
fn parse_stops_at_weaker_operator() {
    let mut tokens = TokenStream::new(vec![lit("1"), Token::Operator('*'), lit("2"), Token::Operator('+'), lit("3")]);
    assert_eq!(parse_expr(&mut tokens, 2), bin(OpType::Mul, num("1"), num("2")));
    assert_eq!(tokens.len(), 2);
    assert_eq!(tokens.next(), Some(Token::Operator('+')));
}

#[test]
fn parse_leaves_an_unmatched_closing_parenthesis() {
    let mut tokens = TokenStream::new(vec![lit("1"), Token::CloseParen, lit("2")]);
    assert_eq!(parse_expr(&mut tokens, 0), num("1"));
    assert_eq!(tokens.peek(), Some(&Token::CloseParen));
}

#[test]
fn parse_stops_before_a_second_operand() {
    let mut tokens = TokenStream::new(vec![lit("1"), lit("2")]);
    assert_eq!(parse_expr(&mut tokens, 0), num("1"));
    assert_eq!(tokens.len(), 1);
}

#[test]
fn token_stream_reads_in_order() {
    let mut tokens = TokenStream::new(vec![Token::OpenParen, Token::CloseParen]);
    assert_eq!(tokens.len(), 2);
    assert_eq!(tokens.peek(), Some(&Token::OpenParen));
    assert_eq!(tokens.next(), Some(Token::OpenParen));
    assert_eq!(tokens.next(), Some(Token::CloseParen));
    assert_eq!(tokens.next(), None);
    assert_eq!(tokens.peek(), None);
}

#[test]
fn implied_argument_ends_at_the_operator() {
    // `cos1/2x` is read as `(cos1) / 2x`.
    assert_eq!(
        parse("cos1/2x"),
        bin(OpType::Div, call("cos", num("1")), bin(OpType::Mul, num("2"), var("x")))
    );
    assert_eq!(parse("sin x"), call("sin", var("x")));
    assert_eq!(parse("sin(x) + 1"), bin(OpType::Add, call("sin", var("x")), num("1")));
}

#[test]
fn order_of_operations_on_a_longer_chain() {
    // 1 + 2 * 3 ^ 2 ^ 2 - 8 / 4 / 2 = y
    assert_eq!(
        parse("1 + 2 * 3 ^ 2 ^ 2 - 8 / 4 / 2 = y"),
        bin(
            OpType::Equal,
            bin(
                OpType::Sub,
                bin(
                    OpType::Add,
                    num("1"),
                    bin(OpType::Mul, num("2"), bin(OpType::Exp, num("3"), bin(OpType::Exp, num("2"), num("2")))),
                ),
                bin(OpType::Div, bin(OpType::Div, num("8"), num("4")), num("2")),
            ),
            var("y"),
        )
    );
}

#[test]
fn equals_is_right_associative() {
    assert_eq!(parse("a = b = c"), bin(OpType::Equal, var("a"), bin(OpType::Equal, var("b"), var("c"))));
}

#[test]
fn balanced_text_is_read_to_the_end() {
    for text in [
        "f(x) = 5ln(e + 3) + sin3x + cos1/2x + cos(1/2x) + 2g(x)",
        "-1(2) + 6 = (2 + 2xyz) + 3 / 4x",
        "cos sin",
        "(sin)",
        "2 * (1 + 2) + 3",
        "()",
        "1 + ",
        "x_1 y_2 (3)",
    ] {
        let mut tokens = TokenStream::new(tokenize(text));
        parse_expr(&mut tokens, 0);
        assert_eq!(tokens.len(), 0, "{}", text);
    }
}

#[test]
fn fraction_only_groups_at_the_start_of_a_group() {
    assert_eq!(parse("2^1/2"), bin(OpType::Div, bin(OpType::Exp, num("2"), num("1")), num("2")));
    assert_eq!(parse("-1/2"), bin(OpType::Div, neg(num("1")), num("2")));
    assert_eq!(
        parse("(1/2x)"),
        bin(OpType::Mul, bin(OpType::Div, num("1"), num("2")), var("x"))
    );
    assert_eq!(parse("3/4x"), bin(OpType::Div, num("3"), bin(OpType::Mul, num("4"), var("x"))));
}

#[test]
fn builtin_without_parenthesis_takes_a_placeholder() {
    // After `tokenize`, a builtin lacks its `(` only at the end of the text
    // or of an implied argument: the token after it is not its argument.
    let mut tokens = TokenStream::new(vec![Token::Builtin(String::from("ln")), lit("2")]);
    assert_eq!(parse_expr(&mut tokens, 0), call("ln", Expr::Placeholder));
    assert_eq!(tokens.len(), 1);
    assert_eq!(parse("cos sin"), call("cos", call("sin", Expr::Placeholder)));
}

#[test]
fn order_of_operations_on_texts() {
    let ops = ['+', '-', '*', '/', '^', '='];
    for o1 in ops {
        for o2 in ops {
            let text = format!("12 {} 3 {} 45", o1, o2);
            let (t1, p1, r1) = operator_info(&o1, false);
            let (t2, p2, _) = operator_info(&o2, false);
            let expected = if p1 < p2 || (p1 == p2 && r1) {
                bin(t1, num("12"), bin(t2, num("3"), num("45")))
            } else {
                bin(t2, bin(t1, num("12"), num("3")), num("45"))
            };
            let mut tokens = TokenStream::new(tokenize(&text));
            assert_eq!(parse_expr(&mut tokens, 0), expected, "{}", text);
            assert_eq!(tokens.len(), 0, "{}", text);
        }
    }
}

#[test]
fn negation_binds_between_times_and_power() {
    assert_eq!(parse("-x / 2"), bin(OpType::Div, neg(var("x")), num("2")));
    assert_eq!(parse("-x * 2"), bin(OpType::Mul, neg(var("x")), num("2")));
    assert_eq!(parse("-x ^ 2"), neg(bin(OpType::Exp, var("x"), num("2"))));
    assert_eq!(parse("2 ^ -x * 3"), bin(OpType::Mul, bin(OpType::Exp, num("2"), neg(var("x"))), num("3")));
    assert_eq!(parse("1 - -2"), bin(OpType::Sub, num("1"), neg(num("2"))));
}
