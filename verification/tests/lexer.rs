//! The tokenizer on its own: the scan, the builtins, implied tokens and the
//! promises the library makes of its output.
use mathexpr::lexer::{is_builtin, scan_tokens, tokenize};
use mathexpr::text::slice_string;
use mathexpr::token::{Number, Token};

fn lit(text: &str) -> Token {
    Token::Number(Number::Literal(String::from(text)))
}

fn ident(name: &str) -> Token {
    Token::Identifier(String::from(name))
}

fn op(c: char) -> Token {
    Token::Operator(c)
}

fn juxtaposed(a: &Token, b: &Token) -> bool {
    let operand = matches!(a, Token::Number(_) | Token::Identifier(_) | Token::CloseParen | Token::Builtin(_));
    (operand && matches!(b, Token::Number(_) | Token::Identifier(_) | Token::Builtin(_)))
        || (matches!(a, Token::Builtin(_)) && matches!(b, Token::Operator(_)))
        || (matches!(a, Token::Number(_) | Token::CloseParen) && matches!(b, Token::OpenParen))
}

#[test]
fn empty_input_has_no_tokens() {
    assert_eq!(tokenize(""), vec![]);
    assert_eq!(tokenize("  \t "), vec![]);
}

#[test]
fn numbers_keep_their_text() {
    assert_eq!(tokenize("12.5"), vec![lit("12.5")]);
    assert_eq!(tokenize("1.2.3"), vec![lit("1.2.3")]);
}

#[test]
fn numbers_side_by_side_are_multiplied() {
    assert_eq!(tokenize("1 2"), vec![lit("1"), op('*'), lit("2")]);
}

#[test]
fn non_ascii_numeric_character_is_a_number() {
    assert_eq!(tokenize("²"), vec![lit("²")]);
    assert_eq!(tokenize("x²"), vec![ident("x"), op('*'), lit("²")]);
}

#[test]
fn whitespace_separates_names() {
    assert_eq!(tokenize("x\ty"), vec![ident("x"), op('*'), ident("y")]);
    assert_eq!(tokenize("x y"), vec![ident("x"), op('*'), ident("y")]);
}

#[test]
fn number_text_is_taken_by_characters() {
    assert_eq!(tokenize("π + 2"), vec![Token::Number(Number::Pi), op('+'), lit("2")]);
    assert_eq!(tokenize("π+12"), vec![Token::Number(Number::Pi), op('+'), lit("12")]);
}

#[test]
fn fraction_opening_a_group_is_one_operand() {
    let grouped = vec![
        Token::OpenParen,
        Token::OpenParen,
        lit("1"),
        op('/'),
        lit("2"),
        Token::CloseParen,
        op('*'),
        ident("x"),
        Token::CloseParen,
    ];
    assert_eq!(tokenize("(1/2x)"), grouped);
    assert_eq!(tokenize("( 1 / 2x )"), grouped);
    assert_eq!(tokenize("1/2x"), vec![lit("1"), op('/'), lit("2"), op('*'), ident("x")]);
    assert_eq!(tokenize("x1/2"), vec![ident("x"), op('*'), lit("1"), op('/'), lit("2")]);
    assert_eq!(tokenize("(x/2)"), vec![Token::OpenParen, ident("x"), op('/'), lit("2"), Token::CloseParen]);
}

#[test]
fn implied_argument_closed_at_the_end() {
    assert_eq!(
        tokenize("sin x"),
        vec![Token::Builtin(String::from("sin")), Token::OpenParen, ident("x"), Token::CloseParen]
    );
}

#[test]
fn implied_argument_closed_before_its_closing_parenthesis() {
    assert_eq!(
        tokenize("(sin x)"),
        vec![
            Token::OpenParen,
            Token::Builtin(String::from("sin")),
            Token::OpenParen,
            ident("x"),
            Token::CloseParen,
            Token::CloseParen
        ]
    );
}

#[test]
fn builtin_applied_to_builtin_call() {
    assert_eq!(
        tokenize("sin cos(x)"),
        vec![
            Token::Builtin(String::from("sin")),
            Token::OpenParen,
            Token::Builtin(String::from("cos")),
            Token::OpenParen,
            ident("x"),
            Token::CloseParen,
            Token::CloseParen
        ]
    );
}

#[test]
fn names_split_into_single_letters() {
    assert_eq!(
        tokenize("xyz"),
        vec![ident("x"), op('*'), ident("y"), op('*'), ident("z")]
    );
}

#[test]
fn names_with_underscore_stay_whole() {
    assert_eq!(tokenize("x_ab"), vec![ident("x_ab")]);
    assert_eq!(tokenize("x_1"), vec![ident("x_"), op('*'), lit("1")]);
}

#[test]
fn split_name_ending_in_e_is_an_identifier() {
    assert_eq!(tokenize("xe"), vec![ident("x"), op('*'), ident("e")]);
}

#[test]
fn constants_are_found_inside_names() {
    assert_eq!(tokenize("eπ"), vec![Token::Number(Number::E), op('*'), Token::Number(Number::Pi)]);
}

#[test]
fn builtin_at_the_end_takes_no_parenthesis() {
    assert_eq!(tokenize("sin"), vec![Token::Builtin(String::from("sin"))]);
}

#[test]
fn builtin_before_parenthesis_takes_no_implied_argument() {
    assert_eq!(
        tokenize("ln(x)"),
        vec![Token::Builtin(String::from("ln")), Token::OpenParen, ident("x"), Token::CloseParen]
    );
}

#[test]
fn closing_parenthesis_before_opening_one_is_multiplied() {
    assert_eq!(
        tokenize("(1)(2)"),
        vec![
            Token::OpenParen,
            lit("1"),
            Token::CloseParen,
            op('*'),
            Token::OpenParen,
            lit("2"),
            Token::CloseParen
        ]
    );
}

#[test]
fn identifier_before_parenthesis_is_not_multiplied() {
    assert_eq!(
        tokenize("f(2)"),
        vec![ident("f"), Token::OpenParen, lit("2"), Token::CloseParen]
    );
}

#[test]
fn no_juxtaposed_tokens_after_tokenize() {
    for text in ["2x(3)y", "-1(2) + 6 = (2 + 2xyz) + 3 / 4x", "sin cos(x)", "sin2(3)", "ab cd2 3e(1)", "cos sin", "ln ln x", "sin + 1", "(cos)"] {
        let tokens = tokenize(text);
        for pair in tokens.windows(2) {
            assert!(!juxtaposed(&pair[0], &pair[1]), "{} gives {:?}", text, tokens);
        }
    }
}

#[test]
fn identifiers_after_tokenize_are_letters_or_subscripted() {
    for text in ["abc + x_1 + d", "velocity_0 * time", "éé2"] {
        for t in tokenize(text) {
            if let Token::Identifier(s) = t {
                assert!(s.chars().count() == 1 || s.contains('_'), "{} gives {:?}", text, s);
            }
        }
    }
}

#[test]
fn builtin_lookup() {
    assert_eq!(is_builtin("sin"), (Some("sin"), None));
    assert_eq!(is_builtin("arctan"), (Some("arctan"), None));
    assert_eq!(is_builtin("π"), (None, Some(Number::Pi)));
    assert_eq!(is_builtin("e"), (None, Some(Number::E)));
    assert_eq!(is_builtin("si"), (None, None));
    assert_eq!(is_builtin(""), (None, None));
}

#[test]
fn scan_with_given_classification() {
    // '7' declared not numeric and '?' declared whitespace.
    assert_eq!(
        scan_tokens("a7?b", &vec![false, false, false, false], &vec![false, false, true, false]),
        vec![ident("a7"), ident("b")]
    );
    assert_eq!(
        scan_tokens("q+1", &vec![false, false, true], &vec![false, false, false]),
        vec![ident("q"), op('+'), lit("1")]
    );
}

#[test]
fn slices_by_character_index() {
    assert_eq!(slice_string("π + e", 0, 0), "π");
    assert_eq!(slice_string("π + e", 4, 4), "e");
    assert_eq!(slice_string("abc", 1, 5), "bc");
    assert_eq!(slice_string("abc", 2, 1), "");
    assert_eq!(slice_string("abc", 7, 9), "");
}

fn balanced(tokens: &[Token]) -> bool {
    let mut depth: i64 = 0;
    for t in tokens {
        match t {
            Token::OpenParen => depth += 1,
            Token::CloseParen => depth -= 1,
            _ => {}
        }
        if depth < 0 {
            return false;
        }
    }
    depth == 0
}

#[test]
fn tokens_of_balanced_text_are_balanced() {
    for text in [
        "(sin x)",
        "sin cos(x)",
        "sin cos x + 1",
        "((1/2)x + ln y)",
        "sin x (y)",
        "f(x) = 5ln(e + 3) + sin3x + cos1/2x + cos(1/2x) + 2g(x)",
    ] {
        let tokens = tokenize(text);
        assert!(balanced(&tokens), "{} gives {:?}", text, tokens);
    }
}

#[test]
fn unicode_whitespace_separates_names() {
    assert_eq!(tokenize("x\u{3000}y"), vec![ident("x"), op('*'), ident("y")]);
    assert_eq!(tokenize("x\u{00A0}+\u{2009}y"), vec![ident("x"), op('+'), ident("y")]);
}

#[test]
fn spaces_beside_symbols_do_not_change_tokens() {
    let pairs = [
        ("2*(x+1)", "2 * ( x + 1 )"),
        ("f(x)=5ln(e+3)", "f( x ) = 5ln( e +3 )"),
        ("sin(2)^2", "sin (2) ^\t2"),
        ("1/2x+3", "1 / 2x + 3"),
        ("cos(1/2x)", "cos( 1 / 2x )"),
        ("a/b", "a / b"),
    ];
    for (tight, spaced) in pairs {
        assert_eq!(tokenize(tight), tokenize(spaced), "{} vs {}", tight, spaced);
    }
}

#[test]
fn spaces_inside_a_fraction_do_not_change_tokens() {
    assert_eq!(tokenize("(1/2)"), tokenize("(1 /2)"));
    assert_eq!(tokenize("(1/2)"), tokenize("( 1/ 2 )"));
    assert_eq!(tokenize("3/4x"), tokenize("3 / 4x"));
}

#[test]
fn operators_after_tokenize_are_known() {
    for text in ["1 + 2 - 3 * 4 / 5 ^ 6 = 7", "2xy", "(1)(2)", "a % b"] {
        for t in tokenize(text) {
            if let Token::Operator(c) = t {
                assert!("+-*/^=".contains(c), "{} gives {:?}", text, c);
            }
        }
    }
}
