//! Turning the text of an expression into tokens.
//!
//! The scan goes left to right over the characters. Parentheses and the
//! operators `+ - * / ^ =` are tokens of their own. A maximal run of number
//! characters (numeric characters and `.`) is a number. A run of the other
//! non-whitespace characters is read greedily: as soon as the characters
//! read since the start of the run (or since the last builtin found in it)
//! spell a builtin function or constant, that builtin is a token and reading
//! starts afresh; what is left at the end of the run is an identifier.
//! Whitespace only separates names and numbers.
//!
//! A fraction of two numbers that opens a group, such as the `1/2` of
//! `cos(1/2x)`, is then put in parentheses of its own, so that it reads as
//! one operand.
//!
//! A second pass makes implied products and the arguments of builtins
//! explicit: it puts `*` between juxtaposed operands, splits identifiers of
//! several letters into a product of letters, and puts parentheses around
//! the argument of a builtin that has none.
use vstd::prelude::*;
use vstd::string::*;
use crate::text::{
    char_is_numeric, chars_of, contains_char, is_numeric, is_white_space, is_whitespace,
    slice_string, spec_slice_string, str_equals,
};
use crate::token::{lemma_views_push, views, Number, NumberView, Token, TokenView};

verus! {

/// `+ - * / ^ =`
pub open spec fn is_operator_char(c: char) -> bool {
    c == '+' || c == '-' || c == '*' || c == '/' || c == '^' || c == '='
}

/// Whether the character at `i` belongs to a number: it is numeric
/// (`numeric[i]`) or it is a dot.
pub open spec fn number_at(cs: Seq<char>, numeric: Seq<bool>, i: int) -> bool {
    numeric[i] || cs[i] == '.'
}

/// Whether the character at `i` belongs to a name: it is no parenthesis,
/// operator, number character or whitespace (`whitespace[i]`).
pub open spec fn name_at(cs: Seq<char>, numeric: Seq<bool>, whitespace: Seq<bool>, i: int) -> bool {
    &&& !(is_operator_char(cs[i]) || cs[i] == '(' || cs[i] == ')')
    &&& !number_at(cs, numeric, i)
    &&& !whitespace[i]
}

/// The names of the builtin functions.
pub open spec fn is_builtin_function(s: Seq<char>) -> bool {
    ||| s == "sin"@
    ||| s == "cos"@
    ||| s == "tan"@
    ||| s == "arcsin"@
    ||| s == "arccos"@
    ||| s == "arctan"@
    ||| s == "csc"@
    ||| s == "sec"@
    ||| s == "cot"@
    ||| s == "ln"@
    ||| s == "log"@
}

/// The builtin constant named `s`, if any: `π` and `e`.
pub open spec fn builtin_constant(s: Seq<char>) -> Option<NumberView> {
    if s == "π"@ {
        Some(NumberView::Pi)
    } else if s == "e"@ {
        Some(NumberView::E)
    } else {
        None
    }
}

/// A parenthesis or an operator: a character that is a token of its own.
pub open spec fn is_symbol(c: char) -> bool {
    is_operator_char(c) || c == '(' || c == ')'
}

/// One step of the scan, at character `i`. The state is the index where
/// the current number started, the index where the current name started,
/// and the tokens so far.
pub open spec fn scan_step(
    cs: Seq<char>,
    numeric: Seq<bool>,
    whitespace: Seq<bool>,
    i: int,
    st: (int, int, Seq<TokenView>),
) -> (int, int, Seq<TokenView>) {
    let (num_start, id_start, out) = st;
    let c = cs[i];
    let last = i + 1 == cs.len();
    if c == '(' {
        (num_start, id_start, out.push(TokenView::OpenParen))
    } else if c == ')' {
        (num_start, id_start, out.push(TokenView::CloseParen))
    } else if is_operator_char(c) {
        (num_start, id_start, out.push(TokenView::Operator(c)))
    } else if number_at(cs, numeric, i) {
        let start = if i == 0 || !number_at(cs, numeric, i - 1) {
            i
        } else {
            num_start
        };
        if last || !number_at(cs, numeric, i + 1) {
            (
                start,
                id_start,
                out.push(TokenView::Number(NumberView::Literal(spec_slice_string(cs, start, i)))),
            )
        } else {
            (start, id_start, out)
        }
    } else if !whitespace[i] {
        let start = if i == 0 || !name_at(cs, numeric, whitespace, i - 1) {
            i
        } else {
            id_start
        };
        let slice = spec_slice_string(cs, start, i);
        if is_builtin_function(slice) {
            (num_start, i + 1, out.push(TokenView::Builtin(slice)))
        } else if builtin_constant(slice) is Some {
            (num_start, i + 1, out.push(TokenView::Number(builtin_constant(slice).unwrap())))
        } else if last || !name_at(cs, numeric, whitespace, i + 1) {
            (num_start, start, out.push(TokenView::Identifier(slice)))
        } else {
            (num_start, start, out)
        }
    } else {
        st
    }
}

/// The state of the scan after the first `n` characters.
pub open spec fn scan_prefix(cs: Seq<char>, numeric: Seq<bool>, whitespace: Seq<bool>, n: nat) -> (
    int,
    int,
    Seq<TokenView>,
)
    decreases n,
{
    if n == 0 {
        (0, 0, Seq::empty())
    } else {
        scan_step(cs, numeric, whitespace, n - 1, scan_prefix(cs, numeric, whitespace, (n - 1) as nat))
    }
}

/// The tokens that the scan finds in `cs`, given which characters are
/// numeric and which are whitespace.
pub open spec fn scanned_tokens(cs: Seq<char>, numeric: Seq<bool>, whitespace: Seq<bool>) -> Seq<
    TokenView,
> {
    scan_prefix(cs, numeric, whitespace, cs.len()).2
}

/// Whether token `i` of `ts` is the numerator of a fraction that opens a
/// group: a number directly after `(`, followed by `/` and a number.
pub open spec fn opens_fraction(ts: Seq<TokenView>, i: int) -> bool {
    &&& 1 <= i && i + 2 < ts.len()
    &&& ts[i - 1] is OpenParen
    &&& ts[i] is Number
    &&& ts[i + 1] == TokenView::Operator('/')
    &&& ts[i + 2] is Number
}

/// What the grouping of fractions writes for token `i`: an opening
/// parenthesis before a numerator that opens a group, a closing one after
/// its denominator.
pub open spec fn fraction_piece(ts: Seq<TokenView>, i: int) -> Seq<TokenView> {
    if opens_fraction(ts, i) {
        seq![TokenView::OpenParen, ts[i]]
    } else if opens_fraction(ts, i - 2) {
        seq![ts[i], TokenView::CloseParen]
    } else {
        seq![ts[i]]
    }
}

/// The grouping of fractions applied to the first `n` tokens.
pub open spec fn grouped_prefix(ts: Seq<TokenView>, n: nat) -> Seq<TokenView>
    decreases n,
{
    if n == 0 {
        Seq::empty()
    } else {
        grouped_prefix(ts, (n - 1) as nat) + fraction_piece(ts, n - 1)
    }
}

/// `ts` with each fraction that opens a group, such as the `1/2` of
/// `(1/2x)`, put in parentheses of its own, so that it reads as one
/// operand.
pub open spec fn grouped_fractions(ts: Seq<TokenView>) -> Seq<TokenView> {
    grouped_prefix(ts, ts.len())
}

/// Among the ASCII characters of `cs`, exactly the digits are numeric.
pub open spec fn ascii_digits_numeric(cs: Seq<char>) -> bool {
    forall|j: int|
        0 <= j < cs.len() && (cs[j] as u32) < 0x80 ==> (#[trigger] char_is_numeric(cs[j]) <==> (
        '0' <= cs[j] && cs[j] <= '9'))
}

/// Whether each character of `cs` is read as numeric: `char::is_numeric`
/// holds of it and it is no whitespace, parenthesis or operator. (No such
/// character is numeric in Unicode; the scan just does not rely on it.)
pub open spec fn numeric_flags(cs: Seq<char>) -> Seq<bool> {
    Seq::new(
        cs.len(),
        |i: int| char_is_numeric(cs[i]) && !is_white_space(cs[i]) && !is_symbol(cs[i]),
    )
}

/// Whether `c` is whitespace, for each character of `cs`.
pub open spec fn whitespace_flags(cs: Seq<char>) -> Seq<bool> {
    Seq::new(cs.len(), |i: int| is_white_space(cs[i]))
}

/// Whether `value` names a builtin function (first) or a builtin constant
/// (second).
pub fn is_builtin(value: &str) -> (res: (Option<&str>, Option<Number>))
    ensures
        res.0 == (if is_builtin_function(value@) {
            Some(value)
        } else {
            None
        }),
        match res.1 {
            Some(n) => builtin_constant(value@) == Some(n@),
            None => builtin_constant(value@) is None,
        },
{
    let function = str_equals(value, "sin") || str_equals(value, "cos") || str_equals(value, "tan")
        || str_equals(value, "arcsin") || str_equals(value, "arccos") || str_equals(
        value,
        "arctan",
    ) || str_equals(value, "csc") || str_equals(value, "sec") || str_equals(value, "cot")
        || str_equals(value, "ln") || str_equals(value, "log");
    let constant = if str_equals(value, "π") {
        Some(Number::Pi)
    } else if str_equals(value, "e") {
        Some(Number::E)
    } else {
        None
    };
    (
        if function {
            Some(value)
        } else {
            None
        },
        constant,
    )
}


/// Whether `c` belongs to a number, given whether it is numeric.
fn is_number(c: char, numeric: bool) -> (res: bool)
    ensures
        res == (numeric || c == '.'),
{
    numeric || c == '.'
}

/// Whether `c` belongs to a name, given whether it is numeric and whether
/// it is whitespace.
fn is_unknown(c: char, numeric: bool, whitespace: bool) -> (res: bool)
    ensures
        res == (!(is_operator_char(c) || c == '(' || c == ')') && !(numeric || c == '.')
            && !whitespace),
{
    !(c == '+' || c == '-' || c == '*' || c == '/' || c == '^' || c == ')' || c == '(' || c
        == '=') && !is_number(c, numeric) && !whitespace
}

/// Numbers, identifiers and closing parentheses: what an implied
/// multiplication can follow.
pub open spec fn is_operand(t: TokenView) -> bool {
    t is Number || t is Identifier || t is CloseParen
}

/// Whether `a` directly followed by `b` is a product: an operand followed by
/// a number, an identifier or a builtin, or a number or closing parenthesis
/// followed by an opening parenthesis. (An identifier followed by an
/// opening parenthesis is a function call.)
pub open spec fn juxtaposed(a: TokenView, b: TokenView) -> bool {
    ||| is_operand(a) && (b is Number || b is Identifier || b is Builtin)
    ||| (a is Number || a is CloseParen) && b is OpenParen
}

/// An identifier of more than one character without an underscore stands
/// for the product of its characters.
pub open spec fn splittable(id: Seq<char>) -> bool {
    id.len() > 1 && !id.contains('_')
}

/// The characters of `id` as one-character identifiers, with `*` between
/// them.
pub open spec fn split_identifier(id: Seq<char>) -> Seq<TokenView> {
    Seq::new(
        (2 * id.len() - 1) as nat,
        |j: int|
            if j % 2 == 0 {
                TokenView::Identifier(seq![id[j / 2]])
            } else {
                TokenView::Operator('*')
            },
    )
}

/// `n` closing parentheses.
pub open spec fn closers(n: nat) -> Seq<TokenView> {
    Seq::new(n, |k: int| TokenView::CloseParen)
}

/// How many of the implied arguments on top of `open` (the parenthesis
/// depths at which they were opened) were opened at depth `depth`.
pub open spec fn closing_count(open: Seq<int>, depth: int) -> nat
    decreases open.len(),
{
    if open.len() > 0 && open.last() == depth {
        1 + closing_count(open.drop_last(), depth)
    } else {
        0
    }
}

/// Whether token `i` ends the implied arguments open at the current depth:
/// an operator, a closing parenthesis, or an opening parenthesis that does
/// not directly follow a builtin.
pub open spec fn ends_arguments(ts: Seq<TokenView>, i: int) -> bool {
    ||| ts[i] is Operator
    ||| ts[i] is CloseParen
    ||| ts[i] is OpenParen && !(i > 0 && ts[i - 1] is Builtin)
}

/// One step of the second pass, at token `i`. The state is the output so
/// far, the depths (counted in parentheses of the input) at which the
/// implied arguments still open were opened, and the current depth.
/// Implied arguments are closed before an operator, before a parenthesis
/// (but for the one of a builtin), at their own depth, and at the end.
pub open spec fn implied_step(ts: Seq<TokenView>, i: int, st: (Seq<TokenView>, Seq<int>, int)) -> (
    Seq<TokenView>,
    Seq<int>,
    int,
) {
    let (out, open, depth) = st;
    let t = ts[i];
    let k: nat = if ends_arguments(ts, i) {
        closing_count(open, depth)
    } else {
        0
    };
    let out1 = out + closers(k);
    let open1 = open.subrange(0, open.len() - k);
    let out2 = match t {
        TokenView::Identifier(id) => if splittable(id) {
            out1 + split_identifier(id)
        } else {
            out1.push(t)
        },
        TokenView::OpenParen => if k > 0 {
            out1.push(TokenView::Operator('*')).push(t)
        } else {
            out1.push(t)
        },
        _ => out1.push(t),
    };
    let depth1 = if t is OpenParen {
        depth + 1
    } else if t is CloseParen {
        depth - 1
    } else {
        depth
    };
    if i + 1 == ts.len() {
        (out2 + closers(open1.len()), Seq::empty(), depth1)
    } else {
        let next = ts[i + 1];
        let argument = t is Builtin && !(next is OpenParen);
        let out3 = if argument {
            out2.push(TokenView::OpenParen)
        } else {
            out2
        };
        let open2 = if argument {
            open1.push(depth1)
        } else {
            open1
        };
        let out4 = if juxtaposed(t, next) {
            out3.push(TokenView::Operator('*'))
        } else {
            out3
        };
        (out4, open2, depth1)
    }
}

/// The state of the second pass after the first `n` tokens.
pub open spec fn implied_prefix(ts: Seq<TokenView>, n: nat) -> (Seq<TokenView>, Seq<int>, int)
    decreases n,
{
    if n == 0 {
        (Seq::empty(), Seq::empty(), 0)
    } else {
        implied_step(ts, n - 1, implied_prefix(ts, (n - 1) as nat))
    }
}

/// The tokens `ts` with implied products and implied arguments made
/// explicit.
pub open spec fn implied_tokens(ts: Seq<TokenView>) -> Seq<TokenView> {
    implied_prefix(ts, ts.len()).0
}

proof fn lemma_closing_count_bound(open: Seq<int>, depth: int)
    ensures
        closing_count(open, depth) <= open.len(),
    decreases open.len(),
{
    if open.len() > 0 && open.last() == depth {
        lemma_closing_count_bound(open.drop_last(), depth);
    }
}

/// Whether `b` directly after `a` would be read as a product or as the
/// argument of a builtin: `a` and `b` are juxtaposed, or `a` is a builtin
/// and `b` a number, an identifier, a builtin or an operator.
pub open spec fn run_together(a: TokenView, b: TokenView) -> bool {
    ||| juxtaposed(a, b)
    ||| a is Builtin && (b is Number || b is Identifier || b is Builtin || b is Operator)
}

/// No two neighbouring tokens of `s` run together: no operand is directly
/// followed by a number, an identifier or a builtin, no number or closing
/// parenthesis by an opening parenthesis, and a builtin only by a
/// parenthesis.
pub open spec fn no_juxtaposed_pair(s: Seq<TokenView>) -> bool {
    forall|j: int| 0 <= j < s.len() - 1 ==> !#[trigger] run_together(s[j], s[j + 1])
}

proof fn lemma_no_juxtaposed_push(s: Seq<TokenView>, x: TokenView)
    requires
        no_juxtaposed_pair(s),
        s.len() > 0 ==> !run_together(s.last(), x),
    ensures
        no_juxtaposed_pair(s.push(x)),
{
    let t = s.push(x);
    assert forall|j: int| 0 <= j < t.len() - 1 implies !#[trigger] run_together(t[j], t[j + 1]) by {
        if j < s.len() - 1 {
            assert(t[j] == s[j] && t[j + 1] == s[j + 1]);
        } else {
            assert(t[j] == s.last() && t[j + 1] == x);
        }
    }
}

proof fn lemma_no_juxtaposed_concat(a: Seq<TokenView>, b: Seq<TokenView>)
    requires
        no_juxtaposed_pair(a),
        no_juxtaposed_pair(b),
        a.len() > 0 && b.len() > 0 ==> !run_together(a.last(), b[0]),
    ensures
        no_juxtaposed_pair(a + b),
        b.len() > 0 ==> (a + b).last() == b.last(),
        b.len() == 0 ==> a + b == a,
{
    let t = a + b;
    assert forall|j: int| 0 <= j < t.len() - 1 implies !#[trigger] run_together(t[j], t[j + 1]) by {
        if j < a.len() - 1 {
            assert(t[j] == a[j] && t[j + 1] == a[j + 1]);
        } else if j == a.len() - 1 {
            assert(t[j] == a.last() && t[j + 1] == b[0]);
        } else {
            assert(t[j] == b[j - a.len()] && t[j + 1] == b[j - a.len() + 1]);
        }
    }
    if b.len() == 0 {
        assert(a + b =~= a);
    }
}

proof fn lemma_closers_no_juxtaposed(n: nat)
    ensures
        no_juxtaposed_pair(closers(n)),
        n > 0 ==> closers(n)[0] is CloseParen && closers(n).last() is CloseParen,
{
    let c = closers(n);
    assert forall|j: int| 0 <= j < c.len() - 1 implies !#[trigger] run_together(c[j], c[j + 1]) by {
        assert(c[j + 1] is CloseParen);
    }
}

proof fn lemma_split_identifier_no_juxtaposed(id: Seq<char>)
    requires
        id.len() > 0,
    ensures
        no_juxtaposed_pair(split_identifier(id)),
        split_identifier(id).len() > 0,
        split_identifier(id)[0] is Identifier,
        split_identifier(id).last() is Identifier,
{
    let p = split_identifier(id);
    assert forall|j: int| 0 <= j < p.len() - 1 implies !#[trigger] run_together(p[j], p[j + 1]) by {
        if j % 2 == 0 {
            assert((j + 1) % 2 == 1);
        } else {
            assert((j + 1) % 2 == 0);
        }
    }
    assert(0int % 2 == 0);
    assert((2 * id.len() - 2) % 2 == 0);
}

proof fn lemma_implied_step_no_juxtaposed(
    ts: Seq<TokenView>,
    i: int,
    st: (Seq<TokenView>, Seq<int>, int),
)
    requires
        0 <= i < ts.len(),
        no_juxtaposed_pair(st.0),
        st.0.len() > 0 ==> !run_together(st.0.last(), ts[i]),
    ensures
        no_juxtaposed_pair(implied_step(ts, i, st).0),
        implied_step(ts, i, st).0.len() > 0,
        i + 1 < ts.len() ==> !run_together(implied_step(ts, i, st).0.last(), ts[i + 1]),
{
    let (out, open, depth) = st;
    let t = ts[i];
    let k: nat = if ends_arguments(ts, i) {
        closing_count(open, depth)
    } else {
        0
    };
    lemma_closing_count_bound(open, depth);
    let out1 = out + closers(k);
    let open1 = open.subrange(0, open.len() - k);
    lemma_closers_no_juxtaposed(k);
    lemma_no_juxtaposed_concat(out, closers(k));
    let out2 = match t {
        TokenView::Identifier(id) => if splittable(id) {
            out1 + split_identifier(id)
        } else {
            out1.push(t)
        },
        TokenView::OpenParen => if k > 0 {
            out1.push(TokenView::Operator('*')).push(t)
        } else {
            out1.push(t)
        },
        _ => out1.push(t),
    };
    match t {
        TokenView::Identifier(id) => {
            if splittable(id) {
                lemma_split_identifier_no_juxtaposed(id);
                lemma_no_juxtaposed_concat(out1, split_identifier(id));
            } else {
                lemma_no_juxtaposed_push(out1, t);
            }
        },
        TokenView::OpenParen => {
            if k > 0 {
                lemma_no_juxtaposed_push(out1, TokenView::Operator('*'));
                lemma_no_juxtaposed_push(out1.push(TokenView::Operator('*')), t);
            } else {
                lemma_no_juxtaposed_push(out1, t);
            }
        },
        _ => {
            lemma_no_juxtaposed_push(out1, t);
        },
    }
    if i + 1 == ts.len() {
        lemma_closers_no_juxtaposed(open1.len());
        lemma_no_juxtaposed_concat(out2, closers(open1.len()));
    } else {
        let next = ts[i + 1];
        let argument = t is Builtin && !(next is OpenParen);
        let out3 = if argument {
            out2.push(TokenView::OpenParen)
        } else {
            out2
        };
        if argument {
            lemma_no_juxtaposed_push(out2, TokenView::OpenParen);
        }
        if juxtaposed(t, next) {
            lemma_no_juxtaposed_push(out3, TokenView::Operator('*'));
        }
    }
}

proof fn lemma_implied_prefix_no_juxtaposed(ts: Seq<TokenView>, n: nat)
    requires
        n <= ts.len(),
    ensures
        no_juxtaposed_pair(implied_prefix(ts, n).0),
        0 < n < ts.len() ==> implied_prefix(ts, n).0.len() > 0 && !run_together(
            implied_prefix(ts, n).0.last(),
            ts[n as int],
        ),
    decreases n,
{
    if n > 0 {
        lemma_implied_prefix_no_juxtaposed(ts, (n - 1) as nat);
        lemma_implied_step_no_juxtaposed(ts, n - 1, implied_prefix(ts, (n - 1) as nat));
    }
}

/// Implied products and arguments are made explicit: in the output of the
/// second pass no operand is directly followed by a number, an identifier
/// or a builtin, no number or closing parenthesis by an opening
/// parenthesis, and a builtin, unless it is last, only by a parenthesis.
pub proof fn lemma_implied_tokens_no_juxtaposed(ts: Seq<TokenView>)
    ensures
        no_juxtaposed_pair(implied_tokens(ts)),
{
    lemma_implied_prefix_no_juxtaposed(ts, ts.len());
}

/// An identifier of the output of the second pass is a single character,
/// or an identifier of its input that is not split.
pub open spec fn identifier_from(ts: Seq<TokenView>, x: TokenView) -> bool {
    x matches TokenView::Identifier(s) ==> (s.len() == 1 || (ts.contains(x) && !splittable(s)))
}

proof fn lemma_implied_prefix_identifiers(ts: Seq<TokenView>, n: nat)
    requires
        n <= ts.len(),
    ensures
        forall|j: int|
            0 <= j < implied_prefix(ts, n).0.len() ==> identifier_from(
                ts,
                #[trigger] implied_prefix(ts, n).0[j],
            ),
    decreases n,
{
    if n > 0 {
        let i = n - 1;
        lemma_implied_prefix_identifiers(ts, i as nat);
        let prev = implied_prefix(ts, i as nat).0;
        let out = implied_prefix(ts, n).0;
        let t = ts[i];
        assert(ts.contains(t)) by {
            assert(ts[i] == t);
        }
        if let TokenView::Identifier(id) = t {
            if splittable(id) {
                let p = split_identifier(id);
                assert forall|j: int| 0 <= j < p.len() implies identifier_from(ts, #[trigger] p[j]) by {
                    if j % 2 == 0 {
                        assert(p[j] == TokenView::Identifier(seq![id[j / 2]]));
                    }
                }
            }
        }
        assert forall|j: int| 0 <= j < out.len() implies identifier_from(ts, #[trigger] out[j]) by {
            if j < prev.len() {
                assert(out[j] == prev[j]);
            }
        }
    }
}

/// Every identifier of the output of the second pass is a single
/// character, or an identifier of the input that is not split.
pub proof fn lemma_implied_tokens_identifiers(ts: Seq<TokenView>)
    ensures
        forall|j: int|
            0 <= j < implied_tokens(ts).len() ==> identifier_from(ts, #[trigger] implied_tokens(ts)[j]),
{
    lemma_implied_prefix_identifiers(ts, ts.len());
}

proof fn lemma_implied_step_extends(ts: Seq<TokenView>, i: int, st: (Seq<TokenView>, Seq<int>, int))
    requires
        0 <= i < ts.len(),
    ensures
        st.0.len() <= implied_step(ts, i, st).0.len(),
        implied_step(ts, i, st).0.subrange(0, st.0.len() as int) == st.0,
{
    lemma_closing_count_bound(st.1, st.2);
    assert(implied_step(ts, i, st).0.subrange(0, st.0.len() as int) =~= st.0);
}

proof fn lemma_implied_prefix_extends(ts: Seq<TokenView>, n: nat, m: nat)
    requires
        n <= m <= ts.len(),
    ensures
        implied_prefix(ts, n).0.len() <= implied_prefix(ts, m).0.len(),
        implied_prefix(ts, m).0.subrange(0, implied_prefix(ts, n).0.len() as int)
            == implied_prefix(ts, n).0,
    decreases m - n,
{
    if n < m {
        lemma_implied_prefix_extends(ts, n, (m - 1) as nat);
        lemma_implied_step_extends(ts, m - 1, implied_prefix(ts, (m - 1) as nat));
        let a = implied_prefix(ts, n).0;
        let b = implied_prefix(ts, (m - 1) as nat).0;
        let c = implied_prefix(ts, m).0;
        assert(c.subrange(0, a.len() as int) =~= a) by {
            assert(c.subrange(0, a.len() as int) =~= c.subrange(0, b.len() as int).subrange(
                0,
                a.len() as int,
            ));
        }
    } else {
        let a = implied_prefix(ts, n).0;
        assert(a.subrange(0, a.len() as int) =~= a);
    }
}

/// Each builtin of `ts` that is followed by anything but `(` stands in
/// `out` directly before an opening parenthesis.
pub open spec fn builtin_arguments_opened(ts: Seq<TokenView>, out: Seq<TokenView>) -> bool {
    forall|i: int|
        0 <= i < ts.len() - 1 && #[trigger] ts[i] is Builtin && !(ts[i + 1] is OpenParen) ==> exists|
            j: int,
        |
            0 <= j < out.len() - 1 && #[trigger] out[j] == ts[i] && out[j + 1]
                == TokenView::OpenParen
}

/// Implied parentheses: in the output of the second pass, each builtin of
/// the input that is followed by anything but `(` is followed by an
/// opening parenthesis.
pub proof fn lemma_implied_tokens_open_arguments(ts: Seq<TokenView>)
    ensures
        builtin_arguments_opened(ts, implied_tokens(ts)),
{
    let out = implied_tokens(ts);
    assert forall|i: int|
        0 <= i < ts.len() - 1 && #[trigger] ts[i] is Builtin && !(ts[i
            + 1] is OpenParen) implies exists|j: int|
        0 <= j < out.len() - 1 && #[trigger] out[j] == ts[i] && out[j + 1]
            == TokenView::OpenParen by {
        let before = implied_prefix(ts, i as nat).0;
        let after = implied_prefix(ts, (i + 1) as nat).0;
        let j = before.len() as int;
        assert(before + closers(0) =~= before);
        assert(after[j] == ts[i] && after[j + 1] == TokenView::OpenParen);
        lemma_implied_prefix_extends(ts, (i + 1) as nat, ts.len());
        assert(out.subrange(0, after.len() as int) == after);
        assert(out[j] == after[j] && out[j + 1] == after[j + 1]);
    }
}

pub(crate) proof fn lemma_scan_prefix_identifiers(
    cs: Seq<char>,
    numeric: Seq<bool>,
    whitespace: Seq<bool>,
    n: nat,
)
    requires
        n <= cs.len(),
    ensures
        0 <= scan_prefix(cs, numeric, whitespace, n).0 <= n,
        0 <= scan_prefix(cs, numeric, whitespace, n).1 <= n,
        forall|j: int|
            0 <= j < scan_prefix(cs, numeric, whitespace, n).2.len() ==> (
            #[trigger] scan_prefix(cs, numeric, whitespace, n).2[j] matches TokenView::Identifier(
                s,
            ) ==> s.len() > 0),
    decreases n,
{
    if n > 0 {
        lemma_scan_prefix_identifiers(cs, numeric, whitespace, (n - 1) as nat);
        let prev = scan_prefix(cs, numeric, whitespace, (n - 1) as nat).2;
        let out = scan_prefix(cs, numeric, whitespace, n).2;
        assert forall|j: int| 0 <= j < out.len() implies (#[trigger] out[j] matches TokenView::Identifier(
            s,
        ) ==> s.len() > 0) by {
            if j < prev.len() {
                assert(out[j] == prev[j]);
            }
        }
    }
}

/// The scan finds no empty identifier.
pub proof fn lemma_scanned_identifiers_nonempty(cs: Seq<char>, numeric: Seq<bool>, whitespace: Seq<bool>)
    ensures
        forall|j: int|
            0 <= j < scanned_tokens(cs, numeric, whitespace).len() ==> (
            #[trigger] scanned_tokens(cs, numeric, whitespace)[j] matches TokenView::Identifier(
                s,
            ) ==> s.len() > 0),
{
    lemma_scan_prefix_identifiers(cs, numeric, whitespace, cs.len());
}

/// Whether every operator of `s` is one of `+ - * / ^ =`.
pub open spec fn operators_known(s: Seq<TokenView>) -> bool {
    forall|j: int|
        0 <= j < s.len() ==> (#[trigger] s[j] matches TokenView::Operator(c) ==> is_operator_char(c))
}

proof fn lemma_scan_prefix_operators(cs: Seq<char>, numeric: Seq<bool>, whitespace: Seq<bool>, n: nat)
    requires
        n <= cs.len(),
    ensures
        operators_known(scan_prefix(cs, numeric, whitespace, n).2),
    decreases n,
{
    if n > 0 {
        lemma_scan_prefix_operators(cs, numeric, whitespace, (n - 1) as nat);
        let prev = scan_prefix(cs, numeric, whitespace, (n - 1) as nat).2;
        let out = scan_prefix(cs, numeric, whitespace, n).2;
        assert forall|j: int| 0 <= j < out.len() implies (#[trigger] out[j] matches TokenView::Operator(
            c,
        ) ==> is_operator_char(c)) by {
            if j < prev.len() {
                assert(out[j] == prev[j]);
            }
        }
    }
}

/// The scan writes no operator but `+ - * / ^ =`.
pub proof fn lemma_scanned_operators_known(cs: Seq<char>, numeric: Seq<bool>, whitespace: Seq<bool>)
    ensures
        operators_known(scanned_tokens(cs, numeric, whitespace)),
{
    lemma_scan_prefix_operators(cs, numeric, whitespace, cs.len());
}

proof fn lemma_implied_prefix_operators(ts: Seq<TokenView>, n: nat)
    requires
        n <= ts.len(),
        operators_known(ts),
    ensures
        operators_known(implied_prefix(ts, n).0),
    decreases n,
{
    if n > 0 {
        let i = n - 1;
        lemma_implied_prefix_operators(ts, i as nat);
        let prev = implied_prefix(ts, i as nat).0;
        let out = implied_prefix(ts, n).0;
        let t = ts[i];
        assert(t matches TokenView::Operator(c) ==> is_operator_char(c));
        if let TokenView::Identifier(id) = t {
            if splittable(id) {
                let p = split_identifier(id);
                assert forall|j: int| 0 <= j < p.len() implies (#[trigger] p[j] matches TokenView::Operator(
                    c,
                ) ==> is_operator_char(c)) by {
                    if j % 2 == 0 {
                        assert(p[j] == TokenView::Identifier(seq![id[j / 2]]));
                    }
                }
            }
        }
        assert forall|j: int| 0 <= j < out.len() implies (#[trigger] out[j] matches TokenView::Operator(
            c,
        ) ==> is_operator_char(c)) by {
            if j < prev.len() {
                assert(out[j] == prev[j]);
            }
        }
    }
}

/// The second pass adds no operator but `*`: when the operators of its
/// input are among `+ - * / ^ =`, so are those of its output.
pub proof fn lemma_implied_tokens_operators(ts: Seq<TokenView>)
    requires
        operators_known(ts),
    ensures
        operators_known(implied_tokens(ts)),
{
    lemma_implied_prefix_operators(ts, ts.len());
}

/// What a token adds to the count of open parentheses.
pub open spec fn paren_delta(t: TokenView) -> int {
    if t is OpenParen {
        1
    } else if t is CloseParen {
        -1
    } else {
        0
    }
}

/// Opening parentheses of `s` less its closing parentheses.
pub open spec fn paren_excess(s: Seq<TokenView>) -> int
    decreases s.len(),
{
    if s.len() == 0 {
        0
    } else {
        paren_excess(s.drop_last()) + paren_delta(s.last())
    }
}

/// No prefix of `s` closes more parentheses than it opens.
pub open spec fn prefixes_nonnegative(s: Seq<TokenView>) -> bool {
    forall|k: int| 0 <= k <= s.len() ==> paren_excess(#[trigger] s.take(k)) >= 0
}

/// Every parenthesis of `s` is matched.
pub open spec fn balanced(s: Seq<TokenView>) -> bool {
    paren_excess(s) == 0 && prefixes_nonnegative(s)
}

pub(crate) proof fn lemma_excess_append(a: Seq<TokenView>, b: Seq<TokenView>)
    ensures
        paren_excess(a + b) == paren_excess(a) + paren_excess(b),
    decreases b.len(),
{
    if b.len() == 0 {
        assert(a + b =~= a);
    } else {
        lemma_excess_append(a, b.drop_last());
        assert((a + b).drop_last() =~= a + b.drop_last());
    }
}

proof fn lemma_nonnegative_append(a: Seq<TokenView>, b: Seq<TokenView>)
    requires
        prefixes_nonnegative(a),
        forall|k: int| 0 <= k <= b.len() ==> paren_excess(a) + paren_excess(#[trigger] b.take(k)) >= 0,
    ensures
        prefixes_nonnegative(a + b),
{
    let t = a + b;
    assert forall|k: int| 0 <= k <= t.len() implies paren_excess(#[trigger] t.take(k)) >= 0 by {
        if k <= a.len() {
            assert(t.take(k) =~= a.take(k));
        } else {
            assert(t.take(k) =~= a + b.take(k - a.len()));
            lemma_excess_append(a, b.take(k - a.len()));
            assert(a.take(a.len() as int) =~= a);
        }
    }
}

proof fn lemma_nonnegative_whole(a: Seq<TokenView>)
    requires
        prefixes_nonnegative(a),
    ensures
        paren_excess(a) >= 0,
{
    assert(a.take(a.len() as int) =~= a);
}

proof fn lemma_nonnegative_push(a: Seq<TokenView>, x: TokenView)
    requires
        prefixes_nonnegative(a),
        paren_excess(a) + paren_delta(x) >= 0,
    ensures
        prefixes_nonnegative(a.push(x)),
        paren_excess(a.push(x)) == paren_excess(a) + paren_delta(x),
{
    let b = seq![x];
    assert(a.push(x) =~= a + b);
    assert(b.take(0) =~= Seq::<TokenView>::empty());
    assert(b.take(1) =~= b);
    assert(b.drop_last() =~= Seq::<TokenView>::empty());
    assert(a.push(x).drop_last() =~= a);
    lemma_nonnegative_whole(a);
    assert(paren_excess(Seq::<TokenView>::empty()) == 0);
    assert(b.last() == x);
    assert(paren_excess(b) == paren_excess(b.drop_last()) + paren_delta(x));
    assert(paren_excess(b) == paren_delta(x));
    assert forall|k: int| 0 <= k <= b.len() implies paren_excess(a) + paren_excess(
        #[trigger] b.take(k),
    ) >= 0 by {
        if k == 0 {
            assert(b.take(k) =~= Seq::<TokenView>::empty());
        } else {
            assert(b.take(k) =~= b);
        }
    }
    lemma_nonnegative_append(a, b);
}

proof fn lemma_closers_excess(n: nat)
    ensures
        paren_excess(closers(n)) == -n,
        forall|k: int| 0 <= k <= n ==> #[trigger] closers(n).take(k) == closers(k as nat),
    decreases n,
{
    assert forall|k: int| 0 <= k <= n implies #[trigger] closers(n).take(k) == closers(k as nat) by {
        assert(closers(n).take(k) =~= closers(k as nat));
    }
    if n > 0 {
        lemma_closers_excess((n - 1) as nat);
        assert(closers(n).drop_last() =~= closers((n - 1) as nat));
    }
}

proof fn lemma_closers_append(a: Seq<TokenView>, n: nat)
    requires
        prefixes_nonnegative(a),
        paren_excess(a) >= n,
    ensures
        prefixes_nonnegative(a + closers(n)),
        paren_excess(a + closers(n)) == paren_excess(a) - n,
{
    lemma_closers_excess(n);
    assert forall|k: int| 0 <= k <= closers(n).len() implies paren_excess(a) + paren_excess(
        #[trigger] closers(n).take(k),
    ) >= 0 by {
        lemma_closers_excess(k as nat);
    }
    lemma_nonnegative_append(a, closers(n));
    lemma_excess_append(a, closers(n));
}

proof fn lemma_no_parens_excess(s: Seq<TokenView>)
    requires
        forall|j: int| 0 <= j < s.len() ==> !(#[trigger] s[j] is OpenParen) && !(s[j] is CloseParen),
    ensures
        paren_excess(s) == 0,
    decreases s.len(),
{
    if s.len() > 0 {
        assert forall|j: int| 0 <= j < s.drop_last().len() implies !(
        #[trigger] s.drop_last()[j] is OpenParen) && !(s.drop_last()[j] is CloseParen) by {
            assert(s.drop_last()[j] == s[j]);
        }
        lemma_no_parens_excess(s.drop_last());
    }
}

proof fn lemma_split_identifier_excess(a: Seq<TokenView>, id: Seq<char>)
    requires
        prefixes_nonnegative(a),
    ensures
        prefixes_nonnegative(a + split_identifier(id)),
        paren_excess(a + split_identifier(id)) == paren_excess(a),
{
    let p = split_identifier(id);
    lemma_nonnegative_whole(a);
    assert forall|k: int| 0 <= k <= p.len() implies paren_excess(a) + paren_excess(
        #[trigger] p.take(k),
    ) >= 0 by {
        assert forall|j: int| 0 <= j < p.take(k).len() implies !(
        #[trigger] p.take(k)[j] is OpenParen) && !(p.take(k)[j] is CloseParen) by {
            assert(p.take(k)[j] == p[j]);
            if j % 2 == 0 {
                assert(p[j] == TokenView::Identifier(seq![id[j / 2]]));
            }
        }
        lemma_no_parens_excess(p.take(k));
    }
    lemma_nonnegative_append(a, p);
    assert forall|j: int| 0 <= j < p.len() implies !(#[trigger] p[j] is OpenParen) && !(
    p[j] is CloseParen) by {
        if j % 2 == 0 {
            assert(p[j] == TokenView::Identifier(seq![id[j / 2]]));
        }
    }
    lemma_no_parens_excess(p);
    lemma_excess_append(a, p);
}

proof fn lemma_closing_count_rest(open: Seq<int>, depth: int)
    ensures
        closing_count(open, depth) <= open.len(),
        ({
            let r = open.subrange(0, open.len() - closing_count(open, depth));
            r.len() == 0 || r.last() != depth
        }),
    decreases open.len(),
{
    if open.len() > 0 && open.last() == depth {
        lemma_closing_count_rest(open.drop_last(), depth);
        let k = closing_count(open.drop_last(), depth);
        assert(open.subrange(0, open.len() - closing_count(open, depth)) =~= open.drop_last().subrange(
            0,
            open.drop_last().len() - k,
        ));
    } else {
        assert(open.subrange(0, open.len() as int) =~= open);
    }
}

/// What the second pass keeps true of its state after `n` tokens of an
/// input whose prefixes close no more parentheses than they open.
pub open spec fn pass_invariant(ts: Seq<TokenView>, n: nat) -> bool {
    let (out, open, depth) = implied_prefix(ts, n);
    &&& depth == paren_excess(ts.take(n as int))
    &&& n < ts.len() ==> paren_excess(out) == depth + open.len()
    &&& n == ts.len() ==> paren_excess(out) == depth
    &&& prefixes_nonnegative(out)
    &&& forall|a: int, b: int| 0 <= a <= b < open.len() ==> #[trigger] open[a] <= #[trigger] open[b]
    &&& forall|a: int| 0 <= a < open.len() ==> #[trigger] open[a] <= depth
}

proof fn lemma_pass_invariant(ts: Seq<TokenView>, n: nat)
    requires
        n <= ts.len(),
        prefixes_nonnegative(ts),
    ensures
        pass_invariant(ts, n),
    decreases n,
{
    if n == 0 {
        assert(ts.take(0) =~= Seq::<TokenView>::empty());
        assert(Seq::<TokenView>::empty().take(0) =~= Seq::<TokenView>::empty());
    } else {
        let i = n - 1;
        lemma_pass_invariant(ts, i as nat);
        let (out, open, depth) = implied_prefix(ts, i as nat);
        let t = ts[i];
        assert(ts.take(n as int).drop_last() =~= ts.take(i));
        assert(ts.take(n as int).last() == t);
        assert(paren_excess(ts.take(n as int)) == depth + paren_delta(t));
        assert(depth >= 0) by {
            assert(paren_excess(ts.take(i)) >= 0);
        }
        assert(depth + paren_delta(t) >= 0);
        let k: nat = if ends_arguments(ts, i) {
            closing_count(open, depth)
        } else {
            0
        };
        lemma_closing_count_rest(open, depth);
        let out1 = out + closers(k);
        let open1 = open.subrange(0, open.len() - k);
        lemma_closers_append(out, k);
        // The arguments left open were opened below the current depth,
        // unless none was closed.
        assert forall|a: int| 0 <= a < open1.len() implies #[trigger] open1[a] <= depth && (k > 0
            || ends_arguments(ts, i) ==> open1[a] < depth) by {
            assert(open1[a] == open[a]);
            if ends_arguments(ts, i) {
                assert(open1[a] <= open1.last());
            }
        }
        let out2 = match t {
            TokenView::Identifier(id) => if splittable(id) {
                out1 + split_identifier(id)
            } else {
                out1.push(t)
            },
            TokenView::OpenParen => if k > 0 {
                out1.push(TokenView::Operator('*')).push(t)
            } else {
                out1.push(t)
            },
            _ => out1.push(t),
        };
        match t {
            TokenView::Identifier(id) => {
                if splittable(id) {
                    lemma_split_identifier_excess(out1, id);
                } else {
                    lemma_nonnegative_push(out1, t);
                }
            },
            TokenView::OpenParen => {
                if k > 0 {
                    lemma_nonnegative_push(out1, TokenView::Operator('*'));
                    lemma_nonnegative_push(out1.push(TokenView::Operator('*')), t);
                } else {
                    lemma_nonnegative_push(out1, t);
                }
            },
            _ => {
                lemma_nonnegative_push(out1, t);
            },
        }
        let depth1 = depth + paren_delta(t);
        assert(paren_excess(out2) == depth1 + open1.len());
        if i + 1 == ts.len() {
            assert(ts.take(n as int) =~= ts);
            lemma_closers_append(out2, open1.len());
        } else {
            let next = ts[i + 1];
            let argument = t is Builtin && !(next is OpenParen);
            let out3 = if argument {
                out2.push(TokenView::OpenParen)
            } else {
                out2
            };
            if argument {
                lemma_nonnegative_push(out2, TokenView::OpenParen);
            }
            if juxtaposed(t, next) {
                lemma_nonnegative_push(out3, TokenView::Operator('*'));
            }
            let open2 = if argument {
                open1.push(depth1)
            } else {
                open1
            };
            assert forall|a: int, b: int| 0 <= a <= b < open2.len() implies #[trigger] open2[a]
                <= #[trigger] open2[b] by {
                if b < open1.len() {
                    assert(open1[a] == open[a] && open1[b] == open[b]);
                }
            }
        }
    }
}

/// Implied parentheses are matched: when every parenthesis of the input
/// is matched, every parenthesis of the output of the second pass is.
pub proof fn lemma_implied_tokens_balanced(ts: Seq<TokenView>)
    requires
        balanced(ts),
    ensures
        balanced(implied_tokens(ts)),
{
    lemma_pass_invariant(ts, ts.len());
    assert(ts.take(ts.len() as int) =~= ts);
}

/// What a character adds to the count of open parentheses.
pub open spec fn char_paren_delta(c: char) -> int {
    if c == '(' {
        1
    } else if c == ')' {
        -1
    } else {
        0
    }
}

/// Opening parentheses of `cs` less its closing parentheses.
pub open spec fn char_paren_excess(cs: Seq<char>) -> int
    decreases cs.len(),
{
    if cs.len() == 0 {
        0
    } else {
        char_paren_excess(cs.drop_last()) + char_paren_delta(cs.last())
    }
}

/// Every parenthesis of the text `cs` is matched.
pub open spec fn chars_balanced(cs: Seq<char>) -> bool {
    &&& char_paren_excess(cs) == 0
    &&& forall|k: int| 0 <= k <= cs.len() ==> char_paren_excess(#[trigger] cs.take(k)) >= 0
}

/// No parenthesis or operator of `cs` is marked numeric.
pub open spec fn numeric_only_off_symbols(cs: Seq<char>, numeric: Seq<bool>) -> bool {
    forall|j: int|
        0 <= j < cs.len() && (cs[j] == '(' || cs[j] == ')' || is_operator_char(cs[j]))
            ==> !#[trigger] numeric[j]
}

/// What the scan keeps true after `n` characters: the parentheses it has
/// written are those of the text.
pub open spec fn scan_invariant(cs: Seq<char>, numeric: Seq<bool>, whitespace: Seq<bool>, n: nat) -> bool {
    let out = scan_prefix(cs, numeric, whitespace, n).2;
    &&& paren_excess(out) == char_paren_excess(cs.take(n as int))
    &&& prefixes_nonnegative(out)
}

proof fn lemma_scan_invariant(cs: Seq<char>, numeric: Seq<bool>, whitespace: Seq<bool>, n: nat)
    requires
        n <= cs.len(),
        forall|k: int| 0 <= k <= cs.len() ==> char_paren_excess(#[trigger] cs.take(k)) >= 0,
    ensures
        scan_invariant(cs, numeric, whitespace, n),
    decreases n,
{
    if n == 0 {
        assert(cs.take(0) =~= Seq::<char>::empty());
        assert(Seq::<TokenView>::empty().take(0) =~= Seq::<TokenView>::empty());
    } else {
        let i = n - 1;
        lemma_scan_invariant(cs, numeric, whitespace, i as nat);
        let (num_start, id_start, out) = scan_prefix(cs, numeric, whitespace, i as nat);
        let c = cs[i];
        assert(cs.take(n as int).drop_last() =~= cs.take(i));
        assert(cs.take(n as int).last() == c);
        let e = char_paren_excess(cs.take(i));
        assert(char_paren_excess(cs.take(n as int)) == e + char_paren_delta(c));
        assert(e + char_paren_delta(c) >= 0);
        lemma_nonnegative_whole(out);
        let last = i + 1 == cs.len();
        if c == '(' {
            lemma_nonnegative_push(out, TokenView::OpenParen);
        } else if c == ')' {
            lemma_nonnegative_push(out, TokenView::CloseParen);
        } else if is_operator_char(c) {
            lemma_nonnegative_push(out, TokenView::Operator(c));
        } else if number_at(cs, numeric, i) {
            let start = if i == 0 || !number_at(cs, numeric, i - 1) {
                i
            } else {
                num_start
            };
            if last || !number_at(cs, numeric, i + 1) {
                lemma_nonnegative_push(
                    out,
                    TokenView::Number(NumberView::Literal(spec_slice_string(cs, start, i))),
                );
            }
        } else if !whitespace[i] {
            let start = if i == 0 || !name_at(cs, numeric, whitespace, i - 1) {
                i
            } else {
                id_start
            };
            let slice = spec_slice_string(cs, start, i);
            if is_builtin_function(slice) {
                lemma_nonnegative_push(out, TokenView::Builtin(slice));
            } else if builtin_constant(slice) is Some {
                lemma_nonnegative_push(out, TokenView::Number(builtin_constant(slice).unwrap()));
            } else if last || !name_at(cs, numeric, whitespace, i + 1) {
                lemma_nonnegative_push(out, TokenView::Identifier(slice));
            }
        }
    }
}

/// The scan keeps the parentheses of the text matched: it writes each
/// parenthesis of the text and no other.
pub proof fn lemma_scanned_tokens_balanced(cs: Seq<char>, numeric: Seq<bool>, whitespace: Seq<bool>)
    requires
        chars_balanced(cs),
    ensures
        balanced(scanned_tokens(cs, numeric, whitespace)),
{
    lemma_scan_invariant(cs, numeric, whitespace, cs.len());
    assert(cs.take(cs.len() as int) =~= cs);
}

proof fn lemma_grouped_prefix_tokens(ts: Seq<TokenView>, n: nat)
    requires
        n <= ts.len(),
    ensures
        forall|j: int|
            0 <= j < grouped_prefix(ts, n).len() ==> (#[trigger] grouped_prefix(ts, n)[j] is OpenParen
                || grouped_prefix(ts, n)[j] is CloseParen || ts.contains(grouped_prefix(ts, n)[j])),
    decreases n,
{
    if n > 0 {
        let i = n - 1;
        lemma_grouped_prefix_tokens(ts, i as nat);
        let prev = grouped_prefix(ts, i as nat);
        let piece = fraction_piece(ts, i);
        let g = grouped_prefix(ts, n);
        assert(ts.contains(ts[i]));
        assert forall|j: int| 0 <= j < g.len() implies (#[trigger] g[j] is OpenParen || g[j] is CloseParen
            || ts.contains(g[j])) by {
            if j < prev.len() {
                assert(g[j] == prev[j]);
            } else {
                assert(g[j] == piece[j - prev.len()]);
            }
        }
    }
}

/// The grouping of fractions writes the tokens it reads and parentheses.
pub proof fn lemma_grouped_fractions_tokens(ts: Seq<TokenView>)
    ensures
        forall|j: int|
            0 <= j < grouped_fractions(ts).len() ==> (#[trigger] grouped_fractions(ts)[j] is OpenParen
                || grouped_fractions(ts)[j] is CloseParen || ts.contains(grouped_fractions(ts)[j])),
        operators_known(ts) ==> operators_known(grouped_fractions(ts)),
{
    lemma_grouped_prefix_tokens(ts, ts.len());
    let g = grouped_fractions(ts);
    if operators_known(ts) {
        assert forall|j: int| 0 <= j < g.len() implies (#[trigger] g[j] matches TokenView::Operator(c)
            ==> is_operator_char(c)) by {
            if g[j] is Operator {
                let k = choose|k: int| 0 <= k < ts.len() && ts[k] == g[j];
                assert(ts[k] matches TokenView::Operator(c) ==> is_operator_char(c));
            }
        }
    }
}

/// Whether the grouping has an opening parenthesis of its own still open
/// after `n` tokens: the numerator or the `/` of a fraction was the last
/// token read.
pub open spec fn fraction_open(ts: Seq<TokenView>, n: int) -> bool {
    opens_fraction(ts, n - 1) || opens_fraction(ts, n - 2)
}

proof fn lemma_grouped_prefix_balance(ts: Seq<TokenView>, n: nat)
    requires
        n <= ts.len(),
        prefixes_nonnegative(ts),
    ensures
        paren_excess(grouped_prefix(ts, n)) == paren_excess(ts.take(n as int)) + (if fraction_open(
            ts,
            n as int,
        ) {
            1int
        } else {
            0
        }),
        prefixes_nonnegative(grouped_prefix(ts, n)),
    decreases n,
{
    if n == 0 {
        assert(ts.take(0) =~= Seq::<TokenView>::empty());
        assert(Seq::<TokenView>::empty().take(0) =~= Seq::<TokenView>::empty());
    } else {
        let i = n - 1;
        lemma_grouped_prefix_balance(ts, i as nat);
        let prev = grouped_prefix(ts, i as nat);
        let t = ts[i];
        assert(ts.take(n as int).drop_last() =~= ts.take(i));
        assert(ts.take(n as int).last() == t);
        assert(paren_excess(ts.take(n as int)) == paren_excess(ts.take(i)) + paren_delta(t));
        assert(paren_excess(ts.take(n as int)) >= 0);
        assert(paren_excess(ts.take(i)) >= 0);
        if opens_fraction(ts, i) {
            lemma_nonnegative_push(prev, TokenView::OpenParen);
            lemma_nonnegative_push(prev.push(TokenView::OpenParen), t);
            assert(grouped_prefix(ts, n) =~= prev.push(TokenView::OpenParen).push(t));
        } else if opens_fraction(ts, i - 2) {
            lemma_nonnegative_push(prev, t);
            lemma_nonnegative_push(prev.push(t), TokenView::CloseParen);
            assert(grouped_prefix(ts, n) =~= prev.push(t).push(TokenView::CloseParen));
        } else {
            lemma_nonnegative_push(prev, t);
            assert(grouped_prefix(ts, n) =~= prev.push(t));
        }
    }
}

/// Grouping fractions keeps the parentheses matched: it adds a matched
/// pair around each fraction.
pub proof fn lemma_grouped_fractions_balanced(ts: Seq<TokenView>)
    requires
        balanced(ts),
    ensures
        balanced(grouped_fractions(ts)),
{
    lemma_grouped_prefix_balance(ts, ts.len());
    assert(ts.take(ts.len() as int) =~= ts);
}

proof fn lemma_fraction_after_parenthesis_prefix(
    n: NumberView,
    d: NumberView,
    post: Seq<TokenView>,
    m: nat,
)
    requires
        m <= post.len(),
    ensures
        grouped_prefix(
            seq![
                TokenView::OpenParen,
                TokenView::Number(n),
                TokenView::Operator('/'),
                TokenView::Number(d),
            ] + post,
            4 + m,
        ) == seq![
            TokenView::OpenParen,
            TokenView::OpenParen,
            TokenView::Number(n),
            TokenView::Operator('/'),
            TokenView::Number(d),
            TokenView::CloseParen,
        ] + grouped_prefix(post, m),
    decreases m,
{
    let head = seq![
        TokenView::OpenParen,
        TokenView::Number(n),
        TokenView::Operator('/'),
        TokenView::Number(d),
    ];
    let ts = head + post;
    let g = seq![
        TokenView::OpenParen,
        TokenView::OpenParen,
        TokenView::Number(n),
        TokenView::Operator('/'),
        TokenView::Number(d),
        TokenView::CloseParen,
    ];
    assert(ts[0] == TokenView::OpenParen && ts[1] == TokenView::Number(n) && ts[2]
        == TokenView::Operator('/') && ts[3] == TokenView::Number(d));
    if m == 0 {
        assert(!opens_fraction(ts, 0) && !opens_fraction(ts, -2));
        assert(opens_fraction(ts, 1));
        assert(!opens_fraction(ts, 2) && !opens_fraction(ts, 0));
        assert(!opens_fraction(ts, 3));
        assert(grouped_prefix(ts, 0) == Seq::<TokenView>::empty());
        assert(fraction_piece(ts, 0) == seq![TokenView::OpenParen]);
        assert(grouped_prefix(ts, 1) =~= seq![TokenView::OpenParen]);
        assert(fraction_piece(ts, 1) == seq![TokenView::OpenParen, TokenView::Number(n)]);
        assert(fraction_piece(ts, 2) == seq![TokenView::Operator('/')]);
        assert(fraction_piece(ts, 3) == seq![TokenView::Number(d), TokenView::CloseParen]);
        assert(grouped_prefix(ts, 2) =~= seq![
            TokenView::OpenParen,
            TokenView::OpenParen,
            TokenView::Number(n),
        ]);
        assert(grouped_prefix(ts, 3) =~= seq![
            TokenView::OpenParen,
            TokenView::OpenParen,
            TokenView::Number(n),
            TokenView::Operator('/'),
        ]);
        assert(grouped_prefix(ts, 4) =~= g);
        assert(g + grouped_prefix(post, 0) =~= g);
    } else {
        let i = m - 1;
        lemma_fraction_after_parenthesis_prefix(n, d, post, i as nat);
        assert(ts[4 + i] == post[i]);
        assert forall|k: int| 0 <= k < post.len() implies ts[4 + k] == #[trigger] post[k] by {}
        assert(opens_fraction(ts, 4 + i) == opens_fraction(post, i));
        assert(opens_fraction(ts, 2 + i) == opens_fraction(post, i - 2));
        assert(fraction_piece(ts, 4 + i) == fraction_piece(post, i));
        assert(g + grouped_prefix(post, i as nat) + fraction_piece(post, i) =~= g + (grouped_prefix(
            post,
            i as nat,
        ) + fraction_piece(post, i)));
    }
}

/// A fraction of two numbers of any kind (literals, `π`, `e`) directly
/// after `(` is put in parentheses of its own, and what follows the
/// fraction is grouped as it would be on its own.
pub proof fn lemma_fraction_after_parenthesis(n: NumberView, d: NumberView, post: Seq<TokenView>)
    ensures
        grouped_fractions(
            seq![
                TokenView::OpenParen,
                TokenView::Number(n),
                TokenView::Operator('/'),
                TokenView::Number(d),
            ] + post,
        ) == seq![
            TokenView::OpenParen,
            TokenView::OpenParen,
            TokenView::Number(n),
            TokenView::Operator('/'),
            TokenView::Number(d),
            TokenView::CloseParen,
        ] + grouped_fractions(post),
{
    lemma_fraction_after_parenthesis_prefix(n, d, post, post.len());
}

/// The builtin functions are exactly `sin`, `cos`, `tan`, `arcsin`,
/// `arccos`, `arctan`, `csc`, `sec`, `cot`, `ln` and `log`, and the builtin
/// constants are `π` and `e`.
pub proof fn lemma_builtin_names()
    ensures
        is_builtin_function("sin"@),
        is_builtin_function("cos"@),
        is_builtin_function("tan"@),
        is_builtin_function("arcsin"@),
        is_builtin_function("arccos"@),
        is_builtin_function("arctan"@),
        is_builtin_function("csc"@),
        is_builtin_function("sec"@),
        is_builtin_function("cot"@),
        is_builtin_function("ln"@),
        is_builtin_function("log"@),
        forall|s: Seq<char>|
            #[trigger] is_builtin_function(s) ==> s == "sin"@ || s == "cos"@ || s == "tan"@ || s
                == "arcsin"@ || s == "arccos"@ || s == "arctan"@ || s == "csc"@ || s == "sec"@ || s
                == "cot"@ || s == "ln"@ || s == "log"@,
        builtin_constant("π"@) == Some(NumberView::Pi),
        builtin_constant("e"@) == Some(NumberView::E),
        forall|s: Seq<char>|
            #[trigger] builtin_constant(s) is Some ==> s == "π"@ || s == "e"@,
{
    reveal_strlit("e");
    reveal_strlit("π");
    assert("e"@ != "π"@) by {
        assert("e"@[0] != "π"@[0]);
    }
}

proof fn lemma_closing_count_all(open: Seq<int>, depth: int)
    requires
        forall|j: int| 0 <= j < open.len() ==> #[trigger] open[j] == depth,
    ensures
        closing_count(open, depth) == open.len(),
    decreases open.len(),
{
    if open.len() > 0 {
        assert(open.last() == open[open.len() - 1]);
        lemma_closing_count_all(open.drop_last(), depth);
    }
}

proof fn lemma_implied_step_shift(
    pre: Seq<TokenView>,
    post: Seq<TokenView>,
    j: int,
    p: Seq<TokenView>,
    st: (Seq<TokenView>, Seq<int>, int),
)
    requires
        pre.len() > 0,
        !(pre.last() is Builtin),
        0 <= j < post.len(),
    ensures
        implied_step(pre + post, pre.len() + j, (p + st.0, st.1, st.2)) == (
            p + implied_step(post, j, st).0,
            implied_step(post, j, st).1,
            implied_step(post, j, st).2,
        ),
{
    let ts = pre + post;
    let i = pre.len() + j;
    assert(ts[i] == post[j]);
    if j == 0 {
        assert(ts[i - 1] == pre.last());
    } else {
        assert(ts[i - 1] == post[j - 1]);
    }
    if j + 1 < post.len() {
        assert(ts[i + 1] == post[j + 1]);
    }
    assert(ends_arguments(ts, i) == ends_arguments(post, j));
    let (out, open, depth) = st;
    let k: nat = if ends_arguments(post, j) {
        closing_count(open, depth)
    } else {
        0
    };
    let t = post[j];
    assert((p + out) + closers(k) =~= p + (out + closers(k)));
    let out1 = out + closers(k);
    assert((p + out1).push(TokenView::Operator('*')).push(t) =~= p + out1.push(
        TokenView::Operator('*'),
    ).push(t));
    assert((p + out1).push(t) =~= p + out1.push(t));
    if let TokenView::Identifier(id) = t {
        assert((p + out1) + split_identifier(id) =~= p + (out1 + split_identifier(id)));
    }
    let out2 = implied_step(post, j, st).0;
    let r = implied_step(ts, i, (p + out, open, depth));
    if j + 1 == post.len() {
        let open1 = open.subrange(0, open.len() - k);
        let o2 = match t {
            TokenView::Identifier(id) => if splittable(id) {
                out1 + split_identifier(id)
            } else {
                out1.push(t)
            },
            TokenView::OpenParen => if k > 0 {
                out1.push(TokenView::Operator('*')).push(t)
            } else {
                out1.push(t)
            },
            _ => out1.push(t),
        };
        assert((p + o2) + closers(open1.len()) =~= p + (o2 + closers(open1.len())));
    } else {
        let open1 = open.subrange(0, open.len() - k);
        let o2 = match t {
            TokenView::Identifier(id) => if splittable(id) {
                out1 + split_identifier(id)
            } else {
                out1.push(t)
            },
            TokenView::OpenParen => if k > 0 {
                out1.push(TokenView::Operator('*')).push(t)
            } else {
                out1.push(t)
            },
            _ => out1.push(t),
        };
        assert((p + o2).push(TokenView::OpenParen) =~= p + o2.push(TokenView::OpenParen));
        assert((p + o2).push(TokenView::OpenParen).push(TokenView::Operator('*')) =~= p + o2.push(
            TokenView::OpenParen,
        ).push(TokenView::Operator('*')));
        assert((p + o2).push(TokenView::Operator('*')) =~= p + o2.push(TokenView::Operator('*')));
    }
}

proof fn lemma_implied_shift(pre: Seq<TokenView>, post: Seq<TokenView>, p: Seq<TokenView>, m: nat)
    requires
        pre.len() > 0,
        !(pre.last() is Builtin),
        m <= post.len(),
        implied_prefix(pre + post, pre.len()) == (p, Seq::<int>::empty(), 0int),
    ensures
        implied_prefix(pre + post, pre.len() + m) == (
            p + implied_prefix(post, m).0,
            implied_prefix(post, m).1,
            implied_prefix(post, m).2,
        ),
    decreases m,
{
    if m == 0 {
        assert(p + Seq::<TokenView>::empty() =~= p);
    } else {
        lemma_implied_shift(pre, post, p, (m - 1) as nat);
        lemma_implied_step_shift(pre, post, m - 1, p, implied_prefix(post, (m - 1) as nat));
    }
}

/// A name followed by `(` is a call: the second pass writes the name (split
/// into letters if it has several) directly before the parenthesis, with no
/// product between them, and treats what follows as it would on its own.
pub proof fn lemma_name_before_parenthesis(id: Seq<char>, post: Seq<TokenView>)
    requires
        post.len() > 0,
        post[0] is OpenParen,
    ensures
        implied_tokens(seq![TokenView::Identifier(id)] + post) == implied_tokens(
            seq![TokenView::Identifier(id)],
        ) + implied_tokens(post),
{
    let pre = seq![TokenView::Identifier(id)];
    let ts = pre + post;
    assert(ts[0] == TokenView::Identifier(id));
    assert(ts[1] == post[0]);
    let e = Seq::<int>::empty();
    assert(e.subrange(0, 0) =~= e);
    assert(closers(0) =~= Seq::<TokenView>::empty());
    let out2 = if splittable(id) {
        Seq::<TokenView>::empty() + closers(0) + split_identifier(id)
    } else {
        (Seq::<TokenView>::empty() + closers(0)).push(TokenView::Identifier(id))
    };
    let st0 = (Seq::<TokenView>::empty(), e, 0int);
    assert(implied_prefix(ts, 0) == st0);
    assert(implied_prefix(pre, 0) == st0);
    assert(!ends_arguments(ts, 0) && !ends_arguments(pre, 0));
    assert(!juxtaposed(ts[0], ts[1]));
    assert(ts.len() > 1);
    assert(implied_step(ts, 0, st0) == (out2, e, 0int));
    assert(implied_step(pre, 0, st0).0 == out2 + closers(0));
    assert(implied_prefix(ts, 1) == (out2, e, 0int));
    assert(implied_prefix(pre, 1).0 == out2 + closers(0));
    assert(out2 + closers(0) =~= out2);
    assert(pre.last() is Identifier);
    lemma_implied_shift(pre, post, out2, post.len());
}

proof fn lemma_paren_free_prefix(ts: Seq<TokenView>, n: nat)
    requires
        n <= ts.len(),
        forall|j: int| 0 <= j < ts.len() ==> !(#[trigger] ts[j] is OpenParen) && !(ts[j] is CloseParen),
    ensures
        implied_prefix(ts, n).2 == 0,
        forall|j: int|
            0 <= j < implied_prefix(ts, n).1.len() ==> #[trigger] implied_prefix(ts, n).1[j] == 0,
    decreases n,
{
    if n > 0 {
        lemma_paren_free_prefix(ts, (n - 1) as nat);
        assert(!(ts[n - 1] is OpenParen) && !(ts[n - 1] is CloseParen));
        let (out, open, depth) = implied_prefix(ts, (n - 1) as nat);
        let k: nat = if ends_arguments(ts, n - 1) {
            closing_count(open, depth)
        } else {
            0
        };
        lemma_closing_count_bound(open, depth);
        let open1 = open.subrange(0, open.len() - k);
        assert forall|j: int| 0 <= j < open1.len() implies #[trigger] open1[j] == 0 by {
            assert(open1[j] == open[j]);
        }
        if n < ts.len() {
            assert forall|j: int| 0 <= j < open1.push(0int).len() implies #[trigger] open1.push(
                0int,
            )[j] == 0 by {
                if j < open1.len() {
                    assert(open1.push(0int)[j] == open1[j]);
                }
            }
        }
    }
}

proof fn lemma_implied_prefix_agree(a: Seq<TokenView>, rest: Seq<TokenView>, n: nat)
    requires
        n < a.len(),
    ensures
        implied_prefix(a + rest, n) == implied_prefix(a, n),
    decreases n,
{
    if n > 0 {
        lemma_implied_prefix_agree(a, rest, (n - 1) as nat);
        let ts = a + rest;
        let i = n - 1;
        assert(ts[i] == a[i] && ts[i + 1] == a[i + 1]);
        if i > 0 {
            assert(ts[i - 1] == a[i - 1]);
        }
        assert(ends_arguments(ts, i) == ends_arguments(a, i));
    }
}

/// Every operator ends the implied arguments before it: when `a` has no
/// parentheses and ends with anything but a builtin, the second pass on
/// `a`, an operator and `b` is the pass on `a`, the operator, and the pass
/// on `b`. So an implied argument never reaches over an operator:
/// `sin x - 1` is `sin ( x ) - 1`.
pub proof fn lemma_operator_ends_arguments(a: Seq<TokenView>, o: char, b: Seq<TokenView>)
    requires
        a.len() > 0,
        !(a.last() is Builtin),
        forall|j: int| 0 <= j < a.len() ==> !(#[trigger] a[j] is OpenParen) && !(a[j] is CloseParen),
    ensures
        implied_tokens(a + seq![TokenView::Operator(o)] + b) == implied_tokens(a) + seq![
            TokenView::Operator(o),
        ] + implied_tokens(b),
{
    let pre = a + seq![TokenView::Operator(o)];
    let ts = pre + b;
    assert(a + seq![TokenView::Operator(o)] + b == ts);
    let l = a.len() as int;
    let i = l - 1;
    lemma_implied_prefix_agree(a, seq![TokenView::Operator(o)] + b, i as nat);
    assert(ts =~= a + (seq![TokenView::Operator(o)] + b));
    lemma_paren_free_prefix(a, i as nat);
    let st = implied_prefix(a, i as nat);
    let (out, open, depth) = st;
    assert(ts[i] == a[i] && ts[l] == TokenView::Operator(o));
    if i > 0 {
        assert(ts[i - 1] == a[i - 1]);
    }
    assert(ends_arguments(ts, i) == ends_arguments(a, i));
    let t = a[i];
    assert(t == a.last());
    let k: nat = if ends_arguments(a, i) {
        closing_count(open, depth)
    } else {
        0
    };
    lemma_closing_count_bound(open, depth);
    let open1 = open.subrange(0, open.len() - k);
    assert forall|j: int| 0 <= j < open1.len() implies #[trigger] open1[j] == 0 by {
        assert(open1[j] == open[j]);
    }
    let after_a = implied_step(ts, i, st);
    assert(after_a.1 == open1);
    assert(after_a.2 == 0);
    assert(implied_tokens(a) == after_a.0 + closers(open1.len()));
    lemma_closing_count_all(open1, 0);
    assert(ends_arguments(ts, l));
    let e = Seq::<int>::empty();
    assert(open1.subrange(0, 0) =~= e);
    assert(closers(0) =~= Seq::<TokenView>::empty());
    let p = implied_tokens(a).push(TokenView::Operator(o));
    assert(implied_prefix(ts, l as nat) == after_a);
    assert(implied_prefix(ts, (l + 1) as nat).0 =~= p);
    assert(implied_prefix(ts, (l + 1) as nat) == (p, e, 0int));
    assert(pre.last() == TokenView::Operator(o));
    lemma_implied_shift(pre, b, p, b.len());
    assert(p + implied_tokens(b) =~= implied_tokens(a) + seq![TokenView::Operator(o)]
        + implied_tokens(b));
}

/// Whether `t` is a number or an identifier.
pub open spec fn is_plain_operand(t: TokenView) -> bool {
    t is Number || t is Identifier
}

proof fn lemma_argument_steps(f: Seq<char>, a: Seq<TokenView>, m: nat)
    requires
        0 < m <= a.len(),
        forall|j: int| 0 <= j < a.len() ==> is_plain_operand(#[trigger] a[j]),
    ensures
        m < a.len() ==> implied_prefix(seq![TokenView::Builtin(f)] + a, 1 + m) == (
            seq![TokenView::Builtin(f), TokenView::OpenParen] + implied_prefix(a, m).0,
            seq![0int],
            0int,
        ),
        m < a.len() ==> implied_prefix(a, m).1 == Seq::<int>::empty() && implied_prefix(a, m).2
            == 0,
        m == a.len() ==> implied_prefix(seq![TokenView::Builtin(f)] + a, 1 + m).0 == seq![
            TokenView::Builtin(f),
            TokenView::OpenParen,
        ] + implied_prefix(a, m).0 + seq![TokenView::CloseParen],
    decreases m,
{
    let pre = seq![TokenView::Builtin(f)];
    let ts = pre + a;
    let head = seq![TokenView::Builtin(f), TokenView::OpenParen];
    let e = Seq::<int>::empty();
    let z = seq![0int];
    assert(closers(0) =~= Seq::<TokenView>::empty());
    assert(closers(1) =~= seq![TokenView::CloseParen]);
    assert(e.subrange(0, 0) =~= e);
    assert(z.subrange(0, 1) =~= z);
    assert(e.push(0int) =~= z);
    assert forall|j: int| 0 <= j < a.len() implies ts[1 + j] == #[trigger] a[j] by {}
    assert(ts[0] == TokenView::Builtin(f));
    let j = m - 1;
    let st_a: (Seq<TokenView>, Seq<int>, int) = if j == 0 {
        (Seq::<TokenView>::empty(), e, 0int)
    } else {
        implied_prefix(a, j as nat)
    };
    let st_t: (Seq<TokenView>, Seq<int>, int) = if j == 0 {
        (head, z, 0int)
    } else {
        implied_prefix(ts, (1 + j) as nat)
    };
    if j == 0 {
        assert(implied_prefix(ts, 0) == (Seq::<TokenView>::empty(), e, 0int));
        assert(!ends_arguments(ts, 0));
        assert(!juxtaposed(ts[0], ts[1]));
        assert(implied_prefix(ts, 1).0 =~= head);
        assert(implied_prefix(ts, 1) == st_t);
        assert(implied_prefix(a, 0) == st_a);
    } else {
        lemma_argument_steps(f, a, j as nat);
    }
    assert(st_t.0 == head + st_a.0);
    let t = a[j];
    assert(is_plain_operand(t));
    assert(!ends_arguments(ts, 1 + j) && !ends_arguments(a, j));
    let out = st_a.0;
    let out1 = out + closers(0);
    assert(out1 =~= out);
    assert((head + out) + closers(0) =~= head + out);
    if let TokenView::Identifier(id) = t {
        assert((head + out) + split_identifier(id) =~= head + (out + split_identifier(id)));
    }
    assert((head + out).push(t) =~= head + out.push(t));
    if m < a.len() {
        assert(ts[1 + j + 1] == a[j + 1]);
        assert((head + out).push(t).push(TokenView::Operator('*')) =~= head + out.push(t).push(
            TokenView::Operator('*'),
        ));
        if let TokenView::Identifier(id) = t {
            assert((head + out + split_identifier(id)).push(TokenView::Operator('*')) =~= head + (
            out + split_identifier(id)).push(TokenView::Operator('*')));
        }
    } else {
        assert((head + out).push(t) + seq![TokenView::CloseParen] =~= head + out.push(t) + seq![
            TokenView::CloseParen,
        ]);
        if let TokenView::Identifier(id) = t {
            assert((head + out) + split_identifier(id) + seq![TokenView::CloseParen] =~= head + (out
                + split_identifier(id)) + seq![TokenView::CloseParen]);
        }
    }
}

/// The implied argument of a builtin is put in parentheses: a builtin
/// followed by numbers and identifiers only is the builtin, `(`, what the
/// second pass makes of those operands on their own, and `)`. With
/// `lemma_operator_ends_arguments`, `sin x - 1` is `sin ( x ) - 1`.
pub proof fn lemma_implied_argument(f: Seq<char>, a: Seq<TokenView>)
    requires
        a.len() > 0,
        forall|j: int| 0 <= j < a.len() ==> is_plain_operand(#[trigger] a[j]),
    ensures
        implied_tokens(seq![TokenView::Builtin(f)] + a) == seq![
            TokenView::Builtin(f),
            TokenView::OpenParen,
        ] + implied_tokens(a) + seq![TokenView::CloseParen],
{
    lemma_argument_steps(f, a, a.len());
}

/// A name of several letters and no underscore stands for the product of
/// its letters: the second pass turns it into its letters, one by one and
/// in order, with `*` between each two; any other name stays whole.
pub proof fn lemma_name_split(id: Seq<char>)
    requires
        id.len() > 0,
    ensures
        ({
            let out = implied_tokens(seq![TokenView::Identifier(id)]);
            if id.len() > 1 && !id.contains('_') {
                &&& out.len() == 2 * id.len() - 1
                &&& forall|k: int|
                    0 <= k < id.len() ==> out[2 * k] == TokenView::Identifier(seq![#[trigger] id[k]])
                &&& forall|j: int|
                    0 <= j < out.len() && j % 2 == 1 ==> #[trigger] out[j] == TokenView::Operator('*')
            } else {
                out == seq![TokenView::Identifier(id)]
            }
        }),
{
    let ts = seq![TokenView::Identifier(id)];
    let e = Seq::<int>::empty();
    assert(e.subrange(0, 0) =~= e);
    assert(closers(0) =~= Seq::<TokenView>::empty());
    assert(implied_prefix(ts, 0) == (Seq::<TokenView>::empty(), e, 0int));
    assert(!ends_arguments(ts, 0));
    let out = implied_tokens(ts);
    if splittable(id) {
        let sp = split_identifier(id);
        assert(out =~= sp);
        assert forall|k: int| 0 <= k < id.len() implies out[2 * k] == TokenView::Identifier(
            seq![id[k]],
        ) by {
            assert((2 * k) % 2 == 0 && (2 * k) / 2 == k);
        }

    } else {
        assert(out =~= ts);
    }
}

/// The depths of a stack of implied arguments, as integers.
pub open spec fn as_ints(s: Seq<i128>) -> Seq<int> {
    s.map_values(|d: i128| d as int)
}

/// Closes the implied arguments on top of `open` that were opened at
/// `depth`, and says how many there were.
fn close_arguments(output: &mut Vec<Token>, open: &mut Vec<i128>, depth: i128) -> (closed: usize)
    ensures
        closed == closing_count(as_ints(old(open)@), depth as int),
        views(final(output)@) == views(old(output)@) + closers(closed as nat),
        as_ints(final(open)@) == as_ints(old(open)@).subrange(
            0,
            old(open)@.len() - closed,
        ),
{
    broadcast use lemma_views_push;

    let ghost out0 = views(output@);
    let ghost open0 = as_ints(open@);
    let total = open.len();
    let mut closed: usize = 0;
    while open.len() > 0 && open[open.len() - 1] == depth
        invariant
            open0.len() == old(open)@.len(),
            open0.len() == total,
            open@.len() + closed == open0.len(),
            as_ints(open@) == open0.subrange(0, open0.len() - closed),
            views(output@) == out0 + closers(closed as nat),
            closed + closing_count(as_ints(open@), depth as int) == closing_count(
                open0,
                depth as int,
            ),
        decreases open.len(),
    {
        let ghost before = open@;
        let ghost prev = views(output@);
        assert(as_ints(open@).last() == depth as int);
        open.pop();
        assert(open@ == before.drop_last());
        assert(as_ints(open@) =~= as_ints(before).drop_last());
        output.push(Token::CloseParen);
        closed = closed + 1;
        assert(views(output@) == prev.push(TokenView::CloseParen));
        assert(views(output@) =~= out0 + closers(closed as nat));
        assert(as_ints(open@) =~= open0.subrange(0, open0.len() - closed));
    }
    assert(closing_count(as_ints(open@), depth as int) == 0);
    closed
}

/// Closes all the implied arguments still open.
fn close_all(output: &mut Vec<Token>, open: &mut Vec<i128>)
    ensures
        views(final(output)@) == views(old(output)@) + closers(old(open)@.len()),
        final(open)@.len() == 0,
{
    broadcast use lemma_views_push;

    let ghost out2 = views(output@);
    let ghost total = open@.len();
    while open.len() > 0
        invariant
            total == old(open)@.len(),
            views(output@) == out2 + closers((total - open@.len()) as nat),
            open@.len() <= total,
        decreases open.len(),
    {
        let ghost prev = views(output@);
        open.pop();
        output.push(Token::CloseParen);
        assert(views(output@) == prev.push(TokenView::CloseParen));
        assert(views(output@) =~= out2 + closers((total - open@.len()) as nat));
    }
}

/// Appends the letters of `id`, with `*` between them.
fn push_split_identifier(output: &mut Vec<Token>, id: &String)
    requires
        splittable(id@),
    ensures
        views(final(output)@) == views(old(output)@) + split_identifier(id@),
{
    broadcast use lemma_views_push;

    let ghost out1 = views(output@);
    let ghost cs = id@;
    let m = id.as_str().unicode_len();
    let mut k: usize = 0;
    while k < m
        invariant
            m == cs.len(),
            cs == id@,
            m > 1,
            k <= m,
            views(output@) == out1 + split_identifier(cs).subrange(
                0,
                if k < m {
                    2 * k
                } else {
                    2 * m - 1
                },
            ),
        decreases m - k,
    {
        let ghost pieces = split_identifier(cs);
        let ghost j = 2 * k as int;
        let ghost prev = views(output@);
        assert(prev == out1 + pieces.subrange(0, j));
        let piece = slice_string(id.as_str(), k, k);
        assert(piece@ =~= seq![cs[k as int]]);
        assert(j % 2 == 0 && j / 2 == k);
        assert(pieces[j] == TokenView::Identifier(piece@));
        output.push(Token::Identifier(piece));
        if k != m - 1 {
            assert((j + 1) % 2 == 1);
            assert(pieces[j + 1] == TokenView::Operator('*'));
            output.push(Token::Operator('*'));
            assert(views(output@) == prev.push(pieces[j]).push(pieces[j + 1]));
            assert(pieces.subrange(0, j + 2) =~= pieces.subrange(0, j).push(pieces[j]).push(
                pieces[j + 1],
            ));
        } else {
            assert(views(output@) == prev.push(pieces[j]));
            assert(pieces.subrange(0, j + 1) =~= pieces.subrange(0, j).push(pieces[j]));
        }
        k = k + 1;
    }
    assert(split_identifier(cs).subrange(0, 2 * m - 1) =~= split_identifier(cs));
}

/// Inserts `*` between tokens that are implicitly multiplied together,
/// splits identifiers of several letters without `_` into a product of
/// letters, and puts parentheses around the argument of a builtin that has
/// none. Arguments are only grouped by implicit multiplication, so `cos1/2x`
/// is read as `(cos1)/2x`.
#[verifier::rlimit(60)]
fn insert_implied_tokens(tokens: &Vec<Token>) -> (output: Vec<Token>)
    ensures
        views(output@) == implied_tokens(views(tokens@)),
        no_juxtaposed_pair(views(output@)),
        builtin_arguments_opened(views(tokens@), views(output@)),
        balanced(views(tokens@)) ==> balanced(views(output@)),
{
    broadcast use lemma_views_push;

    let ghost ts = views(tokens@);
    let mut output: Vec<Token> = Vec::new();
    let mut open: Vec<i128> = Vec::new();
    let mut depth: i128 = 0;
    let n = tokens.len();
    let mut i: usize = 0;
    assert(as_ints(open@) =~= Seq::<int>::empty());
    while i < n
        invariant
            n == tokens@.len(),
            ts == views(tokens@),
            i <= n,
            -(i as int) <= depth <= i as int,
            implied_prefix(ts, i as nat) == (views(output@), as_ints(open@), depth as int),
        decreases n - i,
    {
        let token = &tokens[i];
        assert(ts[i as int] == token@);
        if i > 0 {
            assert(ts[i - 1] == tokens@[i - 1]@);
        }
        let ghost out0 = views(output@);
        let ghost open0 = as_ints(open@);
        let ends = matches!(token, Token::Operator(_) | Token::CloseParen) || (matches!(
            token,
            Token::OpenParen
        ) && !(i > 0 && matches!(tokens[i - 1], Token::Builtin(_))));
        assert(ends == ends_arguments(ts, i as int));
        let closed: usize = if ends {
            close_arguments(&mut output, &mut open, depth)
        } else {
            0
        };
        proof {
            if !ends {
                assert(out0 + closers(0) =~= out0);
                assert(open0.subrange(0, open0.len() as int) =~= open0);
            }
        }
        let ghost out1 = views(output@);
        let can_split = match token {
            Token::Identifier(id) => id.as_str().unicode_len() > 1 && !contains_char(id.as_str(), '_'),
            _ => false,
        };
        if can_split {
            if let Token::Identifier(id) = token {
                push_split_identifier(&mut output, id);
            }
        } else {
            if closed > 0 && matches!(token, Token::OpenParen) {
                output.push(Token::Operator('*'));
            }
            output.push(token.duplicate());
        }
        if matches!(token, Token::OpenParen) {
            depth = depth + 1;
        } else if matches!(token, Token::CloseParen) {
            depth = depth - 1;
        }
        if i + 1 < n {
            // The last token pushed has the kind of `token`.
            let next = &tokens[i + 1];
            assert(ts[i + 1] == next@);
            let implied_mul1 = matches!(token, Token::Number(_) | Token::Identifier(_) | Token::CloseParen)
                && matches!(next, Token::Number(_) | Token::Identifier(_) | Token::Builtin(_));
            let implied_mul2 = matches!(token, Token::Number(_) | Token::CloseParen)
                && matches!(next, Token::OpenParen);
            let implied_argument = matches!(token, Token::Builtin(_)) && !matches!(next, Token::OpenParen);
            if implied_argument {
                let ghost before = open@;
                open.push(depth);
                assert(as_ints(open@) =~= as_ints(before).push(depth as int));
                output.push(Token::OpenParen);
            }
            if implied_mul1 || implied_mul2 {
                output.push(Token::Operator('*'));
            }
        } else {
            close_all(&mut output, &mut open);
            assert(as_ints(open@) =~= Seq::<int>::empty());
        }
        i = i + 1;
    }
    proof {
        lemma_implied_tokens_no_juxtaposed(ts);
        lemma_implied_tokens_open_arguments(ts);
        if balanced(ts) {
            lemma_implied_tokens_balanced(ts);
        }
    }
    output
}

/// Scans `expr` into tokens, given for each of its characters whether it
/// is numeric (`numeric`) and whether it is whitespace (`whitespace`).
pub fn scan_tokens(expr: &str, numeric: &Vec<bool>, whitespace: &Vec<bool>) -> (res: Vec<Token>)
    requires
        numeric@.len() == expr@.len(),
        whitespace@.len() == expr@.len(),
    ensures
        views(res@) == scanned_tokens(expr@, numeric@, whitespace@),
{
    broadcast use lemma_views_push;

    let chars = chars_of(expr);
    let ghost cs = expr@;
    let n = chars.len();
    let mut num_start: usize = 0;
    let mut id_start: usize = 0;
    let mut tokens: Vec<Token> = Vec::new();
    let mut i: usize = 0;
    while i < n
        invariant
            chars@ == cs,
            cs == expr@,
            n == cs.len(),
            numeric@.len() == n,
            whitespace@.len() == n,
            i <= n,
            num_start <= i,
            id_start <= i,
            scan_prefix(cs, numeric@, whitespace@, i as nat) == (
                num_start as int,
                id_start as int,
                views(tokens@),
            ),
        decreases n - i,
    {
        let c = chars[i];
        if c == '(' {
            tokens.push(Token::OpenParen);
        } else if c == ')' {
            tokens.push(Token::CloseParen);
        } else if c == '+' || c == '-' || c == '*' || c == '/' || c == '^' || c == '=' {
            tokens.push(Token::Operator(c));
        } else if is_number(c, numeric[i]) {
            if i == 0 || !is_number(chars[i - 1], numeric[i - 1]) {
                num_start = i;
            }
            if i + 1 == n || !is_number(chars[i + 1], numeric[i + 1]) {
                tokens.push(Token::Number(Number::Literal(slice_string(expr, num_start, i))));
            }
        } else if !whitespace[i] {
            if i == 0 || !is_unknown(chars[i - 1], numeric[i - 1], whitespace[i - 1]) {
                id_start = i;
            }
            let slice = slice_string(expr, id_start, i);
            let (builtin_func, builtin_const) = is_builtin(slice.as_str());
            if let Some(func) = builtin_func {
                tokens.push(Token::Builtin(String::from_str(func)));
                id_start = i + 1;
            } else if let Some(num) = builtin_const {
                tokens.push(Token::Number(num));
                id_start = i + 1;
            } else if i + 1 == n || !is_unknown(chars[i + 1], numeric[i + 1], whitespace[i + 1]) {
                tokens.push(Token::Identifier(slice_string(expr, id_start, i)));
            }
        }
        i = i + 1;
    }
    tokens
}

/// Puts each fraction that opens a group, a number directly after `(`
/// followed by `/` and a number, in parentheses of its own.
fn group_fractions(tokens: &Vec<Token>) -> (res: Vec<Token>)
    ensures
        views(res@) == grouped_fractions(views(tokens@)),
{
    broadcast use lemma_views_push;

    let ghost ts = views(tokens@);
    let n = tokens.len();
    let mut out: Vec<Token> = Vec::new();
    let mut i: usize = 0;
    while i < n
        invariant
            n == tokens.len(),
            ts == views(tokens@),
            i <= n,
            views(out@) == grouped_prefix(ts, i as nat),
        decreases n - i,
    {
        let opens = i >= 1 && n - i > 2 && matches!(tokens[i - 1], Token::OpenParen) && matches!(
            tokens[i],
            Token::Number(_)
        ) && matches!(tokens[i + 1], Token::Operator('/')) && matches!(tokens[i + 2], Token::Number(_));
        let closes = i >= 3 && matches!(tokens[i - 3], Token::OpenParen) && matches!(
            tokens[i - 2],
            Token::Number(_)
        ) && matches!(tokens[i - 1], Token::Operator('/')) && matches!(tokens[i], Token::Number(_));
        proof {
            assert(opens == opens_fraction(ts, i as int));
            assert(closes == opens_fraction(ts, i - 2));
        }
        let t = tokens[i].duplicate();
        let ghost before = out@;
        if opens {
            out.push(Token::OpenParen);
            out.push(t);
        } else if closes {
            out.push(t);
            out.push(Token::CloseParen);
        } else {
            out.push(t);
        }
        proof {
            assert(views(out@) =~= views(before) + fraction_piece(ts, i as int));
        }
        i = i + 1;
    }
    out
}

/// Turns the text of an expression into tokens: the scan, the grouping of
/// fractions that open a group, and the pass that makes implied products
/// and implied arguments explicit. Among ASCII characters, exactly the
/// digits are numeric.
pub fn tokenize(expr: &str) -> (res: Vec<Token>)
    ensures
        views(res@) == implied_tokens(
            grouped_fractions(scanned_tokens(expr@, numeric_flags(expr@), whitespace_flags(expr@))),
        ),
        ascii_digits_numeric(expr@),
        no_juxtaposed_pair(views(res@)),
        builtin_arguments_opened(
            grouped_fractions(scanned_tokens(expr@, numeric_flags(expr@), whitespace_flags(expr@))),
            views(res@),
        ),
        chars_balanced(expr@) ==> balanced(views(res@)),
        operators_known(views(res@)),
        forall|j: int|
            0 <= j < res@.len() ==> (#[trigger] res@[j]@ matches TokenView::Identifier(s) ==> (s.len()
                == 1 || s.contains('_'))),
{
    let chars = chars_of(expr);
    let n = chars.len();
    let mut numeric: Vec<bool> = Vec::new();
    let mut whitespace: Vec<bool> = Vec::new();
    let mut i: usize = 0;
    while i < n
        invariant
            chars@ == expr@,
            n == chars@.len(),
            i <= n,
            numeric@ == numeric_flags(expr@).subrange(0, i as int),
            whitespace@ == whitespace_flags(expr@).subrange(0, i as int),
            forall|j: int|
                0 <= j < i ==> ((expr@[j] as u32) < 0x80 ==> (#[trigger] char_is_numeric(expr@[j]) <==> (
                '0' <= expr@[j] && expr@[j] <= '9'))),
        decreases n - i,
    {
        let c = chars[i];
        let space = is_whitespace(c);
        let symbol = c == '(' || c == ')' || c == '+' || c == '-' || c == '*' || c == '/' || c == '^'
            || c == '=';
        let digit = is_numeric(c);
        numeric.push(digit && !space && !symbol);
        whitespace.push(space);
        i = i + 1;
        assert(numeric@ =~= numeric_flags(expr@).subrange(0, i as int));
        assert(whitespace@ =~= whitespace_flags(expr@).subrange(0, i as int));
    }
    assert(numeric@ =~= numeric_flags(expr@));
    assert(whitespace@ =~= whitespace_flags(expr@));
    let scanned = scan_tokens(expr, &numeric, &whitespace);
    let tokens = group_fractions(&scanned);
    let res = insert_implied_tokens(&tokens);
    proof {
        let sc = views(scanned@);
        let raw = views(tokens@);
        if chars_balanced(expr@) {
            lemma_scanned_tokens_balanced(expr@, numeric@, whitespace@);
            lemma_grouped_fractions_balanced(sc);
        }
        lemma_scanned_operators_known(expr@, numeric@, whitespace@);
        lemma_grouped_fractions_tokens(sc);
        lemma_implied_tokens_operators(raw);
        lemma_implied_tokens_identifiers(raw);
        lemma_scanned_identifiers_nonempty(expr@, numeric@, whitespace@);
        assert forall|j: int| 0 <= j < res@.len() implies (#[trigger] res@[j]@ matches TokenView::Identifier(
            s,
        ) ==> (s.len() == 1 || s.contains('_'))) by {
            let x = views(res@)[j];
            assert(x == res@[j]@);
            assert(identifier_from(raw, x));
            if let TokenView::Identifier(s) = x {
                if s.len() != 1 {
                    let k = choose|k: int| 0 <= k < raw.len() && raw[k] == x;
                    assert(raw[k] is Identifier);
                    let m = choose|m: int| 0 <= m < sc.len() && sc[m] == raw[k];
                    assert(sc[m] matches TokenView::Identifier(s) ==> s.len() > 0);
                }
            }
        }
    }
    res
}

} // verus!
