//! The tokens of whole texts: `a o1 b o2 c`, for numbers written in
//! decimal digits, and `name(x)` for each builtin function.
use vstd::prelude::*;
use crate::lexer::{
    ascii_digits_numeric, builtin_constant, is_builtin_function, name_at, fraction_piece, grouped_fractions, grouped_prefix, implied_prefix,
    implied_tokens, is_operator_char, is_symbol, number_at, numeric_flags, opens_fraction,
    scan_prefix, scanned_tokens, whitespace_flags,
};
use crate::text::{char_is_numeric, spec_slice_string};
use crate::token::{NumberView, TokenView};

verus! {

proof fn lemma_run_prefix(cs: Seq<char>, numeric: Seq<bool>, whitespace: Seq<bool>, s: int, j: int)
    requires
        0 <= s < j,
        j < cs.len(),
        numeric.len() == cs.len(),
        whitespace.len() == cs.len(),
        forall|m: int| s <= m <= j ==> !is_symbol(#[trigger] cs[m]) && numeric[m],
        s == 0 || !number_at(cs, numeric, s - 1),
    ensures
        scan_prefix(cs, numeric, whitespace, j as nat) == (
            s,
            scan_prefix(cs, numeric, whitespace, s as nat).1,
            scan_prefix(cs, numeric, whitespace, s as nat).2,
        ),
    decreases j - s,
{
    if j > s + 1 {
        lemma_run_prefix(cs, numeric, whitespace, s, j - 1);
        assert(!is_symbol(cs[j - 2]) && numeric[j - 2]);
        assert(number_at(cs, numeric, j - 2));
    }
    assert(!is_symbol(cs[j - 1]) && numeric[j - 1]);
    assert(!is_symbol(cs[j]) && numeric[j]);
    assert(number_at(cs, numeric, j - 1) && number_at(cs, numeric, j));
}

/// The scan reads a maximal run of numeric characters as one number.
proof fn lemma_scan_number_run(cs: Seq<char>, numeric: Seq<bool>, whitespace: Seq<bool>, s: int, e: int)
    requires
        0 <= s <= e < cs.len(),
        numeric.len() == cs.len(),
        whitespace.len() == cs.len(),
        forall|m: int| s <= m <= e ==> !is_symbol(#[trigger] cs[m]) && numeric[m],
        s == 0 || !number_at(cs, numeric, s - 1),
        e + 1 == cs.len() || !number_at(cs, numeric, e + 1),
    ensures
        scan_prefix(cs, numeric, whitespace, (e + 1) as nat).2 == scan_prefix(
            cs,
            numeric,
            whitespace,
            s as nat,
        ).2.push(TokenView::Number(NumberView::Literal(cs.subrange(s, e + 1)))),
{
    if e > s {
        lemma_run_prefix(cs, numeric, whitespace, s, e);
        assert(!is_symbol(cs[e - 1]) && numeric[e - 1]);
    }
    assert(!is_symbol(cs[e]) && numeric[e]);
    assert(spec_slice_string(cs, s, e) =~= cs.subrange(s, e + 1));
}

/// The text `a o1 b o2 c`, with a space on each side of each operator.
pub open spec fn spaced_text(a: Seq<char>, o1: char, b: Seq<char>, o2: char, c: Seq<char>) -> Seq<
    char,
> {
    a + seq![' ', o1, ' '] + b + seq![' ', o2, ' '] + c
}

/// A nonempty run of decimal digits.
pub open spec fn is_digits(s: Seq<char>) -> bool {
    s.len() > 0 && forall|j: int| 0 <= j < s.len() ==> '0' <= #[trigger] s[j] && s[j] <= '9'
}

proof fn lemma_scan_spaced_text(a: Seq<char>, o1: char, b: Seq<char>, o2: char, c: Seq<char>)
    requires
        is_digits(a),
        is_digits(b),
        is_digits(c),
        is_operator_char(o1),
        is_operator_char(o2),
        ascii_digits_numeric(spaced_text(a, o1, b, o2, c)),
    ensures
        scanned_tokens(
            spaced_text(a, o1, b, o2, c),
            numeric_flags(spaced_text(a, o1, b, o2, c)),
            whitespace_flags(spaced_text(a, o1, b, o2, c)),
        ) == seq![
            TokenView::Number(NumberView::Literal(a)),
            TokenView::Operator(o1),
            TokenView::Number(NumberView::Literal(b)),
            TokenView::Operator(o2),
            TokenView::Number(NumberView::Literal(c)),
        ],
{
    let cs = spaced_text(a, o1, b, o2, c);
    let nf = numeric_flags(cs);
    let wf = whitespace_flags(cs);
    let la = a.len() as int;
    let lb = b.len() as int;
    let lc = c.len() as int;
    let sb = la + 3;
    let sc = la + lb + 6;
    assert(cs.len() == sc + lc);
    assert forall|j: int| 0 <= j < la implies cs[j] == a[j] by {}
    assert forall|j: int| 0 <= j < lb implies cs[sb + j] == b[j] by {}
    assert forall|j: int| 0 <= j < lc implies cs[sc + j] == c[j] by {}
    assert(cs[la] == ' ' && cs[la + 1] == o1 && cs[la + 2] == ' ');
    assert(cs[sb + lb] == ' ' && cs[sb + lb + 1] == o2 && cs[sb + lb + 2] == ' ');
    // Digits are numeric, spaces are not.
    assert forall|m: int| 0 <= m < cs.len() && '0' <= cs[m] && cs[m] <= '9' implies !is_symbol(
        #[trigger] cs[m],
    ) && nf[m] by {
        assert((cs[m] as u32) < 0x80);
        assert(char_is_numeric(cs[m]));
    }
    assert forall|m: int| 0 <= m < cs.len() && cs[m] == ' ' implies !#[trigger] nf[m] && wf[m] by {}
    assert forall|m: int| 0 <= m <= la - 1 implies !is_symbol(#[trigger] cs[m]) && nf[m] by {
        assert(cs[m] == a[m]);
    }
    assert forall|m: int| sb <= m <= sb + lb - 1 implies !is_symbol(#[trigger] cs[m]) && nf[m] by {
        assert(cs[m] == b[m - sb]);
    }
    assert forall|m: int| sc <= m <= sc + lc - 1 implies !is_symbol(#[trigger] cs[m]) && nf[m] by {
        assert(cs[m] == c[m - sc]);
    }
    assert(!number_at(cs, nf, la));
    assert(!number_at(cs, nf, la + 2));
    assert(!number_at(cs, nf, sb + lb));
    assert(!number_at(cs, nf, sb + lb + 2));
    lemma_scan_number_run(cs, nf, wf, 0, la - 1);
    assert(cs.subrange(0, la) =~= a);
    let na = TokenView::Number(NumberView::Literal(a));
    assert(scan_prefix(cs, nf, wf, 0).2 =~= Seq::<TokenView>::empty());
    assert(scan_prefix(cs, nf, wf, la as nat).2 == seq![na]);
    assert(scan_prefix(cs, nf, wf, (la + 1) as nat).2 == seq![na]);
    assert(scan_prefix(cs, nf, wf, (la + 2) as nat).2 == seq![na, TokenView::Operator(o1)]);
    assert(scan_prefix(cs, nf, wf, (la + 3) as nat).2 == seq![na, TokenView::Operator(o1)]);
    lemma_scan_number_run(cs, nf, wf, sb, sb + lb - 1);
    assert(cs.subrange(sb, sb + lb) =~= b);
    let nb = TokenView::Number(NumberView::Literal(b));
    let t3 = seq![na, TokenView::Operator(o1), nb];
    assert(scan_prefix(cs, nf, wf, (sb + lb) as nat).2 =~= t3);
    assert(scan_prefix(cs, nf, wf, (sb + lb + 1) as nat).2 == t3);
    assert(scan_prefix(cs, nf, wf, (sb + lb + 2) as nat).2 == t3.push(TokenView::Operator(o2)));
    assert(scan_prefix(cs, nf, wf, sc as nat).2 == t3.push(TokenView::Operator(o2)));
    lemma_scan_number_run(cs, nf, wf, sc, sc + lc - 1);
    assert(cs.subrange(sc, sc + lc) =~= c);
    assert(scan_prefix(cs, nf, wf, cs.len()).2 =~= t3.push(TokenView::Operator(o2)).push(
        TokenView::Number(NumberView::Literal(c)),
    ));
}

proof fn lemma_grouped_without_parens(ts: Seq<TokenView>, n: nat)
    requires
        n <= ts.len(),
        forall|j: int| 0 <= j < ts.len() ==> !(#[trigger] ts[j] is OpenParen),
    ensures
        grouped_prefix(ts, n) == ts.take(n as int),
    decreases n,
{
    if n == 0 {
        assert(ts.take(0) =~= Seq::<TokenView>::empty());
    } else {
        lemma_grouped_without_parens(ts, (n - 1) as nat);
        let i = n - 1;
        if i >= 1 {
            assert(!(ts[i - 1] is OpenParen));
        }
        if i >= 3 {
            assert(!(ts[i - 3] is OpenParen));
        }
        assert(!opens_fraction(ts, i));
        assert(!opens_fraction(ts, i - 2));
        assert(fraction_piece(ts, i) == seq![ts[i]]);
        assert(ts.take(n as int) =~= ts.take(i).push(ts[i]));
    }
}

pub(crate) proof fn lemma_tokens_of_spaced_text(a: Seq<char>, o1: char, b: Seq<char>, o2: char, c: Seq<char>)
    requires
        is_digits(a),
        is_digits(b),
        is_digits(c),
        is_operator_char(o1),
        is_operator_char(o2),
        ascii_digits_numeric(spaced_text(a, o1, b, o2, c)),
    ensures
        implied_tokens(
            grouped_fractions(
                scanned_tokens(
                    spaced_text(a, o1, b, o2, c),
                    numeric_flags(spaced_text(a, o1, b, o2, c)),
                    whitespace_flags(spaced_text(a, o1, b, o2, c)),
                ),
            ),
        ) == seq![
            TokenView::Number(NumberView::Literal(a)),
            TokenView::Operator(o1),
            TokenView::Number(NumberView::Literal(b)),
            TokenView::Operator(o2),
            TokenView::Number(NumberView::Literal(c)),
        ],
{
    lemma_scan_spaced_text(a, o1, b, o2, c);
    let ts = seq![
        TokenView::Number(NumberView::Literal(a)),
        TokenView::Operator(o1),
        TokenView::Number(NumberView::Literal(b)),
        TokenView::Operator(o2),
        TokenView::Number(NumberView::Literal(c)),
    ];
    lemma_grouped_without_parens(ts, 5);
    assert(ts.take(5) =~= ts);
    let e = Seq::<int>::empty();
    assert(e.subrange(0, 0) =~= e);
    assert(crate::lexer::closers(0) =~= Seq::<TokenView>::empty());
    assert(implied_prefix(ts, 0).0 =~= Seq::<TokenView>::empty());
    assert(implied_prefix(ts, 1) == (ts.take(1), e, 0int));
    assert(implied_prefix(ts, 2) == (ts.take(2), e, 0int));
    assert(implied_prefix(ts, 3) == (ts.take(3), e, 0int));
    assert(implied_prefix(ts, 4) == (ts.take(4), e, 0int));
    assert(implied_prefix(ts, 5).0 =~= ts);
}

/// A nonempty run of lowercase ASCII letters.
pub open spec fn is_letters(s: Seq<char>) -> bool {
    s.len() > 0 && forall|j: int| 0 <= j < s.len() ==> 'a' <= #[trigger] s[j] && s[j] <= 'z'
}

proof fn lemma_name_prefix_steps(n: Seq<char>, j: nat)
    requires
        is_letters(n),
        1 <= j < n.len(),
        forall|k: int|
            1 <= k < n.len() ==> !is_builtin_function(#[trigger] n.take(k)) && builtin_constant(
                n.take(k),
            ) is None,
        ascii_digits_numeric(n + seq!['(', 'x', ')']),
    ensures
        ({
            let cs = n + seq!['(', 'x', ')'];
            scan_prefix(cs, numeric_flags(cs), whitespace_flags(cs), j) == (
                0int,
                0int,
                Seq::<TokenView>::empty(),
            )
        }),
    decreases j,
{
    let cs = n + seq!['(', 'x', ')'];
    let nf = numeric_flags(cs);
    let wf = whitespace_flags(cs);
    assert forall|m: int| 0 <= m < n.len() implies name_at(cs, nf, wf, m) by {
        assert(cs[m] == n[m]);
        assert((cs[m] as u32) < 0x80);
    }
    if j > 1 {
        lemma_name_prefix_steps(n, (j - 1) as nat);
        assert(name_at(cs, nf, wf, j - 2));
    } else {
        assert(scan_prefix(cs, nf, wf, 0) == (0int, 0int, Seq::<TokenView>::empty()));
    }
    assert(scan_prefix(cs, nf, wf, (j - 1) as nat) == (0int, 0int, Seq::<TokenView>::empty()));
    let i = j - 1;
    assert(!wf[i] && i + 1 < cs.len());
    assert(name_at(cs, nf, wf, i) && name_at(cs, nf, wf, i + 1));
    assert(!is_symbol(cs[i]) && !number_at(cs, nf, i));
    assert(spec_slice_string(cs, 0, i) =~= n.take(j as int));
    assert(!is_builtin_function(n.take(j as int)) && builtin_constant(n.take(j as int)) is None);
}

/// A builtin function name whose shorter prefixes name no builtin, followed
/// by `(x)`, scans as the builtin and `( x )`.
proof fn lemma_scan_builtin_call(n: Seq<char>)
    requires
        is_letters(n),
        is_builtin_function(n),
        forall|k: int|
            1 <= k < n.len() ==> !is_builtin_function(#[trigger] n.take(k)) && builtin_constant(
                n.take(k),
            ) is None,
        ascii_digits_numeric(n + seq!['(', 'x', ')']),
    ensures
        ({
            let cs = n + seq!['(', 'x', ')'];
            scanned_tokens(cs, numeric_flags(cs), whitespace_flags(cs)) == seq![
                TokenView::Builtin(n),
                TokenView::OpenParen,
                TokenView::Identifier(seq!['x']),
                TokenView::CloseParen,
            ]
        }),
{
    let cs = n + seq!['(', 'x', ')'];
    let nf = numeric_flags(cs);
    let wf = whitespace_flags(cs);
    let l = n.len() as int;
    assert forall|m: int| 0 <= m < n.len() implies name_at(cs, nf, wf, m) by {
        assert(cs[m] == n[m]);
        assert((cs[m] as u32) < 0x80);
    }
    assert(cs[l] == '(' && cs[l + 1] == 'x' && cs[l + 2] == ')');
    assert(cs.len() == l + 3);
    if l > 1 {
        lemma_name_prefix_steps(n, (l - 1) as nat);
        assert(name_at(cs, nf, wf, l - 2));
    } else {
        assert(scan_prefix(cs, nf, wf, 0) == (0int, 0int, Seq::<TokenView>::empty()));
    }
    assert(scan_prefix(cs, nf, wf, (l - 1) as nat) == (0int, 0int, Seq::<TokenView>::empty()));
    let i = l - 1;
    assert(!is_symbol(cs[i]) && !number_at(cs, nf, i) && !wf[i]);
    assert(spec_slice_string(cs, 0, i) =~= n);
    let t1 = seq![TokenView::Builtin(n)];
    assert(scan_prefix(cs, nf, wf, l as nat) == (0int, l, t1));
    assert(scan_prefix(cs, nf, wf, (l + 1) as nat) == (0int, l, t1.push(TokenView::OpenParen)));
    assert((cs[l + 1] as u32) < 0x80);
    assert(!nf[l + 1] && !wf[l + 1]);
    assert(name_at(cs, nf, wf, l + 1));
    assert(!name_at(cs, nf, wf, l) && !name_at(cs, nf, wf, l + 2));
    assert(spec_slice_string(cs, l + 1, l + 1) =~= seq!['x']);
    reveal_strlit("sin");
    reveal_strlit("cos");
    reveal_strlit("tan");
    reveal_strlit("arcsin");
    reveal_strlit("arccos");
    reveal_strlit("arctan");
    reveal_strlit("csc");
    reveal_strlit("sec");
    reveal_strlit("cot");
    reveal_strlit("ln");
    reveal_strlit("log");
    reveal_strlit("π");
    reveal_strlit("e");
    assert(!is_builtin_function(seq!['x']));
    assert(builtin_constant(seq!['x']) is None) by {
        assert(seq!['x'][0] != "e"@[0]);
        assert(seq!['x'][0] != "π"@[0]);
    }
    let t3 = t1.push(TokenView::OpenParen).push(TokenView::Identifier(seq!['x']));
    assert(scan_prefix(cs, nf, wf, (l + 2) as nat).2 == t3);
    assert(scan_prefix(cs, nf, wf, (l + 3) as nat).2 =~= seq![
        TokenView::Builtin(n),
        TokenView::OpenParen,
        TokenView::Identifier(seq!['x']),
        TokenView::CloseParen,
    ]);
}

proof fn lemma_call_tokens_passes(n: Seq<char>)
    ensures
        ({
            let ts = seq![
                TokenView::Builtin(n),
                TokenView::OpenParen,
                TokenView::Identifier(seq!['x']),
                TokenView::CloseParen,
            ];
            implied_tokens(grouped_fractions(ts)) == ts
        }),
{
    let ts = seq![
        TokenView::Builtin(n),
        TokenView::OpenParen,
        TokenView::Identifier(seq!['x']),
        TokenView::CloseParen,
    ];
    assert forall|i: int| 0 <= i < 4 implies fraction_piece(ts, i) == seq![ts[i]] by {
        assert(!opens_fraction(ts, i) && !opens_fraction(ts, i - 2));
    }
    assert(grouped_prefix(ts, 0) =~= Seq::<TokenView>::empty());
    assert(grouped_prefix(ts, 1) =~= ts.take(1));
    assert(grouped_prefix(ts, 2) =~= ts.take(2));
    assert(grouped_prefix(ts, 3) =~= ts.take(3));
    assert(grouped_prefix(ts, 4) =~= ts);
    let e = Seq::<int>::empty();
    assert(e.subrange(0, 0) =~= e);
    assert(crate::lexer::closers(0) =~= Seq::<TokenView>::empty());
    assert(!crate::lexer::splittable(seq!['x']));
    assert(implied_prefix(ts, 0) == (Seq::<TokenView>::empty(), e, 0int));
    assert(!crate::lexer::ends_arguments(ts, 0));
    assert(!crate::lexer::juxtaposed(ts[0], ts[1]));
    assert(ts.take(1) =~= seq![TokenView::Builtin(n)]);
    assert(implied_prefix(ts, 1) == (ts.take(1), e, 0int));
    assert(!crate::lexer::ends_arguments(ts, 1));
    assert(ts.take(2) =~= ts.take(1).push(TokenView::OpenParen));
    assert(implied_prefix(ts, 2) == (ts.take(2), e, 1int));
    assert(!crate::lexer::ends_arguments(ts, 2));
    assert(ts.take(3) =~= ts.take(2).push(TokenView::Identifier(seq!['x'])));
    assert(implied_prefix(ts, 3) == (ts.take(3), e, 1int));
    assert(crate::lexer::ends_arguments(ts, 3));
    assert(crate::lexer::closing_count(e, 1) == 0);
    assert(implied_prefix(ts, 4).0 =~= ts);
}

/// The builtin functions are read as builtins: for each of `sin`, `cos`,
/// `tan`, `arcsin`, `arccos`, `arctan`, `csc`, `sec`, `cot`, `ln` and `log`,
/// the text `name(x)` has the tokens `name` (a builtin), `(`, `x`, `)`.
pub proof fn lemma_builtin_call_tokens(n: Seq<char>)
    requires
        n == "sin"@ || n == "cos"@ || n == "tan"@ || n == "arcsin"@ || n == "arccos"@ || n
            == "arctan"@ || n == "csc"@ || n == "sec"@ || n == "cot"@ || n == "ln"@ || n == "log"@,
        ascii_digits_numeric(n + seq!['(', 'x', ')']),
    ensures
        ({
            let cs = n + seq!['(', 'x', ')'];
            implied_tokens(
                grouped_fractions(scanned_tokens(cs, numeric_flags(cs), whitespace_flags(cs))),
            ) == seq![
                TokenView::Builtin(n),
                TokenView::OpenParen,
                TokenView::Identifier(seq!['x']),
                TokenView::CloseParen,
            ]
        }),
{
    reveal_strlit("sin");
    reveal_strlit("cos");
    reveal_strlit("tan");
    reveal_strlit("arcsin");
    reveal_strlit("arccos");
    reveal_strlit("arctan");
    reveal_strlit("csc");
    reveal_strlit("sec");
    reveal_strlit("cot");
    reveal_strlit("ln");
    reveal_strlit("log");
    reveal_strlit("π");
    reveal_strlit("e");
    assert(is_letters(n));
    assert forall|k: int| 1 <= k < n.len() implies !is_builtin_function(#[trigger] n.take(k))
        && builtin_constant(n.take(k)) is None by {
        let p = n.take(k);
        assert(p.len() == k);
        assert(p[0] == n[0]);
        if k > 1 {
            assert(p[1] == n[1]);
        }
        if k > 2 {
            assert(p[2] == n[2]);
        }
    }
    lemma_scan_builtin_call(n);
    lemma_call_tokens_passes(n);
}

} // verus!
