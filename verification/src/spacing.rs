//! Whitespace next to a parenthesis or an operator does not change the
//! tokens.
use vstd::prelude::*;
use crate::lexer::{
    grouped_fractions, implied_tokens, is_symbol, lemma_scan_prefix_identifiers, name_at, number_at,
    numeric_flags, numeric_only_off_symbols, scan_prefix, scan_step, scanned_tokens,
    whitespace_flags,
};
use crate::text::{is_white_space, spec_slice_string};
use crate::token::TokenView;

verus! {

/// Whether a character inserted at `k` stands directly before or after a
/// parenthesis or an operator of `cs`.
pub open spec fn beside_symbol(cs: Seq<char>, k: int) -> bool {
    ||| k < cs.len() && is_symbol(cs[k])
    ||| 0 < k && is_symbol(cs[k - 1])
}

proof fn lemma_slice_before(cs: Seq<char>, k: int, w: char, start: int, i: int)
    requires
        0 <= start <= i < k <= cs.len(),
    ensures
        spec_slice_string(cs.insert(k, w), start, i) == spec_slice_string(cs, start, i),
{
    assert(spec_slice_string(cs.insert(k, w), start, i) =~= spec_slice_string(cs, start, i));
}

proof fn lemma_slice_after(cs: Seq<char>, k: int, w: char, start: int, i: int)
    requires
        0 <= k <= start <= i < cs.len(),
    ensures
        spec_slice_string(cs.insert(k, w), start + 1, i + 1) == spec_slice_string(cs, start, i),
{
    assert(spec_slice_string(cs.insert(k, w), start + 1, i + 1) =~= spec_slice_string(cs, start, i));
}

/// The conditions under which inserting `w` at `k` is shown not to change
/// the scan.
pub open spec fn insertion_ok(cs: Seq<char>, numeric: Seq<bool>, whitespace: Seq<bool>, k: int, w: char) -> bool {
    &&& numeric.len() == cs.len()
    &&& whitespace.len() == cs.len()
    &&& numeric_only_off_symbols(cs, numeric)
    &&& 0 <= k <= cs.len()
    &&& !is_symbol(w)
    &&& w != '.'
    &&& beside_symbol(cs, k)
}

proof fn lemma_step_before(cs: Seq<char>, numeric: Seq<bool>, whitespace: Seq<bool>, k: int, w: char, i: int)
    requires
        insertion_ok(cs, numeric, whitespace, k, w),
        0 <= i < k,
    ensures
        scan_step(
            cs.insert(k, w),
            numeric.insert(k, false),
            whitespace.insert(k, true),
            i,
            scan_prefix(cs, numeric, whitespace, i as nat),
        ) == scan_prefix(cs, numeric, whitespace, (i + 1) as nat),
{
    let cs2 = cs.insert(k, w);
    let n2 = numeric.insert(k, false);
    let ws2 = whitespace.insert(k, true);
    let st = scan_prefix(cs, numeric, whitespace, i as nat);
    lemma_scan_prefix_identifiers(cs, numeric, whitespace, i as nat);
    assert(cs2[i] == cs[i] && n2[i] == numeric[i] && ws2[i] == whitespace[i]);
    if i > 0 {
        assert(cs2[i - 1] == cs[i - 1] && n2[i - 1] == numeric[i - 1] && ws2[i - 1] == whitespace[i - 1]);
    }
    assert(cs2[k] == w && n2[k] == false && ws2[k] == true);
    if i + 1 < k {
        assert(cs2[i + 1] == cs[i + 1] && n2[i + 1] == numeric[i + 1] && ws2[i + 1] == whitespace[i + 1]);
    }
    let start_n = if i == 0 || !number_at(cs, numeric, i - 1) { i } else { st.0 };
    let start_i = if i == 0 || !name_at(cs, numeric, whitespace, i - 1) { i } else { st.1 };
    lemma_slice_before(cs, k, w, start_n, i);
    lemma_slice_before(cs, k, w, start_i, i);
    if i + 1 == k && !is_symbol(cs[i]) {
        assert(!number_at(cs2, n2, k));
        assert(!name_at(cs2, n2, ws2, k));
        assert(k < cs.len() && is_symbol(cs[k]));
        assert(!numeric[k]);
        assert(!number_at(cs, numeric, k));
        assert(!name_at(cs, numeric, whitespace, k));
    }
}

/// How the scan of `cs` after `n` characters (`st1`) and the scan of `cs`
/// with a character inserted at `k <= n` after `n + 1` characters (`st2`)
/// agree: the same tokens, and where a number or a name
/// is being read, the same start shifted by the inserted character.
pub open spec fn shifted_state(
    cs: Seq<char>,
    numeric: Seq<bool>,
    whitespace: Seq<bool>,
    k: int,
    n: int,
    st1: (int, int, Seq<TokenView>),
    st2: (int, int, Seq<TokenView>),
) -> bool {
    &&& st2.2 == st1.2
    &&& (k < n && number_at(cs, numeric, n - 1)) ==> (st2.0 == st1.0 + 1 && k <= st1.0 <= n)
    &&& (k < n && name_at(cs, numeric, whitespace, n - 1)) ==> (st2.1 == st1.1 + 1 && k <= st1.1 <= n)
}

proof fn lemma_step_after(
    cs: Seq<char>,
    numeric: Seq<bool>,
    whitespace: Seq<bool>,
    k: int,
    w: char,
    n: int,
    st1: (int, int, Seq<TokenView>),
    st2: (int, int, Seq<TokenView>),
)
    requires
        insertion_ok(cs, numeric, whitespace, k, w),
        k <= n < cs.len(),
        shifted_state(cs, numeric, whitespace, k, n, st1, st2),
    ensures
        shifted_state(
            cs,
            numeric,
            whitespace,
            k,
            n + 1,
            scan_step(cs, numeric, whitespace, n, st1),
            scan_step(cs.insert(k, w), numeric.insert(k, false), whitespace.insert(k, true), n + 1, st2),
        ),
{
    let cs2 = cs.insert(k, w);
    let n2 = numeric.insert(k, false);
    let ws2 = whitespace.insert(k, true);
    assert(cs2[n + 1] == cs[n] && n2[n + 1] == numeric[n] && ws2[n + 1] == whitespace[n]);
    if n > k {
        assert(cs2[n] == cs[n - 1] && n2[n] == numeric[n - 1] && ws2[n] == whitespace[n - 1]);
    } else {
        assert(cs2[n] == w && n2[n] == false && ws2[n] == true);
        assert(!number_at(cs2, n2, n) && !name_at(cs2, n2, ws2, n));
        if !is_symbol(cs[n]) {
            assert(0 < k && is_symbol(cs[k - 1]));
            assert(!numeric[k - 1]);
            assert(!number_at(cs, numeric, n - 1) && !name_at(cs, numeric, whitespace, n - 1));
        }
    }
    if n + 1 < cs.len() {
        assert(cs2[n + 2] == cs[n + 1] && n2[n + 2] == numeric[n + 1] && ws2[n + 2] == whitespace[n + 1]);
    }
    if is_symbol(cs[n]) {
        assert(!numeric[n]);
    }
    let start_n = if n == 0 || !number_at(cs, numeric, n - 1) { n } else { st1.0 };
    let start_i = if n == 0 || !name_at(cs, numeric, whitespace, n - 1) { n } else { st1.1 };
    if number_at(cs, numeric, n) && !is_symbol(cs[n]) {
        lemma_slice_after(cs, k, w, start_n, n);
    }
    if name_at(cs, numeric, whitespace, n) {
        lemma_slice_after(cs, k, w, start_i, n);
    }
}

proof fn lemma_prefix_before(cs: Seq<char>, numeric: Seq<bool>, whitespace: Seq<bool>, k: int, w: char, n: nat)
    requires
        insertion_ok(cs, numeric, whitespace, k, w),
        n <= k,
    ensures
        scan_prefix(cs.insert(k, w), numeric.insert(k, false), whitespace.insert(k, true), n)
            == scan_prefix(cs, numeric, whitespace, n),
    decreases n,
{
    if n > 0 {
        lemma_prefix_before(cs, numeric, whitespace, k, w, (n - 1) as nat);
        lemma_step_before(cs, numeric, whitespace, k, w, n - 1);
    }
}

proof fn lemma_prefix_after(cs: Seq<char>, numeric: Seq<bool>, whitespace: Seq<bool>, k: int, w: char, n: nat)
    requires
        insertion_ok(cs, numeric, whitespace, k, w),
        k <= n <= cs.len(),
    ensures
        shifted_state(
            cs,
            numeric,
            whitespace,
            k,
            n as int,
            scan_prefix(cs, numeric, whitespace, n),
            scan_prefix(cs.insert(k, w), numeric.insert(k, false), whitespace.insert(k, true), n + 1),
        ),
    decreases n,
{
    let cs2 = cs.insert(k, w);
    let n2 = numeric.insert(k, false);
    let ws2 = whitespace.insert(k, true);
    if n == k {
        lemma_prefix_before(cs, numeric, whitespace, k, w, n);
        assert(cs2[k] == w && n2[k] == false && ws2[k] == true);
    } else {
        lemma_prefix_after(cs, numeric, whitespace, k, w, (n - 1) as nat);
        lemma_step_after(
            cs,
            numeric,
            whitespace,
            k,
            w,
            n - 1,
            scan_prefix(cs, numeric, whitespace, (n - 1) as nat),
            scan_prefix(cs2, n2, ws2, n as nat),
        );
    }
}

/// A character that is neither a number character nor a name character
/// (whitespace), put directly before or after a parenthesis or an operator,
/// leaves the tokens of the scan as they are.
pub proof fn lemma_scan_ignores_space_beside_symbol(
    cs: Seq<char>,
    numeric: Seq<bool>,
    whitespace: Seq<bool>,
    k: int,
    w: char,
)
    requires
        numeric.len() == cs.len(),
        whitespace.len() == cs.len(),
        numeric_only_off_symbols(cs, numeric),
        0 <= k <= cs.len(),
        !is_symbol(w),
        w != '.',
        beside_symbol(cs, k),
    ensures
        scanned_tokens(cs.insert(k, w), numeric.insert(k, false), whitespace.insert(k, true))
            == scanned_tokens(cs, numeric, whitespace),
{
    lemma_prefix_after(cs, numeric, whitespace, k, w, cs.len());
}

/// Whitespace put directly before or after a parenthesis or an operator of
/// an expression does not change its tokens.
pub proof fn lemma_tokens_ignore_space_beside_symbol(cs: Seq<char>, k: int, w: char)
    requires
        0 <= k <= cs.len(),
        is_white_space(w),
        beside_symbol(cs, k),
    ensures
        implied_tokens(
            grouped_fractions(
                scanned_tokens(
                    cs.insert(k, w),
                    numeric_flags(cs.insert(k, w)),
                    whitespace_flags(cs.insert(k, w)),
                ),
            ),
        ) == implied_tokens(
            grouped_fractions(scanned_tokens(cs, numeric_flags(cs), whitespace_flags(cs))),
        ),
{
    let cs2 = cs.insert(k, w);
    assert(!is_symbol(w) && w != '.');
    assert(numeric_flags(cs2) =~= numeric_flags(cs).insert(k, false));
    assert(whitespace_flags(cs2) =~= whitespace_flags(cs).insert(k, true));
    lemma_scan_ignores_space_beside_symbol(cs, numeric_flags(cs), whitespace_flags(cs), k, w);
}

} // verus!
