//! Whitespace between tokens does not change what a text is parsed to.

use vstd::prelude::*;
use crate::lexer::{
    is_number_char, lemma_lex_end, lemma_matched_len, lemma_number_run, lemma_number_run_end,
    lemma_scan_escape_end, lemma_scan_string_end, lemma_scan_unit_end, lemma_skip_whitespace_end,
    lex, lex_at, lex_number, Lexed, matched_len, number_run_end, scan_escape, scan_string,
    scan_unicode, scan_unit, ScannedChar, ScannedUnit, skip_whitespace_end,
};
use crate::number::is_digit;
use crate::parser::{
    advance, current, ends_with, lemma_nth_token_end, lemma_parse_value_next, lemma_token_start,
    nth_token, parse_array, parse_document, parse_elements, parse_members, parse_object,
    parse_value, Parsed, token_start,
};
use crate::text::is_whitespace;
use crate::value::{JsonError, same_kind, TokenView, ValueView};

verus! {

pub open spec fn all_whitespace(w: Seq<char>) -> bool {
    forall|i: int| 0 <= i < w.len() ==> is_whitespace(#[trigger] w[i])
}

/// `y` is `x` with `n` characters of whitespace put in at offset `p`.
pub open spec fn is_insertion(x: Seq<char>, y: Seq<char>, p: int, n: int) -> bool {
    &&& 0 <= p <= x.len()
    &&& 0 <= n
    &&& y.len() == x.len() + n
    &&& forall|i: int| 0 <= i < p ==> #[trigger] y[i] == x[i]
    &&& forall|i: int| p <= i < p + n ==> is_whitespace(#[trigger] y[i])
    &&& forall|i: int| p <= i < x.len() ==> y[i + n] == #[trigger] x[i]
}

/// Two results of one kind: the same value, or errors that differ at most in
/// their place.
pub open spec fn same_result<T>(a: Result<T, JsonError>, b: Result<T, JsonError>) -> bool {
    match (a, b) {
        (Ok(u), Ok(v)) => u == v,
        (Err(e), Err(f)) => same_kind(e, f),
        _ => false,
    }
}

/// `a` is `b`, `n` characters further on.
pub open spec fn shifted(a: Lexed, b: Lexed, n: int) -> bool {
    a.end == b.end + n && same_result(a.token, b.token)
}

proof fn lemma_shift_skip(x: Seq<char>, y: Seq<char>, p: int, n: int, i: int)
    requires
        is_insertion(x, y, p, n),
        p <= i <= x.len(),
    ensures
        skip_whitespace_end(y, i + n) == skip_whitespace_end(x, i) + n,
    decreases x.len() - i,
{
    if i < x.len() {
        assert(y[i + n] == x[i]);
        if is_whitespace(x[i]) {
            lemma_shift_skip(x, y, p, n, i + 1);
        }
    }
}

proof fn lemma_shift_number_run(x: Seq<char>, y: Seq<char>, p: int, n: int, i: int)
    requires
        is_insertion(x, y, p, n),
        p <= i <= x.len(),
    ensures
        number_run_end(y, i + n) == number_run_end(x, i) + n,
    decreases x.len() - i,
{
    if i < x.len() {
        assert(y[i + n] == x[i]);
        if is_number_char(x[i]) {
            lemma_shift_number_run(x, y, p, n, i + 1);
        }
    }
}

proof fn lemma_shift_matched(
    x: Seq<char>,
    y: Seq<char>,
    p: int,
    n: int,
    j: int,
    word: Seq<char>,
    k: int,
)
    requires
        is_insertion(x, y, p, n),
        p <= j,
        0 <= k,
    ensures
        matched_len(y, j + n, word, k) == matched_len(x, j, word, k),
    decreases word.len() - k,
{
    if k < word.len() && j + k < x.len() {
        assert(y[j + k + n] == x[j + k]);
        if x[j + k] == word[k] {
            lemma_shift_matched(x, y, p, n, j, word, k + 1);
        }
    }
}

proof fn lemma_shift_unit(x: Seq<char>, y: Seq<char>, p: int, n: int, q: int)
    requires
        is_insertion(x, y, p, n),
        p <= q,
    ensures
        scan_unit(y, q + n) == (ScannedUnit {
            unit: scan_unit(x, q).unit,
            end: scan_unit(x, q).end + n,
        }),
{
    reveal(scan_unit);
    if q < x.len() {
        assert(y[q + n] == x[q]);
    }
    if q + 1 < x.len() {
        assert(y[q + 1 + n] == x[q + 1]);
    }
    if q + 2 < x.len() {
        assert(y[q + 2 + n] == x[q + 2]);
    }
    if q + 3 < x.len() {
        assert(y[q + 3 + n] == x[q + 3]);
    }
}

proof fn lemma_shift_unicode(x: Seq<char>, y: Seq<char>, p: int, n: int, q: int)
    requires
        is_insertion(x, y, p, n),
        p <= q,
    ensures
        scan_unicode(y, q + n) == (ScannedChar {
            ch: scan_unicode(x, q).ch,
            end: scan_unicode(x, q).end + n,
        }),
{
    reveal(scan_unicode);
    lemma_shift_unit(x, y, p, n, q);
    lemma_shift_unit(x, y, p, n, q + 6);
    if q + 4 < x.len() {
        assert(y[q + 4 + n] == x[q + 4]);
    }
    if q + 5 < x.len() {
        assert(y[q + 5 + n] == x[q + 5]);
    }
}

proof fn lemma_shift_escape(x: Seq<char>, y: Seq<char>, p: int, n: int, q: int)
    requires
        is_insertion(x, y, p, n),
        p <= q,
    ensures
        scan_escape(y, q + n) == (ScannedChar {
            ch: scan_escape(x, q).ch,
            end: scan_escape(x, q).end + n,
        }),
{
    if q < x.len() {
        assert(y[q + n] == x[q]);
        lemma_shift_unicode(x, y, p, n, q + 1);
    }
}

proof fn lemma_shift_string(
    x: Seq<char>,
    y: Seq<char>,
    p: int,
    n: int,
    start_x: int,
    start_y: int,
    q: int,
)
    requires
        is_insertion(x, y, p, n),
        p <= q,
    ensures
        scan_string(y, start_y, q + n).end == scan_string(x, start_x, q).end + n,
        same_result(scan_string(y, start_y, q + n).text, scan_string(x, start_x, q).text),
    decreases x.len() - q,
{
    if q < x.len() {
        assert(y[q + n] == x[q]);
        if x[q] == '"' {
        } else if x[q] == '\\' {
            lemma_shift_escape(x, y, p, n, q + 1);
            lemma_scan_escape_end(x, q + 1);
            let escape = scan_escape(x, q + 1);
            if escape.ch is Some {
                lemma_shift_string(x, y, p, n, start_x, start_y, escape.end);
            }
        } else {
            lemma_shift_string(x, y, p, n, start_x, start_y, q + 1);
        }
    }
}

proof fn lemma_shift_lex_at(x: Seq<char>, y: Seq<char>, p: int, n: int, j: int)
    requires
        is_insertion(x, y, p, n),
        p <= j <= x.len(),
    ensures
        shifted(lex_at(y, j + n), lex_at(x, j), n),
{
    if j < x.len() {
        let c = x[j];
        assert(y[j + n] == c);
        if c == '"' {
            lemma_shift_string(x, y, p, n, j, j + n, j + 1);
        } else if is_digit(c) || c == '-' {
            lemma_shift_number_run(x, y, p, n, j);
            lemma_number_run_end(x, j);
            let e = number_run_end(x, j);
            let ys = y.subrange(j + n, e + n);
            let xs = x.subrange(j, e);
            assert(ys =~= xs) by {
                assert forall|m: int| 0 <= m < e - j implies #[trigger] ys[m] == xs[m] by {
                    assert(y[(j + m) + n] == x[j + m]);
                }
            }
        } else if c == 't' {
            lemma_shift_matched(x, y, p, n, j, seq!['t', 'r', 'u', 'e'], 0);
            lemma_matched_len(x, j, seq!['t', 'r', 'u', 'e'], 0);
        } else if c == 'f' {
            lemma_shift_matched(x, y, p, n, j, seq!['f', 'a', 'l', 's', 'e'], 0);
            lemma_matched_len(x, j, seq!['f', 'a', 'l', 's', 'e'], 0);
        } else if c == 'n' {
            lemma_shift_matched(x, y, p, n, j, seq!['n', 'u', 'l', 'l'], 0);
            lemma_matched_len(x, j, seq!['n', 'u', 'l', 'l'], 0);
        }
    }
}

/// Behind the whitespace that was put in, the lexer gives in `y` what it
/// gives in `x`, `n` characters further on.
proof fn lemma_shift_lex(x: Seq<char>, y: Seq<char>, p: int, n: int, i: int)
    requires
        is_insertion(x, y, p, n),
        p <= i <= x.len(),
    ensures
        shifted(lex(y, i + n), lex(x, i), n),
{
    reveal(lex);
    lemma_shift_skip(x, y, p, n, i);
    lemma_skip_whitespace_end(x, i);
    lemma_shift_lex_at(x, y, p, n, skip_whitespace_end(x, i));
}

proof fn lemma_prefix_skip(x: Seq<char>, y: Seq<char>, p: int, n: int, i: int)
    requires
        is_insertion(x, y, p, n),
        0 <= i <= x.len(),
        skip_whitespace_end(x, i) < p,
    ensures
        skip_whitespace_end(y, i) == skip_whitespace_end(x, i),
    decreases x.len() - i,
{
    lemma_skip_whitespace_end(x, i);
    assert(y[i] == x[i]);
    if is_whitespace(x[i]) {
        lemma_prefix_skip(x, y, p, n, i + 1);
    }
}

proof fn lemma_prefix_matched(
    x: Seq<char>,
    y: Seq<char>,
    p: int,
    n: int,
    j: int,
    word: Seq<char>,
    k: int,
)
    requires
        is_insertion(x, y, p, n),
        0 <= j,
        0 <= k,
        j + word.len() <= p,
    ensures
        matched_len(y, j, word, k) == matched_len(x, j, word, k),
    decreases word.len() - k,
{
    if k < word.len() {
        assert(y[j + k] == x[j + k]);
        if x[j + k] == word[k] {
            lemma_prefix_matched(x, y, p, n, j, word, k + 1);
        }
    }
}

proof fn lemma_prefix_unit(x: Seq<char>, y: Seq<char>, p: int, n: int, q: int)
    requires
        is_insertion(x, y, p, n),
        0 <= q,
        scan_unit(x, q).unit is Some,
        q + 4 <= p,
    ensures
        scan_unit(y, q) == scan_unit(x, q),
{
    reveal(scan_unit);
    assert(y[q] == x[q]);
    assert(y[q + 1] == x[q + 1]);
    assert(y[q + 2] == x[q + 2]);
    assert(y[q + 3] == x[q + 3]);
}

proof fn lemma_prefix_unicode(x: Seq<char>, y: Seq<char>, p: int, n: int, q: int)
    requires
        is_insertion(x, y, p, n),
        0 <= q,
        q <= x.len(),
        scan_unicode(x, q).ch is Some,
        scan_unicode(x, q).end <= p,
    ensures
        scan_unicode(y, q) == scan_unicode(x, q),
{
    reveal(scan_unicode);
    lemma_scan_unit_end(x, q);
    lemma_prefix_unit(x, y, p, n, q);
    if scan_unicode(x, q).end != q + 4 {
        lemma_scan_unit_end(x, q + 6);
        assert(y[q + 4] == x[q + 4]);
        assert(y[q + 5] == x[q + 5]);
        lemma_prefix_unit(x, y, p, n, q + 6);
    }
}

proof fn lemma_prefix_escape(x: Seq<char>, y: Seq<char>, p: int, n: int, q: int)
    requires
        is_insertion(x, y, p, n),
        0 <= q,
        scan_escape(x, q).ch is Some,
        scan_escape(x, q).end <= p,
    ensures
        scan_escape(y, q) == scan_escape(x, q),
{
    lemma_scan_escape_end(x, q);
    assert(y[q] == x[q]);
    if x[q] == 'u' {
        lemma_prefix_unicode(x, y, p, n, q + 1);
    }
}

proof fn lemma_prefix_string(x: Seq<char>, y: Seq<char>, p: int, n: int, start: int, q: int)
    requires
        is_insertion(x, y, p, n),
        0 <= q,
        scan_string(x, start, q).text is Ok,
        scan_string(x, start, q).end <= p,
    ensures
        scan_string(y, start, q) == scan_string(x, start, q),
    decreases x.len() - q,
{
    lemma_scan_string_end(x, start, q);
    assert(y[q] == x[q]);
    if x[q] == '"' {
    } else if x[q] == '\\' {
        let escape = scan_escape(x, q + 1);
        lemma_scan_escape_end(x, q + 1);
        lemma_scan_string_end(x, start, escape.end);
        lemma_prefix_escape(x, y, p, n, q + 1);
        lemma_prefix_string(x, y, p, n, start, escape.end);
    } else {
        lemma_prefix_string(x, y, p, n, start, q + 1);
    }
}

proof fn lemma_prefix_number(x: Seq<char>, y: Seq<char>, p: int, n: int, j: int)
    requires
        is_insertion(x, y, p, n),
        0 <= j < x.len(),
        number_run_end(x, j) <= p,
    ensures
        lex_number(y, j) == lex_number(x, j),
{
    lemma_number_run_end(x, j);
    let e = number_run_end(x, j);
    assert forall|i: int| j <= i < e implies is_number_char(#[trigger] y[i]) by {
        assert(y[i] == x[i]);
        assert(is_number_char(x[i]));
    }
    if e < y.len() {
        if e < p {
            assert(y[e] == x[e]);
        } else if n > 0 {
            assert(is_whitespace(y[e]));
        } else {
            assert(y[e + n] == x[e]);
        }
    }
    lemma_number_run(y, j, e);
    let ys = y.subrange(j, e);
    let xs = x.subrange(j, e);
    assert(ys =~= xs) by {
        assert forall|m: int| 0 <= m < e - j implies #[trigger] ys[m] == xs[m] by {
            assert(y[j + m] == x[j + m]);
        }
    }
    assert(line_col_same(x, y, j)) by {
        lemma_prefix_place(x, y, p, n, j);
    }
}

/// Two texts with the same first `i` characters give the place behind them
/// the same line and column.
pub open spec fn line_col_same(x: Seq<char>, y: Seq<char>, i: int) -> bool {
    crate::text::line_at(x, i) == crate::text::line_at(y, i) && crate::text::col_at(x, i)
        == crate::text::col_at(y, i)
}

proof fn lemma_prefix_place(x: Seq<char>, y: Seq<char>, p: int, n: int, i: int)
    requires
        is_insertion(x, y, p, n),
        0 <= i <= p,
    ensures
        line_col_same(x, y, i),
    decreases i,
{
    if i > 0 {
        assert(y[i - 1] == x[i - 1]);
        lemma_prefix_place(x, y, p, n, i - 1);
    }
}

/// A token that ends before the whitespace that was put in is the same in
/// both texts.
proof fn lemma_prefix_lex(x: Seq<char>, y: Seq<char>, p: int, n: int, i: int)
    requires
        is_insertion(x, y, p, n),
        0 <= i <= x.len(),
        lex(x, i).token is Ok,
        !(lex(x, i).token->Ok_0 is Eof),
        lex(x, i).end <= p,
    ensures
        lex(y, i) == lex(x, i),
{
    reveal(lex);
    lemma_lex_end(x, i);
    lemma_skip_whitespace_end(x, i);
    let j = skip_whitespace_end(x, i);
    lemma_prefix_skip(x, y, p, n, i);
    assert(y[j] == x[j]);
    let c = x[j];
    if c == '"' {
        lemma_prefix_string(x, y, p, n, j, j + 1);
    } else if is_digit(c) || c == '-' {
        lemma_prefix_number(x, y, p, n, j);
    } else if c == 't' {
        lemma_matched_len(x, j, seq!['t', 'r', 'u', 'e'], 0);
        lemma_prefix_matched(x, y, p, n, j, seq!['t', 'r', 'u', 'e'], 0);
    } else if c == 'f' {
        lemma_matched_len(x, j, seq!['f', 'a', 'l', 's', 'e'], 0);
        lemma_prefix_matched(x, y, p, n, j, seq!['f', 'a', 'l', 's', 'e'], 0);
    } else if c == 'n' {
        lemma_matched_len(x, j, seq!['n', 'u', 'l', 'l'], 0);
        lemma_prefix_matched(x, y, p, n, j, seq!['n', 'u', 'l', 'l'], 0);
    }
}

/// A token that was read, and that is not the end of the text.
pub open spec fn is_proper(l: Lexed) -> bool {
    l.token is Ok && !(l.token->Ok_0 is Eof)
}

/// The first `k` tokens of `s` are proper tokens.
pub open spec fn tokens_before(s: Seq<char>, k: nat) -> bool {
    forall|j: nat| j < k ==> is_proper(#[trigger] nth_token(s, j))
}

/// Offset `p` lies in the whitespace before the `k`-th token of `s`, or at
/// one of its two ends: directly behind the token before or directly before
/// the `k`-th token.
pub open spec fn is_gap(s: Seq<char>, k: nat, p: int) -> bool {
    &&& tokens_before(s, k)
    &&& token_start(s, k) <= p <= skip_whitespace_end(s, token_start(s, k))
}

/// Offset `p` lies between two tokens of `s`, before the first or behind the last.
pub open spec fn is_token_boundary(s: Seq<char>, p: int) -> bool {
    exists|k: nat| is_gap(s, k, p)
}

proof fn lemma_starts_monotone(x: Seq<char>, j: nat, k: nat)
    requires
        j <= k,
    ensures
        token_start(x, j) <= token_start(x, k),
    decreases k - j,
{
    if j < k {
        lemma_starts_monotone(x, j, (k - 1) as nat);
        lemma_token_start(x, (k - 1) as nat);
        lemma_lex_end(x, token_start(x, (k - 1) as nat));
    }
}

proof fn lemma_stream_before(x: Seq<char>, y: Seq<char>, p: int, n: int, k0: nat, j: nat)
    requires
        is_insertion(x, y, p, n),
        is_gap(x, k0, p),
        j < k0,
    ensures
        nth_token(y, j) == nth_token(x, j),
    decreases j,
{
    if j > 0 {
        lemma_stream_before(x, y, p, n, k0, (j - 1) as nat);
    }
    let st = token_start(x, j);
    assert(token_start(y, j) == st);
    lemma_token_start(x, j);
    lemma_token_start(y, j);
    assert(is_proper(nth_token(x, j)));
    lemma_starts_monotone(x, j + 1, k0);
    lemma_prefix_lex(x, y, p, n, st);
}

proof fn lemma_skip_over(y: Seq<char>, a: int, m: int)
    requires
        0 <= a,
        0 <= m,
        a + m <= y.len(),
        forall|i: int| a <= i < a + m ==> is_whitespace(#[trigger] y[i]),
    ensures
        skip_whitespace_end(y, a) == skip_whitespace_end(y, a + m),
    decreases m,
{
    if m > 0 {
        assert(is_whitespace(y[a]));
        lemma_skip_over(y, a + 1, m - 1);
    }
}

proof fn lemma_gap_skip(x: Seq<char>, y: Seq<char>, p: int, n: int, st: int)
    requires
        is_insertion(x, y, p, n),
        0 <= st <= p <= skip_whitespace_end(x, st),
    ensures
        skip_whitespace_end(y, st) == skip_whitespace_end(x, st) + n,
    decreases p - st,
{
    if st < p {
        assert(y[st] == x[st]);
        lemma_gap_skip(x, y, p, n, st + 1);
    } else {
        lemma_skip_over(y, p, n);
        lemma_shift_skip(x, y, p, n, p);
    }
}

proof fn lemma_stream_after(x: Seq<char>, y: Seq<char>, p: int, n: int, k0: nat, j: nat)
    requires
        is_insertion(x, y, p, n),
        is_gap(x, k0, p),
        j >= k0,
    ensures
        shifted(nth_token(y, j), nth_token(x, j), n),
        p <= nth_token(x, j).end <= x.len(),
    decreases j,
{
    lemma_token_start(x, j);
    lemma_token_start(y, j);
    if j == k0 {
        if k0 > 0 {
            lemma_stream_before(x, y, p, n, k0, (k0 - 1) as nat);
        }
        let st = token_start(x, k0);
        assert(token_start(y, k0) == st);
        reveal(lex);
        lemma_gap_skip(x, y, p, n, st);
        lemma_skip_whitespace_end(x, st);
        lemma_shift_lex_at(x, y, p, n, skip_whitespace_end(x, st));
        lemma_lex_end(x, st);
    } else {
        lemma_stream_after(x, y, p, n, k0, (j - 1) as nat);
        let e = nth_token(x, (j - 1) as nat).end;
        lemma_shift_lex(x, y, p, n, e);
        lemma_lex_end(x, e);
    }
}

/// The two texts give token for token the same, but for the places of errors.
#[verifier::opaque]
pub open spec fn streams_agree(x: Seq<char>, y: Seq<char>) -> bool {
    forall|j: nat| same_result((#[trigger] nth_token(y, j)).token, nth_token(x, j).token)
}

proof fn lemma_streams_agree(x: Seq<char>, y: Seq<char>, p: int, n: int, k0: nat)
    requires
        is_insertion(x, y, p, n),
        is_gap(x, k0, p),
    ensures
        streams_agree(x, y),
{
    reveal(streams_agree);
    assert forall|j: nat|
        same_result((#[trigger] nth_token(y, j)).token, nth_token(x, j).token) by {
        if j < k0 {
            lemma_stream_before(x, y, p, n, k0, j);
            assert(is_proper(nth_token(x, j)));
        } else {
            lemma_stream_after(x, y, p, n, k0, j);
        }
    }
}

/// Two parsing steps with one outcome: the same value and the same token
/// reached, or errors of one kind.
pub open spec fn agree<T>(a: Parsed<T>, b: Parsed<T>) -> bool {
    match (a.value, b.value) {
        (Ok(u), Ok(v)) => u == v && a.next == b.next,
        (Err(e), Err(f)) => same_kind(e, f),
        _ => false,
    }
}

proof fn lemma_agree_token(x: Seq<char>, y: Seq<char>, k: nat)
    requires
        streams_agree(x, y),
    ensures
        same_result(nth_token(y, k).token, nth_token(x, k).token),
        same_result(advance(y, k), advance(x, k)),
        nth_token(x, k).token is Ok ==> current(y, k) == current(x, k),
        is_proper(nth_token(x, k)) ==> k < x.len() && k < y.len(),
{
    assert(same_result(nth_token(y, k).token, nth_token(x, k).token) && same_result(
        nth_token(y, k + 1).token,
        nth_token(x, k + 1).token,
    )) by {
        reveal(streams_agree);
    }
    lemma_nth_token_end(x, k);
    lemma_nth_token_end(y, k);
}

proof fn lemma_agree_ends_with<T>(x: Seq<char>, y: Seq<char>, k: nat, v: T)
    requires
        streams_agree(x, y),
    ensures
        agree(ends_with(y, k, v), ends_with(x, k, v)),
{
    lemma_agree_token(x, y, k);
}

proof fn lemma_agree_value(x: Seq<char>, y: Seq<char>, k: nat)
    requires
        streams_agree(x, y),
    ensures
        agree(parse_value(y, k), parse_value(x, k)),
    decreases x.len() - k, 2nat,
{
    lemma_agree_token(x, y, k);
    match nth_token(x, k).token {
        Ok(TokenView::Null) => {
            lemma_agree_ends_with(x, y, k, ValueView::Null);
        },
        Ok(TokenView::True) => {
            lemma_agree_ends_with(x, y, k, ValueView::Bool(true));
        },
        Ok(TokenView::False) => {
            lemma_agree_ends_with(x, y, k, ValueView::Bool(false));
        },
        Ok(TokenView::Number(n)) => {
            lemma_agree_ends_with(x, y, k, ValueView::Number(n));
        },
        Ok(TokenView::String(text)) => {
            lemma_agree_ends_with(x, y, k, ValueView::String(text));
        },
        Ok(TokenView::SquareLeft) => {
            lemma_agree_array(x, y, k);
        },
        Ok(TokenView::CurlyLeft) => {
            lemma_agree_object(x, y, k);
        },
        _ => {},
    }
}

proof fn lemma_agree_array(x: Seq<char>, y: Seq<char>, k: nat)
    requires
        streams_agree(x, y),
        nth_token(x, k).token == Ok::<TokenView, JsonError>(TokenView::SquareLeft),
    ensures
        agree(parse_array(y, k), parse_array(x, k)),
    decreases x.len() - k, 1nat,
{
    lemma_agree_token(x, y, k);
    lemma_agree_token(x, y, k + 1);
    if advance(x, k) is Ok {
        if current(x, k + 1) is SquareRight {
            lemma_agree_ends_with(x, y, k + 1, ValueView::Array(Seq::<ValueView>::empty()));
        } else {
            lemma_agree_elements(x, y, k + 1);
        }
    }
}

proof fn lemma_agree_elements(x: Seq<char>, y: Seq<char>, k: nat)
    requires
        streams_agree(x, y),
        k <= x.len(),
    ensures
        agree(parse_elements(y, k), parse_elements(x, k)),
    decreases x.len() - k, 3nat,
{
    lemma_agree_value(x, y, k);
    let first = parse_value(x, k);
    if first.value is Ok {
        let v = first.value->Ok_0;
        let n1 = first.next;
        lemma_agree_token(x, y, n1);
        lemma_parse_value_next(x, k);
        lemma_parse_value_next(y, k);
        match current(x, n1) {
            TokenView::Comma => {
                if advance(x, n1) is Ok {
                    lemma_agree_elements(x, y, n1 + 1);
                }
            },
            TokenView::SquareRight => {
                lemma_agree_ends_with(x, y, n1, seq![v]);
            },
            _ => {},
        }
    }
}

proof fn lemma_agree_object(x: Seq<char>, y: Seq<char>, k: nat)
    requires
        streams_agree(x, y),
        nth_token(x, k).token == Ok::<TokenView, JsonError>(TokenView::CurlyLeft),
    ensures
        agree(parse_object(y, k), parse_object(x, k)),
    decreases x.len() - k, 1nat,
{
    lemma_agree_token(x, y, k);
    lemma_agree_token(x, y, k + 1);
    if advance(x, k) is Ok {
        if current(x, k + 1) is CurlyRight {
            lemma_agree_ends_with(
                x,
                y,
                k + 1,
                ValueView::Object(Seq::<(Seq<char>, ValueView)>::empty()),
            );
        } else {
            lemma_agree_members(x, y, k + 1);
        }
    }
}

proof fn lemma_agree_members(x: Seq<char>, y: Seq<char>, k: nat)
    requires
        streams_agree(x, y),
        k <= x.len(),
    ensures
        agree(parse_members(y, k), parse_members(x, k)),
    decreases x.len() - k, 3nat,
{
    lemma_agree_token(x, y, k);
    lemma_agree_token(x, y, k + 1);
    lemma_agree_token(x, y, k + 2);
    if nth_token(x, k).token is Ok && current(x, k) is String && advance(x, k) is Ok && current(
        x,
        k + 1,
    ) is Colon && advance(x, k + 1) is Ok {
        let key = current(x, k)->String_0;
        lemma_agree_value(x, y, k + 2);
        let val = parse_value(x, k + 2);
        if val.value is Ok {
            let v = val.value->Ok_0;
            let n1 = val.next;
            lemma_agree_token(x, y, n1);
            lemma_parse_value_next(x, k + 2);
            lemma_parse_value_next(y, k + 2);
            match current(x, n1) {
                TokenView::Comma => {
                    if advance(x, n1) is Ok {
                        lemma_agree_members(x, y, n1 + 1);
                    }
                },
                TokenView::CurlyRight => {
                    lemma_agree_ends_with(x, y, n1, seq![(key, v)]);
                },
                _ => {},
            }
        }
    }
}

/// Texts that give the same tokens are parsed to the same value, or both
/// refused with errors of one kind.
pub proof fn lemma_agree_document(x: Seq<char>, y: Seq<char>)
    requires
        streams_agree(x, y),
    ensures
        same_result(parse_document(y), parse_document(x)),
{
    lemma_agree_token(x, y, 0);
    lemma_agree_value(x, y, 0);
    if nth_token(x, 0).token is Ok && parse_value(x, 0).value is Ok {
        lemma_parse_value_next(x, 0);
        lemma_agree_token(x, y, parse_value(x, 0).next);
    }
}

proof fn lemma_insertion(a: Seq<char>, w: Seq<char>, b: Seq<char>)
    requires
        all_whitespace(w),
    ensures
        is_insertion(a + b, a + w + b, a.len() as int, w.len() as int),
{
    let y = a + w + b;
    let p = a.len() as int;
    assert forall|i: int| p <= i < p + w.len() implies is_whitespace(#[trigger] y[i]) by {
        assert(y[i] == w[i - p]);
    }
}

proof fn lemma_gap_kept(x: Seq<char>, y: Seq<char>, p: int, n: int, k0: nat, k: nat, q: int)
    requires
        is_insertion(x, y, p, n),
        is_gap(x, k0, p),
        is_gap(x, k, q),
    ensures
        is_token_boundary(
            y,
            if q <= p {
                q
            } else {
                q + n
            },
        ),
{
    let moved = if q <= p {
        q
    } else {
        q + n
    };
    let st = token_start(x, k);
    lemma_token_start(x, k);
    assert(tokens_before(y, k)) by {
        assert forall|j: nat| j < k implies is_proper(#[trigger] nth_token(y, j)) by {
            assert(is_proper(nth_token(x, j)));
            if j < k0 {
                lemma_stream_before(x, y, p, n, k0, j);
            } else {
                lemma_stream_after(x, y, p, n, k0, j);
            }
        }
    }
    if k < k0 {
        lemma_stream_before(x, y, p, n, k0, k);
        if k > 0 {
            lemma_stream_before(x, y, p, n, k0, (k - 1) as nat);
        }
        assert(is_proper(nth_token(x, k)));
        lemma_lex_end(x, st);
        lemma_starts_monotone(x, k + 1, k0);
        lemma_token_start(x, k);
        lemma_prefix_skip(x, y, p, n, st);
        assert(is_gap(y, k, moved));
    } else if k == k0 {
        if k0 > 0 {
            lemma_stream_before(x, y, p, n, k0, (k0 - 1) as nat);
        }
        lemma_gap_skip(x, y, p, n, st);
        assert(is_gap(y, k, moved));
    } else if q <= p {
        if k0 > 0 {
            lemma_stream_before(x, y, p, n, k0, (k0 - 1) as nat);
        }
        lemma_gap_skip(x, y, p, n, token_start(x, k0));
        lemma_stream_after(x, y, p, n, k0, (k - 1) as nat);
        assert(is_gap(y, k0, moved));
    } else {
        lemma_stream_after(x, y, p, n, k0, (k - 1) as nat);
        lemma_shift_skip(x, y, p, n, st);
        assert(is_gap(y, k, moved));
    }
}

/// Whitespace that is put in between two tokens leaves every place between
/// two tokens a place between two tokens, so that more whitespace can be put
/// in there.
pub proof fn lemma_boundary_kept(a: Seq<char>, w: Seq<char>, b: Seq<char>, q: int)
    requires
        all_whitespace(w),
        is_token_boundary(a + b, a.len() as int),
        is_token_boundary(a + b, q),
    ensures
        is_token_boundary(
            a + w + b,
            if q <= a.len() {
                q
            } else {
                q + w.len()
            },
        ),
{
    let x = a + b;
    let p = a.len() as int;
    lemma_insertion(a, w, b);
    let k0 = choose|k: nat| is_gap(x, k, p);
    let k = choose|k: nat| is_gap(x, k, q);
    lemma_gap_kept(x, a + w + b, p, w.len() as int, k0, k, q);
}

/// Whitespace insensitivity: whitespace put in between two tokens of a text,
/// before the first or behind the last, changes neither the value that the
/// text is parsed to nor the kind of the error that it is refused with. Only
/// the line and the column of an error may change.
pub proof fn theorem_whitespace(a: Seq<char>, w: Seq<char>, b: Seq<char>)
    requires
        all_whitespace(w),
        is_token_boundary(a + b, a.len() as int),
    ensures
        same_result(parse_document(a + w + b), parse_document(a + b)),
        parse_document(a + b) is Ok ==> parse_document(a + w + b) == parse_document(a + b),
{
    let x = a + b;
    let y = a + w + b;
    let p = a.len() as int;
    let n = w.len() as int;
    lemma_insertion(a, w, b);
    let k0 = choose|k: nat| is_gap(x, k, p);
    lemma_streams_agree(x, y, p, n, k0);
    lemma_agree_document(x, y);
}

/// `y` comes from `x` in `n` steps, each of which puts whitespace in between
/// two tokens of the text as it then stands.
pub open spec fn is_spaced_out(x: Seq<char>, y: Seq<char>, n: nat) -> bool
    decreases n,
{
    if n == 0 {
        x == y
    } else {
        exists|a: Seq<char>, w: Seq<char>, b: Seq<char>|
            #![trigger a + w + b]
            x == a + b && all_whitespace(w) && is_token_boundary(a + b, a.len() as int)
                && is_spaced_out(a + w + b, y, (n - 1) as nat)
    }
}

proof fn lemma_same_result_trans<T>(
    a: Result<T, JsonError>,
    b: Result<T, JsonError>,
    c: Result<T, JsonError>,
)
    requires
        same_result(a, b),
        same_result(b, c),
    ensures
        same_result(a, c),
{
}

/// Whitespace insensitivity, for whitespace in any number of places: however
/// much whitespace is put in between the tokens of a text, the text is parsed
/// to the same value, or refused with an error of the same kind.
pub proof fn theorem_whitespace_many(x: Seq<char>, y: Seq<char>, n: nat)
    requires
        is_spaced_out(x, y, n),
    ensures
        same_result(parse_document(y), parse_document(x)),
        parse_document(x) is Ok ==> parse_document(y) == parse_document(x),
    decreases n,
{
    if n > 0 {
        let (a, w, b) = choose|a: Seq<char>, w: Seq<char>, b: Seq<char>|
            #![trigger a + w + b]
            x == a + b && all_whitespace(w) && is_token_boundary(a + b, a.len() as int)
                && is_spaced_out(a + w + b, y, (n - 1) as nat);
        theorem_whitespace(a, w, b);
        theorem_whitespace_many(a + w + b, y, (n - 1) as nat);
        lemma_same_result_trans(parse_document(y), parse_document(a + w + b), parse_document(x));
    }
}

} // verus!
