//! What is written can be read again: strings first, then whole values.

use vstd::prelude::*;
use crate::escape::{
    escape_char, escape_spec, hex4, hex_digit, hex_value, high_surrogate, is_high_surrogate,
    is_low_surrogate, is_scalar, low_surrogate, surrogate_code, unicode_escape,
};
use crate::lexer::{
    is_number_char, lemma_lex_end, lemma_matched_len, lemma_number_run, lemma_number_run_end,
    lemma_skip_whitespace_end, lex, lex_at, Lexed, matched_len, number_run_end, prepend,
    scan_escape, scan_string, scan_unicode, scan_unit, ScannedChar, ScannedString, ScannedUnit,
    skip_whitespace_end,
};
use crate::number::{
    all_digits, classify, decimal_text, digit_of, digit_value, digits_value, has_float_mark,
    integer_value, is_digit, is_float_mark, number_text,
};
use crate::parser::{
    advance, after, current, ends_with, lemma_nth_token_end, lemma_parse_value_next,
    lemma_token_start, nth_token, parse_array, parse_document, parse_elements, parse_members,
    parse_object, parse_value, Parsed, token_start,
};
use crate::serializer::{
    quoted, render, render_element, render_elements, render_member, render_members,
};
use crate::text::{has_at, is_whitespace, lemma_has_at_split, lemma_has_at_subrange};
use crate::value::{JsonError, NumberView, TokenView, ValueView};

verus! {

proof fn lemma_hex_digit_value(d: nat)
    requires
        d < 16,
    ensures
        hex_value(hex_digit(d)) == Some(d),
{
}

proof fn lemma_hex_parts(n: u32)
    by (bit_vector)
    requires
        n < 0x10000,
    ensures
        n / 4096 % 16 < 16,
        n / 256 % 16 < 16,
        n / 16 % 16 < 16,
        n % 16 < 16,
        (n / 4096 % 16) * 4096 + (n / 256 % 16) * 256 + (n / 16 % 16) * 16 + n % 16 == n,
{
}

proof fn lemma_scan_unit_digits(t: Seq<char>, q: int, a: nat, b: nat, c: nat, d: nat)
    requires
        a < 16,
        b < 16,
        c < 16,
        d < 16,
        0 <= q,
        q + 4 <= t.len(),
        t[q] == hex_digit(a),
        t[q + 1] == hex_digit(b),
        t[q + 2] == hex_digit(c),
        t[q + 3] == hex_digit(d),
    ensures
        scan_unit(t, q) == (ScannedUnit {
            unit: Some(a * 4096 + b * 256 + c * 16 + d),
            end: q + 4,
        }),
{
    reveal(scan_unit);
    lemma_hex_digit_value(a);
    lemma_hex_digit_value(b);
    lemma_hex_digit_value(c);
    lemma_hex_digit_value(d);
}

proof fn lemma_scan_unit_hex4(t: Seq<char>, q: int, n: nat)
    requires
        n < 0x10000,
        has_at(t, q, hex4(n)),
    ensures
        scan_unit(t, q) == (ScannedUnit { unit: Some(n), end: q + 4 }),
{
    let h = hex4(n);
    assert(t[q + 0] == h[0] && t[q + 1] == h[1] && t[q + 2] == h[2] && t[q + 3] == h[3]);
    let m = n as u32;
    lemma_hex_parts(m);
    lemma_scan_unit_digits(
        t,
        q,
        (m / 4096 % 16) as nat,
        (m / 256 % 16) as nat,
        (m / 16 % 16) as nat,
        (m % 16) as nat,
    );
}

proof fn lemma_scan_backslash(t: Seq<char>, start: int, p: int, c: char, end: int)
    requires
        0 <= p < end <= t.len(),
        t[p] == '\\',
        scan_escape(t, p + 1) == (ScannedChar { ch: Some(c), end }),
    ensures
        scan_string(t, start, p) == prepend(seq![c], scan_string(t, start, end)),
{
}

proof fn lemma_scan_short(t: Seq<char>, p: int, c: char)
    requires
        has_at(t, p, escape_char(c)),
        c == '"' || c == '\\' || c as nat == 0x08 || c as nat == 0x0C || c == '\n' || c == '\r'
            || c == '\t',
    ensures
        t[p] == '\\',
        escape_char(c).len() == 2,
        scan_escape(t, p + 1) == (ScannedChar { ch: Some(c), end: p + 2 }),
{
    let e = escape_char(c);
    assert(t[p + 0] == e[0]);
    assert(t[p + 1] == e[1]);
}

proof fn lemma_scan_single(t: Seq<char>, p: int, c: char)
    requires
        has_at(t, p, unicode_escape(c as nat)),
        c as nat <= 0xFFFF,
    ensures
        t[p] == '\\',
        unicode_escape(c as nat).len() == 6,
        scan_escape(t, p + 1) == (ScannedChar { ch: Some(c), end: p + 6 }),
{
    let n = c as nat;
    let head = seq!['\\', 'u'];
    lemma_has_at_split(t, p, head, hex4(n));
    assert(t[p + 0] == head[0]);
    assert(t[p + 1] == head[1]);
    lemma_scan_unit_hex4(t, p + 2, n);
    reveal(scan_unicode);
    assert(is_scalar(n));
    assert(n as char == c);
}

proof fn lemma_surrogates(n: nat)
    requires
        0xFFFF < n <= 0x10FFFF,
    ensures
        is_high_surrogate(high_surrogate(n)),
        is_low_surrogate(low_surrogate(n)),
        !is_scalar(high_surrogate(n)),
        surrogate_code(high_surrogate(n), low_surrogate(n)) == n,
{
}

proof fn lemma_scan_pair(t: Seq<char>, p: int, c: char)
    requires
        has_at(
            t,
            p,
            unicode_escape(high_surrogate(c as nat)) + unicode_escape(low_surrogate(c as nat)),
        ),
        c as nat > 0xFFFF,
    ensures
        t[p] == '\\',
        (unicode_escape(high_surrogate(c as nat)) + unicode_escape(low_surrogate(c as nat))).len()
            == 12,
        scan_escape(t, p + 1) == (ScannedChar { ch: Some(c), end: p + 12 }),
{
    let n = c as nat;
    let high = high_surrogate(n);
    let low = low_surrogate(n);
    let head = seq!['\\', 'u'];
    lemma_surrogates(n);
    lemma_has_at_split(t, p, unicode_escape(high), unicode_escape(low));
    lemma_has_at_split(t, p, head, hex4(high));
    lemma_has_at_split(t, p + 6, head, hex4(low));
    assert(t[p + 0] == head[0]);
    assert(t[p + 1] == head[1]);
    assert(t[p + 6 + 0] == head[0]);
    assert(t[p + 6 + 1] == head[1]);
    lemma_scan_unit_hex4(t, p + 2, high);
    lemma_scan_unit_hex4(t, p + 8, low);
    let first = scan_unit(t, p + 2);
    let second = scan_unit(t, p + 8);
    assert(scan_unicode(t, p + 2) == (ScannedChar { ch: Some(n as char), end: p + 12 })) by {
        reveal(scan_unicode);
    }
    assert(n as char == c);
}

/// Reading the escape of one character gives that character.
proof fn lemma_scan_one(t: Seq<char>, start: int, p: int, c: char)
    requires
        has_at(t, p, escape_char(c)),
    ensures
        scan_string(t, start, p) == prepend(
            seq![c],
            scan_string(t, start, p + escape_char(c).len()),
        ),
{
    let e = escape_char(c);
    let n = c as nat;
    if c == '"' || c == '\\' || n == 0x08 || n == 0x0C || c == '\n' || c == '\r' || c == '\t' {
        lemma_scan_short(t, p, c);
        lemma_scan_backslash(t, start, p, c, p + 2);
    } else if n <= 0x1F || n == 0x7F || n == 0x2028 || n == 0x2029 {
        lemma_scan_single(t, p, c);
        lemma_scan_backslash(t, start, p, c, p + 6);
    } else if n > 0xFFFF {
        lemma_scan_pair(t, p, c);
        lemma_scan_backslash(t, start, p, c, p + 12);
    } else {
        assert(t[p + 0] == e[0]);
    }
}

/// Reading the escaped form of `s`, with a quote behind it, gives `s`.
pub proof fn lemma_scan_escaped(t: Seq<char>, start: int, p: int, s: Seq<char>)
    requires
        has_at(t, p, escape_spec(s) + seq!['"']),
    ensures
        scan_string(t, start, p) == (ScannedString {
            text: Ok(s),
            end: p + escape_spec(s).len() + 1,
        }),
    decreases s.len(),
{
    lemma_has_at_split(t, p, escape_spec(s), seq!['"']);
    if s.len() == 0 {
        assert(t[p + 0] == seq!['"'][0]);
        assert(s =~= Seq::<char>::empty());
    } else {
        let c = s[0];
        let rest = s.drop_first();
        let e = escape_char(c);
        assert(escape_spec(s) + seq!['"'] =~= e + (escape_spec(rest) + seq!['"']));
        lemma_has_at_split(t, p, e, escape_spec(rest) + seq!['"']);
        lemma_scan_one(t, start, p, c);
        lemma_scan_escaped(t, start, p + e.len(), rest);
        assert(seq![c] + rest =~= s);
        assert(escape_spec(s) == e + escape_spec(rest));
        assert(escape_spec(s).len() == e.len() + escape_spec(rest).len());
    }
}

/// Escaping and reading are inverse to each other: the string literal of any
/// text, read as a token, is that text again, and reading ends behind the
/// closing quote.
pub proof fn theorem_escape_unescape(s: Seq<char>)
    ensures
        lex(quoted(s), 0) == (Lexed {
            token: Ok(TokenView::String(s)),
            end: quoted(s).len() as int,
        }),
{
    let t = quoted(s);
    assert(t =~= seq!['"'] + (escape_spec(s) + seq!['"']));
    assert(has_at(t, 0, t));
    lemma_has_at_split(t, 0, seq!['"'], escape_spec(s) + seq!['"']);
    lemma_scan_escaped(t, 0, 1, s);
    assert(t[0] == '"');
    reveal(lex);
}

/// The numbers that the lexer gives: an unsigned integer only where it is
/// beyond the signed range, and a float only for a literal that begins like a
/// number, is made of the characters of numbers and is no integer of 64 bits.
pub open spec fn is_parsed_number(n: NumberView) -> bool {
    match n {
        NumberView::Integer(_) => true,
        NumberView::UnsignedInteger(u) => u > i64::MAX,
        NumberView::Float(text) => {
            &&& text.len() > 0
            &&& (is_digit(text[0]) || text[0] == '-')
            &&& forall|i: int| 0 <= i < text.len() ==> is_number_char(#[trigger] text[i])
            &&& classify(text) == Some(NumberView::Float(text))
        },
    }
}

/// The values that parsing gives: every number in them is one that the lexer gives.
pub open spec fn is_parsed_value(v: ValueView) -> bool
    decreases v,
{
    match v {
        ValueView::Number(n) => is_parsed_number(n),
        ValueView::Array(items) => forall|i: int|
            0 <= i < items.len() ==> is_parsed_value(#[trigger] items[i]),
        ValueView::Object(members) => forall|i: int|
            0 <= i < members.len() ==> is_parsed_value((#[trigger] members[i]).1),
        _ => true,
    }
}

/// The decimal text of a number is digits that denote it.
pub proof fn lemma_decimal_text(n: nat)
    ensures
        decimal_text(n).len() >= 1,
        all_digits(decimal_text(n)),
        digits_value(decimal_text(n)) == n,
    decreases n,
{
    if n < 10 {
        let s = decimal_text(n);
        assert(s.drop_last() =~= Seq::<char>::empty());
        assert(digits_value(s.drop_last()) == 0);
        assert(digit_value(digit_of(n)) == n);
    } else {
        lemma_decimal_text(n / 10);
        let head = decimal_text(n / 10);
        let s = head.push(digit_of(n % 10));
        assert(s.drop_last() =~= head);
        assert(digit_value(digit_of(n % 10)) == n % 10);
        assert forall|i: int| 0 <= i < s.len() implies is_digit(#[trigger] s[i]) by {
            if i < head.len() {
                assert(s[i] == head[i]);
            }
        }
    }
}

/// The text of a number that the lexer gives is a literal that the lexer
/// reads as that number.
pub proof fn lemma_number_text(n: NumberView)
    requires
        is_parsed_number(n),
    ensures
        number_text(n).len() > 0,
        is_digit(number_text(n)[0]) || number_text(n)[0] == '-',
        forall|i: int|
            0 <= i < number_text(n).len() ==> is_number_char(#[trigger] number_text(n)[i]),
        classify(number_text(n)) == Some(n),
{
    let x = number_text(n);
    match n {
        NumberView::Integer(i) => {
            if i < 0 {
                let m = (-(i as int)) as nat;
                lemma_decimal_text(m);
                let body = decimal_text(m);
                assert(x =~= seq!['-'] + body);
                assert(x.subrange(1, x.len() as int) =~= body);
                assert forall|j: int| 0 <= j < x.len() implies is_number_char(#[trigger] x[j])
                    && !is_float_mark(x[j]) by {
                    if j > 0 {
                        assert(x[j] == body[j - 1]);
                    }
                }
                assert(integer_value(x) == Some(i as int));
            } else {
                lemma_decimal_text(i as nat);
                assert(is_digit(x[0]));
                assert forall|j: int| 0 <= j < x.len() implies is_number_char(#[trigger] x[j])
                    && !is_float_mark(x[j]) by {
                    assert(is_digit(x[j]));
                }
                assert(integer_value(x) == Some(i as int));
            }
            assert(!has_float_mark(x));
        },
        NumberView::UnsignedInteger(u) => {
            lemma_decimal_text(u as nat);
            assert(is_digit(x[0]));
            assert forall|j: int| 0 <= j < x.len() implies is_number_char(#[trigger] x[j])
                && !is_float_mark(x[j]) by {
                assert(is_digit(x[j]));
            }
            assert(integer_value(x) == Some(u as int));
            assert(!has_float_mark(x));
        },
        NumberView::Float(text) => {},
    }
}

/// Where a character that is no whitespace stands, a token begins.
proof fn lemma_lex_here(t: Seq<char>, p: int)
    requires
        0 <= p <= t.len(),
        p < t.len() ==> !is_whitespace(t[p]),
    ensures
        lex(t, p) == lex_at(t, p),
{
    reveal(lex);
}

proof fn lemma_lex_number(t: Seq<char>, p: int, n: NumberView)
    requires
        is_parsed_number(n),
        has_at(t, p, number_text(n)),
        p + number_text(n).len() == t.len() || !is_number_char(t[p + number_text(n).len()]),
    ensures
        lex(t, p) == (Lexed { token: Ok(TokenView::Number(n)), end: p + number_text(n).len() }),
{
    let x = number_text(n);
    let q = p + x.len();
    lemma_number_text(n);
    assert(t[p + 0] == x[0]);
    assert forall|i: int| p <= i < q implies is_number_char(#[trigger] t[i]) by {
        assert(t[p + (i - p)] == x[i - p]);
    }
    lemma_number_run(t, p, q);
    lemma_has_at_subrange(t, p, x);
    lemma_lex_here(t, p);
}

proof fn lemma_lex_string(t: Seq<char>, p: int, s: Seq<char>)
    requires
        has_at(t, p, quoted(s)),
    ensures
        lex(t, p) == (Lexed { token: Ok(TokenView::String(s)), end: p + quoted(s).len() }),
{
    assert(quoted(s) =~= seq!['"'] + (escape_spec(s) + seq!['"']));
    lemma_has_at_split(t, p, seq!['"'], escape_spec(s) + seq!['"']);
    lemma_scan_escaped(t, p, p + 1, s);
    assert(t[p + 0] == seq!['"'][0]);
    lemma_lex_here(t, p);
}

/// At the end of the text, and before a comma or a closing bracket, reading
/// a token does not fail.
proof fn lemma_lex_follower(t: Seq<char>, q: int)
    requires
        is_follower(t, q),
    ensures
        lex(t, q).token is Ok,
{
    lemma_lex_end(t, q);
    if q < t.len() {
        lemma_lex_here(t, q);
    }
}

/// What may stand behind a value in compact text: nothing, a comma or a
/// closing bracket.
pub open spec fn is_follower(t: Seq<char>, q: int) -> bool {
    &&& 0 <= q <= t.len()
    &&& q < t.len() ==> t[q] == ',' || t[q] == ']' || t[q] == '}'
}

proof fn lemma_matched_word(t: Seq<char>, p: int, word: Seq<char>, k: int)
    requires
        has_at(t, p, word),
        0 <= k <= word.len(),
    ensures
        matched_len(t, p, word, k) == word.len(),
    decreases word.len() - k,
{
    if k < word.len() {
        assert(t[p + k] == word[k]);
        lemma_matched_word(t, p, word, k + 1);
    }
}

proof fn lemma_lex_word(t: Seq<char>, p: int, word: Seq<char>, token: TokenView)
    requires
        has_at(t, p, word),
        (word == seq!['t', 'r', 'u', 'e'] && token == TokenView::True) || (word == seq![
            'f',
            'a',
            'l',
            's',
            'e',
        ] && token == TokenView::False) || (word == seq!['n', 'u', 'l', 'l'] && token
            == TokenView::Null),
    ensures
        lex(t, p) == (Lexed { token: Ok(token), end: p + word.len() }),
{
    lemma_matched_word(t, p, word, 0);
    assert(t[p + 0] == word[0]);
    lemma_lex_here(t, p);
}

/// A construct that ends with the `k`-th token, with a follower behind it,
/// is complete: the token behind it can be read.
proof fn lemma_ends_with<T>(t: Seq<char>, k: nat, v: T)
    requires
        is_follower(t, nth_token(t, k).end),
    ensures
        ends_with(t, k, v) == (Parsed { value: Ok(v), next: k + 1 }),
        nth_token(t, k + 1).token is Ok,
{
    lemma_nth_token_end(t, k);
    lemma_lex_follower(t, nth_token(t, k).end);
}

/// One structural character read as a token.
proof fn lemma_lex_mark(t: Seq<char>, p: int)
    requires
        0 <= p < t.len(),
        t[p] == '[' || t[p] == ']' || t[p] == '{' || t[p] == '}' || t[p] == ':' || t[p] == ',',
    ensures
        lex(t, p).end == p + 1,
        t[p] == '[' ==> lex(t, p).token == Ok::<TokenView, JsonError>(TokenView::SquareLeft),
        t[p] == ']' ==> lex(t, p).token == Ok::<TokenView, JsonError>(TokenView::SquareRight),
        t[p] == '{' ==> lex(t, p).token == Ok::<TokenView, JsonError>(TokenView::CurlyLeft),
        t[p] == '}' ==> lex(t, p).token == Ok::<TokenView, JsonError>(TokenView::CurlyRight),
        t[p] == ':' ==> lex(t, p).token == Ok::<TokenView, JsonError>(TokenView::Colon),
        t[p] == ',' ==> lex(t, p).token == Ok::<TokenView, JsonError>(TokenView::Comma),
{
    lemma_lex_here(t, p);
}

/// Parsing the compact text of a value gives the value, and leaves the parser
/// at the token behind the text.
proof fn lemma_parse_rendered(t: Seq<char>, k: nat, v: ValueView, level: nat)
    requires
        is_parsed_value(v),
        has_at(t, token_start(t, k), render(v, level, false)),
        is_follower(t, token_start(t, k) + render(v, level, false).len()),
    ensures
        parse_value(t, k).value == Ok::<ValueView, JsonError>(v),
        nth_token(t, k).token is Ok,
        nth_token(t, parse_value(t, k).next).token is Ok,
        token_start(t, parse_value(t, k).next) == token_start(t, k) + render(v, level, false).len(),
    decreases v, 0nat,
{
    let p = token_start(t, k);
    let r = render(v, level, false);
    lemma_token_start(t, k);
    match v {
        ValueView::Null => {
            lemma_lex_word(t, p, r, TokenView::Null);
            lemma_ends_with(t, k, v);
            lemma_token_start(t, k + 1);
        },
        ValueView::Bool(b) => {
            if b {
                lemma_lex_word(t, p, r, TokenView::True);
            } else {
                lemma_lex_word(t, p, r, TokenView::False);
            }
            lemma_ends_with(t, k, v);
            lemma_token_start(t, k + 1);
        },
        ValueView::Number(n) => {
            lemma_lex_number(t, p, n);
            lemma_ends_with(t, k, v);
            lemma_token_start(t, k + 1);
        },
        ValueView::String(text) => {
            lemma_lex_string(t, p, text);
            lemma_ends_with(t, k, v);
            lemma_token_start(t, k + 1);
        },
        ValueView::Array(items) => {
            lemma_parse_rendered_array(t, k, items, level);
        },
        ValueView::Object(members) => {
            lemma_parse_rendered_object(t, k, members, level);
        },
    }
}

proof fn lemma_array_empty_step(t: Seq<char>, k: nat)
    requires
        nth_token(t, k + 1).token == Ok::<TokenView, JsonError>(TokenView::SquareRight),
        nth_token(t, k + 2).token is Ok,
    ensures
        parse_array(t, k) == (Parsed {
            value: Ok(ValueView::Array(Seq::<ValueView>::empty())),
            next: k + 2,
        }),
{
}

proof fn lemma_array_step(t: Seq<char>, k: nat, items: Seq<ValueView>, next: nat)
    requires
        nth_token(t, k + 1).token is Ok,
        !(current(t, k + 1) is SquareRight),
        k + 1 <= t.len(),
        parse_elements(t, k + 1) == (Parsed { value: Ok(items), next }),
    ensures
        parse_array(t, k) == (Parsed { value: Ok(ValueView::Array(items)), next }),
{
}

proof fn lemma_elements_last(t: Seq<char>, k: nat, v: ValueView, n1: nat)
    requires
        parse_value(t, k) == (Parsed { value: Ok(v), next: n1 }),
        nth_token(t, n1).token == Ok::<TokenView, JsonError>(TokenView::SquareRight),
        nth_token(t, n1 + 1).token is Ok,
    ensures
        parse_elements(t, k) == (Parsed { value: Ok(seq![v]), next: n1 + 1 }),
{
}

proof fn lemma_elements_more(t: Seq<char>, k: nat, v: ValueView, n1: nat)
    requires
        parse_value(t, k) == (Parsed { value: Ok(v), next: n1 }),
        nth_token(t, n1).token == Ok::<TokenView, JsonError>(TokenView::Comma),
        nth_token(t, n1 + 1).token is Ok,
        k < n1 + 1 <= t.len(),
    ensures
        parse_elements(t, k) == after(seq![v], parse_elements(t, n1 + 1)),
{
}

proof fn lemma_elements_text(t: Seq<char>, p: int, items: Seq<ValueView>, i: int, level: nat)
    requires
        0 <= i < items.len(),
        has_at(t, p, render_elements(items, i, level, false) + seq![']']),
    ensures
        has_at(t, p, render(items[i], level, false)),
        p + render(items[i], level, false).len() < t.len(),
        i + 1 == items.len() ==> t[p + render(items[i], level, false).len()] == ']'
            && render_elements(items, i, level, false).len() == render(
            items[i],
            level,
            false,
        ).len(),
        i + 1 < items.len() ==> t[p + render(items[i], level, false).len()] == ',' && has_at(
            t,
            p + render(items[i], level, false).len() + 1,
            render_elements(items, i + 1, level, false) + seq![']'],
        ) && render_elements(items, i, level, false).len() == render(items[i], level, false).len()
            + 1 + render_elements(items, i + 1, level, false).len(),
{
    let item = render(items[i], level, false);
    let body = render_elements(items, i, level, false);
    assert(render_element(items[i], level, false) == item);
    if i + 1 == items.len() {
        assert(body == item);
        lemma_has_at_split(t, p, item, seq![']']);
        assert(t[p + item.len() + 0] == seq![']'][0]);
    } else {
        let tail = render_elements(items, i + 1, level, false);
        assert(body + seq![']'] =~= item + (seq![','] + (tail + seq![']'])));
        lemma_has_at_split(t, p, item, seq![','] + (tail + seq![']']));
        lemma_has_at_split(t, p + item.len(), seq![','], tail + seq![']']);
        assert(t[p + item.len() + 0] == seq![','][0]);
        assert(body.len() == item.len() + 1 + tail.len());
    }
}

proof fn lemma_parse_rendered_array(t: Seq<char>, k: nat, items: Seq<ValueView>, level: nat)
    requires
        is_parsed_value(ValueView::Array(items)),
        has_at(t, token_start(t, k), render(ValueView::Array(items), level, false)),
        is_follower(
            t,
            token_start(t, k) + render(ValueView::Array(items), level, false).len(),
        ),
    ensures
        parse_array(t, k).value == Ok::<ValueView, JsonError>(ValueView::Array(items)),
        nth_token(t, k).token == Ok::<TokenView, JsonError>(TokenView::SquareLeft),
        nth_token(t, parse_array(t, k).next).token is Ok,
        token_start(t, parse_array(t, k).next) == token_start(t, k) + render(
            ValueView::Array(items),
            level,
            false,
        ).len(),
    decreases items, items.len() + 1,
{
    let p = token_start(t, k);
    let v = ValueView::Array(items);
    let r = render(v, level, false);
    lemma_token_start(t, k);
    lemma_token_start(t, k + 1);
    lemma_nth_token_end(t, k);
    assert(t[p + 0] == r[0]);
    lemma_lex_mark(t, p);
    if items.len() == 0 {
        assert(t[p + 1] == r[1]);
        lemma_lex_mark(t, p + 1);
        lemma_token_start(t, k + 2);
        lemma_lex_follower(t, p + 2);
        lemma_array_empty_step(t, k);
        assert(items =~= Seq::<ValueView>::empty());
    } else {
        let body = render_elements(items, 0, level + 1, false);
        assert(r =~= seq!['['] + (body + seq![']']));
        lemma_has_at_split(t, p, seq!['['], body + seq![']']);
        lemma_parse_rendered_elements(t, k + 1, items, 0, level + 1);
        assert(items.subrange(0, items.len() as int) =~= items);
        lemma_array_step(t, k, items, parse_elements(t, k + 1).next);
    }
}

proof fn lemma_parse_rendered_elements(
    t: Seq<char>,
    k: nat,
    items: Seq<ValueView>,
    i: int,
    level: nat,
)
    requires
        0 <= i < items.len(),
        forall|j: int| 0 <= j < items.len() ==> is_parsed_value(#[trigger] items[j]),
        has_at(t, token_start(t, k), render_elements(items, i, level, false) + seq![']']),
        is_follower(
            t,
            token_start(t, k) + render_elements(items, i, level, false).len() + 1,
        ),
    ensures
        parse_elements(t, k).value == Ok::<Seq<ValueView>, JsonError>(
            items.subrange(i, items.len() as int),
        ),
        nth_token(t, k).token is Ok,
        !(current(t, k) is SquareRight),
        nth_token(t, parse_elements(t, k).next).token is Ok,
        token_start(t, parse_elements(t, k).next) == token_start(t, k) + render_elements(
            items,
            i,
            level,
            false,
        ).len() + 1,
    decreases items, items.len() - i,
{
    let p = token_start(t, k);
    let v = items[i];
    let item = render(v, level, false);
    let rest = items.subrange(i, items.len() as int);
    lemma_elements_text(t, p, items, i, level);
    lemma_parse_rendered(t, k, v, level);
    let n1 = parse_value(t, k).next;
    lemma_token_start(t, n1);
    lemma_lex_mark(t, p + item.len());
    lemma_token_start(t, n1 + 1);
    assert(!(current(t, k) is SquareRight));
    if i + 1 == items.len() {
        lemma_lex_follower(t, p + item.len() + 1);
        lemma_elements_last(t, k, v, n1);
        assert(rest =~= seq![v]);
    } else {
        lemma_parse_rendered_elements(t, n1 + 1, items, i + 1, level);
        lemma_parse_value_next(t, k);
        lemma_nth_token_end(t, n1);
        lemma_elements_more(t, k, v, n1);
        assert(seq![v] + items.subrange(i + 1, items.len() as int) =~= rest);
    }
}

proof fn lemma_object_empty_step(t: Seq<char>, k: nat)
    requires
        nth_token(t, k + 1).token == Ok::<TokenView, JsonError>(TokenView::CurlyRight),
        nth_token(t, k + 2).token is Ok,
    ensures
        parse_object(t, k) == (Parsed {
            value: Ok(ValueView::Object(Seq::<(Seq<char>, ValueView)>::empty())),
            next: k + 2,
        }),
{
}

proof fn lemma_object_step(
    t: Seq<char>,
    k: nat,
    members: Seq<(Seq<char>, ValueView)>,
    next: nat,
)
    requires
        nth_token(t, k + 1).token is Ok,
        !(current(t, k + 1) is CurlyRight),
        k + 1 <= t.len(),
        parse_members(t, k + 1) == (Parsed { value: Ok(members), next }),
    ensures
        parse_object(t, k) == (Parsed { value: Ok(ValueView::Object(members)), next }),
{
}

proof fn lemma_members_last(t: Seq<char>, k: nat, key: Seq<char>, v: ValueView, n1: nat)
    requires
        nth_token(t, k).token == Ok::<TokenView, JsonError>(TokenView::String(key)),
        nth_token(t, k + 1).token == Ok::<TokenView, JsonError>(TokenView::Colon),
        nth_token(t, k + 2).token is Ok,
        k + 2 <= t.len(),
        parse_value(t, k + 2) == (Parsed { value: Ok(v), next: n1 }),
        nth_token(t, n1).token == Ok::<TokenView, JsonError>(TokenView::CurlyRight),
        nth_token(t, n1 + 1).token is Ok,
    ensures
        parse_members(t, k) == (Parsed { value: Ok(seq![(key, v)]), next: n1 + 1 }),
{
}

proof fn lemma_members_more(t: Seq<char>, k: nat, key: Seq<char>, v: ValueView, n1: nat)
    requires
        nth_token(t, k).token == Ok::<TokenView, JsonError>(TokenView::String(key)),
        nth_token(t, k + 1).token == Ok::<TokenView, JsonError>(TokenView::Colon),
        nth_token(t, k + 2).token is Ok,
        k + 2 <= t.len(),
        parse_value(t, k + 2) == (Parsed { value: Ok(v), next: n1 }),
        nth_token(t, n1).token == Ok::<TokenView, JsonError>(TokenView::Comma),
        nth_token(t, n1 + 1).token is Ok,
        k < n1 + 1 <= t.len(),
    ensures
        parse_members(t, k) == after(seq![(key, v)], parse_members(t, n1 + 1)),
{
}

proof fn lemma_members_text(
    t: Seq<char>,
    p: int,
    members: Seq<(Seq<char>, ValueView)>,
    i: int,
    level: nat,
)
    requires
        0 <= i < members.len(),
        has_at(t, p, render_members(members, i, level, false) + seq!['}']),
    ensures
        ({
            let name = quoted(members[i].0);
            let item = render(members[i].1, level, false);
            let q = p + name.len() + 1 + item.len();
            let body = render_members(members, i, level, false);
            &&& has_at(t, p, name)
            &&& t[p + name.len()] == ':'
            &&& has_at(t, p + name.len() + 1, item)
            &&& q < t.len()
            &&& i + 1 == members.len() ==> t[q] == '}' && body.len() == name.len() + 1
                + item.len()
            &&& i + 1 < members.len() ==> t[q] == ',' && has_at(
                t,
                q + 1,
                render_members(members, i + 1, level, false) + seq!['}'],
            ) && body.len() == name.len() + 1 + item.len() + 1 + render_members(
                members,
                i + 1,
                level,
                false,
            ).len()
        }),
{
    let key = members[i].0;
    let v = members[i].1;
    let name = quoted(key);
    let item = render(v, level, false);
    let member = render_member(key, v, level, false);
    let body = render_members(members, i, level, false);
    let last = i + 1 == members.len();
    let tail = if last {
        seq!['}']
    } else {
        seq![','] + (render_members(members, i + 1, level, false) + seq!['}'])
    };
    assert(member == name + seq![':'] + item);
    assert(body + seq!['}'] =~= name + (seq![':'] + (item + tail)));
    lemma_has_at_split(t, p, name, seq![':'] + (item + tail));
    lemma_has_at_split(t, p + name.len(), seq![':'], item + tail);
    lemma_has_at_split(t, p + name.len() + 1, item, tail);
    assert(t[p + name.len() + 0] == seq![':'][0]);
    let q = p + name.len() + 1 + item.len();
    assert(t[q + 0] == tail[0]);
    if !last {
        let more = render_members(members, i + 1, level, false);
        lemma_has_at_split(t, q, seq![','], more + seq!['}']);
        assert(body.len() == member.len() + 1 + more.len());
    }
}

proof fn lemma_object_text(
    t: Seq<char>,
    p: int,
    members: Seq<(Seq<char>, ValueView)>,
    level: nat,
)
    requires
        has_at(t, p, render(ValueView::Object(members), level, false)),
    ensures
        0 <= p < t.len(),
        t[p] == '{',
        members.len() == 0 ==> p + 1 < t.len() && t[p + 1] == '}' && render(
            ValueView::Object(members),
            level,
            false,
        ).len() == 2,
        members.len() > 0 ==> has_at(
            t,
            p + 1,
            render_members(members, 0, level + 1, false) + seq!['}'],
        ) && render(ValueView::Object(members), level, false).len() == render_members(
            members,
            0,
            level + 1,
            false,
        ).len() + 2,
{
    let r = render(ValueView::Object(members), level, false);
    assert(t[p + 0] == r[0]);
    if members.len() == 0 {
        assert(t[p + 1] == r[1]);
    } else {
        let body = render_members(members, 0, level + 1, false);
        assert(r =~= seq!['{'] + (body + seq!['}']));
        lemma_has_at_split(t, p, seq!['{'], body + seq!['}']);
    }
}

proof fn lemma_parse_rendered_object(
    t: Seq<char>,
    k: nat,
    members: Seq<(Seq<char>, ValueView)>,
    level: nat,
)
    requires
        is_parsed_value(ValueView::Object(members)),
        has_at(t, token_start(t, k), render(ValueView::Object(members), level, false)),
        is_follower(
            t,
            token_start(t, k) + render(ValueView::Object(members), level, false).len(),
        ),
    ensures
        parse_object(t, k).value == Ok::<ValueView, JsonError>(ValueView::Object(members)),
        nth_token(t, k).token == Ok::<TokenView, JsonError>(TokenView::CurlyLeft),
        nth_token(t, parse_object(t, k).next).token is Ok,
        token_start(t, parse_object(t, k).next) == token_start(t, k) + render(
            ValueView::Object(members),
            level,
            false,
        ).len(),
    decreases members, members.len() + 1,
{
    let p = token_start(t, k);
    lemma_object_text(t, p, members, level);
    assert(nth_token(t, k) == (Lexed { token: Ok(TokenView::CurlyLeft), end: p + 1 })) by {
        lemma_token_start(t, k);
        lemma_lex_mark(t, p);
    }
    assert(token_start(t, k + 1) == p + 1 && k + 1 <= t.len()) by {
        lemma_token_start(t, k);
        lemma_nth_token_end(t, k);
    }
    if members.len() == 0 {
        assert(nth_token(t, k + 1) == (Lexed { token: Ok(TokenView::CurlyRight), end: p + 2 })) by {
            lemma_token_start(t, k + 1);
            lemma_lex_mark(t, p + 1);
        }
        assert(nth_token(t, k + 2).token is Ok && token_start(t, k + 2) == p + 2) by {
            lemma_token_start(t, k + 1);
            lemma_token_start(t, k + 2);
            lemma_lex_follower(t, p + 2);
        }
        lemma_object_empty_step(t, k);
        assert(members =~= Seq::<(Seq<char>, ValueView)>::empty());
    } else {
        assert forall|j: int| 0 <= j < members.len() implies is_parsed_value(
            (#[trigger] members[j]).1,
        ) by {}
        lemma_parse_rendered_members(t, k + 1, members, 0, level + 1);
        assert(members.subrange(0, members.len() as int) =~= members);
        lemma_object_step(t, k, members, parse_members(t, k + 1).next);
    }
}

proof fn lemma_parse_rendered_members(
    t: Seq<char>,
    k: nat,
    members: Seq<(Seq<char>, ValueView)>,
    i: int,
    level: nat,
)
    requires
        0 <= i < members.len(),
        forall|j: int| 0 <= j < members.len() ==> is_parsed_value((#[trigger] members[j]).1),
        has_at(t, token_start(t, k), render_members(members, i, level, false) + seq!['}']),
        is_follower(
            t,
            token_start(t, k) + render_members(members, i, level, false).len() + 1,
        ),
    ensures
        parse_members(t, k).value == Ok::<Seq<(Seq<char>, ValueView)>, JsonError>(
            members.subrange(i, members.len() as int),
        ),
        nth_token(t, k).token is Ok,
        !(current(t, k) is CurlyRight),
        nth_token(t, parse_members(t, k).next).token is Ok,
        token_start(t, parse_members(t, k).next) == token_start(t, k) + render_members(
            members,
            i,
            level,
            false,
        ).len() + 1,
    decreases members, members.len() - i,
{
    let p = token_start(t, k);
    let key = members[i].0;
    let v = members[i].1;
    let name = quoted(key);
    let item = render(v, level, false);
    let rest = members.subrange(i, members.len() as int);
    let q = p + name.len() + 1 + item.len();
    assert(is_parsed_value(members[i].1));
    lemma_members_text(t, p, members, i, level);
    assert(nth_token(t, k) == (Lexed { token: Ok(TokenView::String(key)), end: p + name.len() }))
        by {
        lemma_token_start(t, k);
        lemma_lex_string(t, p, key);
    }
    assert(nth_token(t, k + 1) == (Lexed { token: Ok(TokenView::Colon), end: p + name.len() + 1 }))
        by {
        lemma_token_start(t, k);
        lemma_token_start(t, k + 1);
        lemma_lex_mark(t, p + name.len());
    }
    assert(token_start(t, k + 2) == p + name.len() + 1 && k + 2 <= t.len()) by {
        lemma_token_start(t, k + 1);
        lemma_nth_token_end(t, k + 1);
    }
    lemma_parse_rendered(t, k + 2, v, level);
    let n1 = parse_value(t, k + 2).next;
    assert(parse_value(t, k + 2) == (Parsed { value: Ok(v), next: n1 }));
    assert(nth_token(t, n1).end == q + 1 && (i + 1 == members.len() ==> nth_token(t, n1).token
        == Ok::<TokenView, JsonError>(TokenView::CurlyRight)) && (i + 1 < members.len()
        ==> nth_token(t, n1).token == Ok::<TokenView, JsonError>(TokenView::Comma))) by {
        lemma_token_start(t, n1);
        lemma_lex_mark(t, q);
    }
    assert(token_start(t, n1 + 1) == q + 1) by {
        lemma_token_start(t, n1);
    }
    if i + 1 == members.len() {
        assert(nth_token(t, n1 + 1).token is Ok) by {
            lemma_token_start(t, n1 + 1);
            lemma_lex_follower(t, q + 1);
        }
        lemma_members_last(t, k, key, v, n1);
        assert(rest =~= seq![(key, v)]);
    } else {
        lemma_parse_rendered_members(t, n1 + 1, members, i + 1, level);
        assert(k < n1 + 1 <= t.len()) by {
            lemma_parse_value_next(t, k + 2);
            lemma_nth_token_end(t, n1);
        }
        lemma_members_more(t, k, key, v, n1);
        assert(seq![(key, v)] + members.subrange(i + 1, members.len() as int) =~= rest);
    }
}

proof fn lemma_classify_parsed(x: Seq<char>, n: NumberView)
    requires
        classify(x) == Some(n),
        x.len() > 0,
        is_digit(x[0]) || x[0] == '-',
        forall|i: int| 0 <= i < x.len() ==> is_number_char(#[trigger] x[i]),
    ensures
        is_parsed_number(n),
{
}

/// A number token is a number that the lexer gives.
proof fn lemma_lexed_number(s: Seq<char>, i: int, n: NumberView)
    requires
        0 <= i <= s.len(),
        lex(s, i).token == Ok::<TokenView, JsonError>(TokenView::Number(n)),
    ensures
        is_parsed_number(n),
{
    reveal(lex);
    lemma_skip_whitespace_end(s, i);
    let j = skip_whitespace_end(s, i);
    lemma_number_run_end(s, j);
    let end = number_run_end(s, j);
    let x = s.subrange(j, end);
    assert(j < s.len());
    let c = s[j];
    assert(is_digit(c) || c == '-') by {
        lemma_matched_len(s, j, seq!['t', 'r', 'u', 'e'], 0);
        lemma_matched_len(s, j, seq!['f', 'a', 'l', 's', 'e'], 0);
        lemma_matched_len(s, j, seq!['n', 'u', 'l', 'l'], 0);
    }
    assert(x.len() > 0 && x[0] == c);
    assert forall|m: int| 0 <= m < x.len() implies is_number_char(#[trigger] x[m]) by {
        assert(x[m] == s[j + m]);
    }
    lemma_classify_parsed(x, n);
}

proof fn lemma_token_number(s: Seq<char>, k: nat, n: NumberView)
    requires
        nth_token(s, k).token == Ok::<TokenView, JsonError>(TokenView::Number(n)),
    ensures
        is_parsed_number(n),
{
    lemma_token_start(s, k);
    lemma_lexed_number(s, token_start(s, k), n);
}

/// Every value that parsing gives is one whose numbers the lexer gives.
pub proof fn lemma_parse_value_parsed(s: Seq<char>, k: nat)
    ensures
        parse_value(s, k).value is Ok ==> is_parsed_value(parse_value(s, k).value->Ok_0),
    decreases s.len() - k, 2nat,
{
    match nth_token(s, k).token {
        Ok(TokenView::Number(n)) => {
            lemma_token_number(s, k, n);
        },
        Ok(TokenView::SquareLeft) => {
            lemma_parse_array_parsed(s, k);
        },
        Ok(TokenView::CurlyLeft) => {
            lemma_parse_object_parsed(s, k);
        },
        _ => {},
    }
}

proof fn lemma_parse_array_parsed(s: Seq<char>, k: nat)
    ensures
        parse_array(s, k).value is Ok ==> is_parsed_value(parse_array(s, k).value->Ok_0),
    decreases s.len() - k, 1nat,
{
    if advance(s, k) is Ok && !(current(s, k + 1) is SquareRight) && k + 1 <= s.len() {
        lemma_parse_elements_parsed(s, k + 1);
    }
}

proof fn lemma_parse_elements_parsed(s: Seq<char>, k: nat)
    ensures
        parse_elements(s, k).value is Ok ==> forall|i: int|
            0 <= i < parse_elements(s, k).value->Ok_0.len() ==> is_parsed_value(
                #[trigger] parse_elements(s, k).value->Ok_0[i],
            ),
    decreases s.len() - k, 3nat,
{
    lemma_parse_value_parsed(s, k);
    let first = parse_value(s, k);
    if first.value is Ok && current(s, first.next) is Comma && advance(s, first.next) is Ok {
        let k2 = first.next + 1;
        if k < k2 <= s.len() {
            lemma_parse_elements_parsed(s, k2 as nat);
            let tail = parse_elements(s, k2 as nat).value;
            if tail is Ok {
                let all = seq![first.value->Ok_0] + tail->Ok_0;
                assert(parse_elements(s, k).value == Ok::<Seq<ValueView>, JsonError>(all));
                assert forall|i: int| 0 <= i < all.len() implies is_parsed_value(
                    #[trigger] all[i],
                ) by {
                    if i > 0 {
                        assert(all[i] == tail->Ok_0[i - 1]);
                    }
                }
            }
        }
    }
}

proof fn lemma_parse_object_parsed(s: Seq<char>, k: nat)
    ensures
        parse_object(s, k).value is Ok ==> is_parsed_value(parse_object(s, k).value->Ok_0),
    decreases s.len() - k, 1nat,
{
    if advance(s, k) is Ok && !(current(s, k + 1) is CurlyRight) && k + 1 <= s.len() {
        lemma_parse_members_parsed(s, k + 1);
    }
}

proof fn lemma_parse_members_parsed(s: Seq<char>, k: nat)
    ensures
        parse_members(s, k).value is Ok ==> forall|i: int|
            0 <= i < parse_members(s, k).value->Ok_0.len() ==> is_parsed_value(
                (#[trigger] parse_members(s, k).value->Ok_0[i]).1,
            ),
    decreases s.len() - k, 3nat,
{
    if nth_token(s, k).token is Ok && current(s, k) is String && advance(s, k) is Ok && current(
        s,
        k + 1,
    ) is Colon && advance(s, k + 1) is Ok && k + 2 <= s.len() {
        let key = current(s, k)->String_0;
        let k2 = k + 2;
        lemma_parse_value_parsed(s, k2);
        let val = parse_value(s, k2);
        if val.value is Ok && current(s, val.next) is Comma && advance(s, val.next) is Ok {
            let k3 = val.next + 1;
            if k < k3 <= s.len() {
                lemma_parse_members_parsed(s, k3 as nat);
                let tail = parse_members(s, k3 as nat).value;
                if tail is Ok {
                    let all = seq![(key, val.value->Ok_0)] + tail->Ok_0;
                    assert(parse_members(s, k).value == Ok::<
                        Seq<(Seq<char>, ValueView)>,
                        JsonError,
                    >(all));
                    assert forall|i: int| 0 <= i < all.len() implies is_parsed_value(
                        (#[trigger] all[i]).1,
                    ) by {
                        if i > 0 {
                            assert(all[i] == tail->Ok_0[i - 1]);
                        }
                    }
                }
            }
        }
    }
}

/// Every value that a whole text is parsed to is one whose numbers the lexer gives.
pub proof fn lemma_parse_document_parsed(s: Seq<char>)
    ensures
        parse_document(s) is Ok ==> is_parsed_value(parse_document(s)->Ok_0),
{
    lemma_parse_value_parsed(s, 0);
}

/// The compact text of a value whose numbers the lexer gives is parsed to
/// that value.
pub proof fn lemma_round_trip_value(v: ValueView)
    requires
        is_parsed_value(v),
    ensures
        parse_document(render(v, 0, false)) == Ok::<ValueView, JsonError>(v),
{
    let t = render(v, 0, false);
    assert(has_at(t, 0, t));
    lemma_parse_rendered(t, 0, v, 0);
    let n = parse_value(t, 0).next;
    lemma_token_start(t, n);
    lemma_lex_end(t, t.len() as int);
}

/// Round trip: where parsing a text gives a value, parsing the compact text
/// of that value gives the same value.
pub proof fn theorem_round_trip(s: Seq<char>)
    requires
        parse_document(s) is Ok,
    ensures
        parse_document(render(parse_document(s)->Ok_0, 0, false)) == parse_document(s),
{
    lemma_parse_document_parsed(s);
    lemma_round_trip_value(parse_document(s)->Ok_0);
}

} // verus!
