//! Number literals: which of the three kinds a literal is, and the decimal
//! text of an integer.

use vstd::prelude::*;
use vstd::string::StringExecFns;
use crate::text::{chars_of, push_char};
use crate::value::{JsonError, JsonNumber, NumberView};

verus! {

pub open spec fn is_digit(c: char) -> bool {
    '0' <= c && c <= '9'
}

pub open spec fn digit_value(c: char) -> nat {
    (c as int - '0' as int) as nat
}

pub open spec fn all_digits(s: Seq<char>) -> bool {
    forall|i: int| 0 <= i < s.len() ==> is_digit(#[trigger] s[i])
}

/// The number that a run of decimal digits denotes.
pub open spec fn digits_value(s: Seq<char>) -> nat
    decreases s.len(),
{
    if s.len() == 0 {
        0
    } else {
        digits_value(s.drop_last()) * 10 + digit_value(s.last())
    }
}

/// The integer that `s` denotes: one optional sign, then at least one digit
/// and nothing else.
pub open spec fn integer_value(s: Seq<char>) -> Option<int> {
    if s.len() > 0 && (s[0] == '-' || s[0] == '+') {
        let body = s.subrange(1, s.len() as int);
        if body.len() > 0 && all_digits(body) {
            if s[0] == '-' {
                Some(-(digits_value(body) as int))
            } else {
                Some(digits_value(body) as int)
            }
        } else {
            None
        }
    } else if s.len() > 0 && all_digits(s) {
        Some(digits_value(s) as int)
    } else {
        None
    }
}

/// `s` read as a signed 64-bit integer, where it is one.
pub open spec fn i64_of(s: Seq<char>) -> Option<i64> {
    match integer_value(s) {
        Some(v) => if i64::MIN <= v <= i64::MAX {
            Some(v as i64)
        } else {
            None
        },
        None => None,
    }
}

/// `s` read as an unsigned 64-bit integer, where it is one. A minus sign is
/// never accepted, not even before zero.
pub open spec fn u64_of(s: Seq<char>) -> Option<u64> {
    if s.len() > 0 && s[0] == '-' {
        None
    } else {
        match integer_value(s) {
            Some(v) => if v <= u64::MAX {
                Some(v as u64)
            } else {
                None
            },
            None => None,
        }
    }
}

/// The index behind the longest run of digits that starts at `i`.
pub open spec fn digit_run_end(s: Seq<char>, i: int) -> int
    decreases s.len() - i,
{
    if 0 <= i < s.len() && is_digit(s[i]) {
        digit_run_end(s, i + 1)
    } else {
        i
    }
}

pub open spec fn is_sign(c: char) -> bool {
    c == '+' || c == '-'
}

pub open spec fn same_letter(c: char, lower: char, upper: char) -> bool {
    c == lower || c == upper
}

/// `inf`, `infinity` or `nan`, in any mix of upper and lower case.
pub open spec fn is_special_float(t: Seq<char>) -> bool {
    ||| {
        &&& t.len() == 3
        &&& same_letter(t[0], 'i', 'I')
        &&& same_letter(t[1], 'n', 'N')
        &&& same_letter(t[2], 'f', 'F')
    }
    ||| {
        &&& t.len() == 3
        &&& same_letter(t[0], 'n', 'N')
        &&& same_letter(t[1], 'a', 'A')
        &&& same_letter(t[2], 'n', 'N')
    }
    ||| {
        &&& t.len() == 8
        &&& same_letter(t[0], 'i', 'I')
        &&& same_letter(t[1], 'n', 'N')
        &&& same_letter(t[2], 'f', 'F')
        &&& same_letter(t[3], 'i', 'I')
        &&& same_letter(t[4], 'n', 'N')
        &&& same_letter(t[5], 'i', 'I')
        &&& same_letter(t[6], 't', 'T')
        &&& same_letter(t[7], 'y', 'Y')
    }
}

/// From `start` on, `s` is digits with at most one point among them, at least
/// one digit in all, and then nothing or an exponent: `e` or `E`, an optional
/// sign and at least one digit.
pub open spec fn is_decimal_float(s: Seq<char>, start: int) -> bool {
    let int_end = digit_run_end(s, start);
    let has_point = int_end < s.len() && s[int_end] == '.';
    let frac_end = if has_point {
        digit_run_end(s, int_end + 1)
    } else {
        int_end
    };
    let digits = if has_point {
        frac_end - start - 1
    } else {
        frac_end - start
    };
    &&& digits > 0
    &&& frac_end == s.len() || {
        &&& frac_end < s.len()
        &&& (s[frac_end] == 'e' || s[frac_end] == 'E')
        &&& {
            let exp_start = if frac_end + 1 < s.len() && is_sign(s[frac_end + 1]) {
                frac_end + 2
            } else {
                frac_end + 1
            };
            let exp_end = digit_run_end(s, exp_start);
            exp_end > exp_start && exp_end == s.len()
        }
    }
}

/// The grammar of a floating-point literal: an optional sign, then one of the
/// three special words or a decimal number with an optional exponent.
pub open spec fn is_float_literal(s: Seq<char>) -> bool {
    let start: int = if s.len() > 0 && is_sign(s[0]) {
        1
    } else {
        0
    };
    is_special_float(s.subrange(start, s.len() as int)) || is_decimal_float(s, start)
}

/// A literal with a point or an exponent mark is never tried as an integer.
pub open spec fn has_float_mark(s: Seq<char>) -> bool {
    exists|i: int| 0 <= i < s.len() && is_float_mark(#[trigger] s[i])
}

pub open spec fn is_float_mark(c: char) -> bool {
    c == '.' || c == 'e' || c == 'E'
}

/// The kind and value of a literal, or `None` where it is no number. The three
/// kinds are tried in this order: signed integer, unsigned integer (never
/// behind a minus sign), floating point.
pub open spec fn classify(s: Seq<char>) -> Option<NumberView> {
    if s.len() == 0 {
        None
    } else if !has_float_mark(s) && i64_of(s) is Some {
        Some(NumberView::Integer(i64_of(s)->0))
    } else if !has_float_mark(s) && s[0] != '-' && u64_of(s) is Some {
        Some(NumberView::UnsignedInteger(u64_of(s)->0))
    } else if is_float_literal(s) {
        Some(NumberView::Float(s))
    } else {
        None
    }
}

pub open spec fn digit_of(d: nat) -> char {
    ('0' as nat + d) as char
}

/// The decimal digits of `n`, without leading zeros.
pub open spec fn decimal_text(n: nat) -> Seq<char>
    decreases n,
{
    if n < 10 {
        seq![digit_of(n)]
    } else {
        decimal_text(n / 10).push(digit_of(n % 10))
    }
}

/// The text of a signed integer: a minus sign where it is negative.
pub open spec fn signed_text(v: int) -> Seq<char> {
    if v < 0 {
        seq!['-'] + decimal_text((-v) as nat)
    } else {
        decimal_text(v as nat)
    }
}

/// The text of a number: the digits of an integer, the literal of a float.
pub open spec fn number_text(n: NumberView) -> Seq<char> {
    match n {
        NumberView::Integer(i) => signed_text(i as int),
        NumberView::UnsignedInteger(u) => decimal_text(u as nat),
        NumberView::Float(text) => text,
    }
}

/// The digits at the beginning of a run denote no more than the whole run.
pub proof fn lemma_digits_value_prefix(s: Seq<char>, k: int)
    requires
        0 <= k <= s.len(),
    ensures
        digits_value(s.take(k)) <= digits_value(s),
    decreases s.len() - k,
{
    if k < s.len() {
        lemma_digits_value_prefix(s, k + 1);
        assert(s.take(k + 1).drop_last() =~= s.take(k));
    } else {
        assert(s.take(k) =~= s);
    }
}

/// One more digit: ten times the value, and the digit.
pub proof fn lemma_digits_value_push(s: Seq<char>, c: char)
    ensures
        digits_value(s.push(c)) == digits_value(s) * 10 + digit_value(c),
{
    assert(s.push(c).drop_last() =~= s);
}

fn is_ascii_digit(c: char) -> (r: bool)
    ensures
        r == is_digit(c),
{
    c >= '0' && c <= '9'
}

/// The value of the digits from `start` to the end, where there is at least
/// one, all are digits and the value fits.
fn magnitude(chars: &Vec<char>, start: usize) -> (r: Option<u64>)
    requires
        start <= chars.len(),
    ensures
        ({
            let body = chars@.subrange(start as int, chars.len() as int);
            r == if body.len() > 0 && all_digits(body) && digits_value(body) <= u64::MAX {
                Some(digits_value(body) as u64)
            } else {
                None
            }
        }),
{
    let ghost body = chars@.subrange(start as int, chars.len() as int);
    if start == chars.len() {
        return None;
    }
    let mut acc: u64 = 0;
    let mut i: usize = start;
    while i < chars.len()
        invariant
            start <= i <= chars.len(),
            body == chars@.subrange(start as int, chars.len() as int),
            all_digits(body.take(i - start)),
            acc == digits_value(body.take(i - start)),
        decreases chars.len() - i,
    {
        let c = chars[i];
        assert(body[i - start] == c);
        if !is_ascii_digit(c) {
            return None;
        }
        let d: u64 = (c as u32 - '0' as u32) as u64;
        proof {
            assert(body.take(i - start + 1) =~= body.take(i - start).push(c));
            lemma_digits_value_push(body.take(i - start), c);
            lemma_digits_value_prefix(body, i - start + 1);
        }
        let next = match acc.checked_mul(10) {
            Some(m) => m.checked_add(d),
            None => None,
        };
        match next {
            Some(n) => {
                acc = n;
            },
            None => {
                return None;
            },
        }
        i += 1;
    }
    assert(body.take(i - start) =~= body);
    Some(acc)
}

fn parse_i64(chars: &Vec<char>) -> (r: Option<i64>)
    ensures
        r == i64_of(chars@),
{
    if chars.len() == 0 {
        return None;
    }
    let first = chars[0];
    if first == '-' {
        match magnitude(chars, 1) {
            Some(m) => if m <= 0x7fff_ffff_ffff_ffff {
                Some(-(m as i64))
            } else if m == 0x8000_0000_0000_0000 {
                Some(i64::MIN)
            } else {
                None
            },
            None => None,
        }
    } else {
        let start: usize = if first == '+' {
            1
        } else {
            0
        };
        proof {
            if start == 0 {
                assert(chars@.subrange(0, chars.len() as int) =~= chars@);
            }
        }
        match magnitude(chars, start) {
            Some(m) => if m <= 0x7fff_ffff_ffff_ffff {
                Some(m as i64)
            } else {
                None
            },
            None => None,
        }
    }
}

fn parse_u64(chars: &Vec<char>) -> (r: Option<u64>)
    ensures
        r == u64_of(chars@),
{
    if chars.len() == 0 {
        return None;
    }
    let first = chars[0];
    if first == '-' {
        return None;
    }
    let start: usize = if first == '+' {
        1
    } else {
        0
    };
    proof {
        if start == 0 {
            assert(chars@.subrange(0, chars.len() as int) =~= chars@);
        }
    }
    magnitude(chars, start)
}

fn digit_run(chars: &Vec<char>, start: usize) -> (end: usize)
    requires
        start <= chars.len(),
    ensures
        end == digit_run_end(chars@, start as int),
        start <= end <= chars.len(),
{
    let mut i: usize = start;
    while i < chars.len() && is_ascii_digit(chars[i])
        invariant
            start <= i <= chars.len(),
            digit_run_end(chars@, start as int) == digit_run_end(chars@, i as int),
        decreases chars.len() - i,
    {
        i += 1;
    }
    i
}

fn letter(c: char, lower: char, upper: char) -> (r: bool)
    ensures
        r == same_letter(c, lower, upper),
{
    c == lower || c == upper
}

fn special_float(chars: &Vec<char>, start: usize) -> (r: bool)
    requires
        start <= chars.len(),
    ensures
        r == is_special_float(chars@.subrange(start as int, chars.len() as int)),
{
    let ghost t = chars@.subrange(start as int, chars.len() as int);
    let n = chars.len() - start;
    if n == 3 {
        assert(t[0] == chars[start as int] && t[1] == chars[start + 1] && t[2] == chars[start + 2]);
        let a = chars[start];
        let b = chars[start + 1];
        let c = chars[start + 2];
        (letter(a, 'i', 'I') && letter(b, 'n', 'N') && letter(c, 'f', 'F')) || (letter(a, 'n', 'N')
            && letter(b, 'a', 'A') && letter(c, 'n', 'N'))
    } else if n == 8 {
        assert(t[0] == chars[start as int] && t[1] == chars[start + 1] && t[2] == chars[start + 2]
            && t[3] == chars[start + 3] && t[4] == chars[start + 4] && t[5] == chars[start + 5]
            && t[6] == chars[start + 6] && t[7] == chars[start + 7]);
        letter(chars[start], 'i', 'I') && letter(chars[start + 1], 'n', 'N') && letter(
            chars[start + 2],
            'f',
            'F',
        ) && letter(chars[start + 3], 'i', 'I') && letter(chars[start + 4], 'n', 'N') && letter(
            chars[start + 5],
            'i',
            'I',
        ) && letter(chars[start + 6], 't', 'T') && letter(chars[start + 7], 'y', 'Y')
    } else {
        false
    }
}

fn decimal_float(chars: &Vec<char>, start: usize) -> (r: bool)
    requires
        start <= chars.len(),
    ensures
        r == is_decimal_float(chars@, start as int),
{
    let len = chars.len();
    let int_end = digit_run(chars, start);
    let has_point = int_end < len && chars[int_end] == '.';
    let frac_end = if has_point {
        digit_run(chars, int_end + 1)
    } else {
        int_end
    };
    let digits = if has_point {
        frac_end - start - 1
    } else {
        frac_end - start
    };
    if digits == 0 {
        return false;
    }
    if frac_end == len {
        return true;
    }
    if !(chars[frac_end] == 'e' || chars[frac_end] == 'E') {
        return false;
    }
    let exp_start = if frac_end + 1 < len && (chars[frac_end + 1] == '+' || chars[frac_end + 1]
        == '-') {
        frac_end + 2
    } else {
        frac_end + 1
    };
    let exp_end = digit_run(chars, exp_start);
    exp_end > exp_start && exp_end == len
}

fn float_literal(chars: &Vec<char>) -> (r: bool)
    ensures
        r == is_float_literal(chars@),
{
    let start: usize = if chars.len() > 0 && (chars[0] == '+' || chars[0] == '-') {
        1
    } else {
        0
    };
    special_float(chars, start) || decimal_float(chars, start)
}

fn float_mark(chars: &Vec<char>) -> (r: bool)
    ensures
        r == has_float_mark(chars@),
{
    let mut i: usize = 0;
    while i < chars.len()
        invariant
            i <= chars.len(),
            forall|j: int| 0 <= j < i ==> !is_float_mark(#[trigger] chars@[j]),
        decreases chars.len() - i,
    {
        let c = chars[i];
        if c == '.' || c == 'e' || c == 'E' {
            return true;
        }
        i += 1;
    }
    false
}

/// Tells the kind of a numeric literal and converts it.
pub struct NumberParser;

impl NumberParser {
    /// The number that the literal `s` denotes. A literal that is none of the
    /// three kinds is refused; the error carries no position.
    pub fn parse(s: &str) -> (r: Result<JsonNumber, JsonError>)
        ensures
            match classify(s@) {
                Some(n) => r matches Ok(v) && v@ == n,
                None => r == Err::<JsonNumber, JsonError>(
                    JsonError::InvalidNumber { line: 0, col: 0 },
                ),
            },
    {
        let chars = chars_of(s);
        if chars.len() == 0 {
            return Err(JsonError::InvalidNumber { line: 0, col: 0 });
        }
        if !float_mark(&chars) {
            if let Some(i) = parse_i64(&chars) {
                return Ok(JsonNumber::Integer(i));
            }
            if chars[0] != '-' {
                if let Some(u) = parse_u64(&chars) {
                    return Ok(JsonNumber::UnsignedInteger(u));
                }
            }
        }
        if float_literal(&chars) {
            Ok(JsonNumber::Float(s.to_owned()))
        } else {
            Err(JsonError::InvalidNumber { line: 0, col: 0 })
        }
    }
}

fn digit_to_char(d: u64) -> (c: char)
    requires
        d < 10,
    ensures
        c == digit_of(d as nat),
{
    (48u8 + d as u8) as char
}

/// Appends the decimal digits of `n`.
pub(crate) fn push_decimal(out: &mut String, n: u64)
    ensures
        final(out)@ == old(out)@ + decimal_text(n as nat),
    decreases n,
{
    if n >= 10 {
        push_decimal(out, n / 10);
    }
    push_char(out, digit_to_char(n % 10));
    proof {
        let d = seq![digit_of((n % 10) as nat)];
        if n >= 10 {
            assert(final(out)@ =~= old(out)@ + decimal_text((n / 10) as nat).push(d[0]));
        } else {
            assert(final(out)@ =~= old(out)@ + d);
        }
    }
}

/// Appends the text of a signed integer.
pub(crate) fn push_signed(out: &mut String, v: i64)
    ensures
        final(out)@ == old(out)@ + signed_text(v as int),
{
    if v < 0 {
        push_char(out, '-');
        let m: u64 = if v == i64::MIN {
            0x8000_0000_0000_0000
        } else {
            (-v) as u64
        };
        push_decimal(out, m);
        assert(final(out)@ =~= old(out)@ + (seq!['-'] + decimal_text((-v) as nat)));
    } else {
        push_decimal(out, v as u64);
    }
}

impl JsonNumber {
    /// The same reading of a literal as `NumberParser::parse`.
    pub fn from_str_simple(s: &str) -> (r: Result<JsonNumber, JsonError>)
        ensures
            match classify(s@) {
                Some(n) => r matches Ok(v) && v@ == n,
                None => r == Err::<JsonNumber, JsonError>(
                    JsonError::InvalidNumber { line: 0, col: 0 },
                ),
            },
    {
        NumberParser::parse(s)
    }

    /// The text of the number as it stands in a JSON document.
    pub fn to_string(&self) -> (r: String)
        ensures
            r@ == number_text(self@),
    {
        let mut out = String::new();
        match self {
            JsonNumber::Integer(i) => {
                push_signed(&mut out, *i);
            },
            JsonNumber::UnsignedInteger(u) => {
                push_decimal(&mut out, *u);
            },
            JsonNumber::Float(text) => {
                out.append(text.as_str());
            },
        }
        out
    }
}

} // verus!
