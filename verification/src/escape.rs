//! The escape syntax of JSON strings, in both directions.

use vstd::prelude::*;
use vstd::string::StringExecFns;
use crate::number::digit_of;
use crate::text::{chars_of, push_char};
use crate::value::JsonError;

verus! {

/// A code point that a character can hold: up to 0x10FFFF, and no surrogate.
pub open spec fn is_scalar(n: nat) -> bool {
    n < 0xD800 || (0xE000 <= n && n <= 0x10FFFF)
}

pub open spec fn is_high_surrogate(n: nat) -> bool {
    0xD800 <= n && n <= 0xDBFF
}

pub open spec fn is_low_surrogate(n: nat) -> bool {
    0xDC00 <= n && n <= 0xDFFF
}

/// The lower-case hexadecimal digit for a value below sixteen.
pub open spec fn hex_digit(d: nat) -> char {
    if d < 10 {
        digit_of(d)
    } else {
        ('a' as nat + d - 10) as char
    }
}

/// The value of a hexadecimal digit of either case.
pub open spec fn hex_value(c: char) -> Option<nat> {
    if '0' <= c && c <= '9' {
        Some((c as int - '0' as int) as nat)
    } else if 'a' <= c && c <= 'f' {
        Some((c as int - 'a' as int + 10) as nat)
    } else if 'A' <= c && c <= 'F' {
        Some((c as int - 'A' as int + 10) as nat)
    } else {
        None
    }
}

/// Four hexadecimal digits for a value below 0x10000.
pub open spec fn hex4(n: nat) -> Seq<char> {
    seq![
        hex_digit(n / 4096 % 16),
        hex_digit(n / 256 % 16),
        hex_digit(n / 16 % 16),
        hex_digit(n % 16),
    ]
}

/// The value of four hexadecimal digits, or `None` where `hex` is anything else.
pub open spec fn hex4_value(hex: Seq<char>) -> Option<nat> {
    if hex.len() == 4 && hex_value(hex[0]) is Some && hex_value(hex[1]) is Some && hex_value(
        hex[2],
    ) is Some && hex_value(hex[3]) is Some {
        Some(
            hex_value(hex[0])->0 * 4096 + hex_value(hex[1])->0 * 256 + hex_value(hex[2])->0 * 16
                + hex_value(hex[3])->0,
        )
    } else {
        None
    }
}

/// A backslash, `u` and four hexadecimal digits.
pub open spec fn unicode_escape(n: nat) -> Seq<char> {
    seq!['\\', 'u'] + hex4(n)
}

/// The first half of the UTF-16 pair of a code point above 0xFFFF.
pub open spec fn high_surrogate(code: nat) -> nat {
    (0xD800 + (code - 0x10000) / 1024) as nat
}

/// The second half of that pair.
pub open spec fn low_surrogate(code: nat) -> nat {
    (0xDC00 + (code - 0x10000) % 1024) as nat
}

/// The code point that a pair of surrogates stands for.
pub open spec fn surrogate_code(high: nat, low: nat) -> nat {
    (0x10000 + (high - 0xD800) * 1024 + (low - 0xDC00)) as nat
}

/// Whether a character cannot stand in a JSON string as it is.
pub open spec fn needs_escape(c: char) -> bool {
    c == '"' || c == '\\' || c as u32 <= 0x1F || c as u32 == 0x7F || c as u32 == 0x2028 || c as u32
        == 0x2029 || c as u32 > 0xFFFF
}

/// What stands for one character inside a JSON string.
pub open spec fn escape_char(c: char) -> Seq<char> {
    if c == '"' {
        seq!['\\', '"']
    } else if c == '\\' {
        seq!['\\', '\\']
    } else if c as u32 == 0x08 {
        seq!['\\', 'b']
    } else if c as u32 == 0x0C {
        seq!['\\', 'f']
    } else if c == '\n' {
        seq!['\\', 'n']
    } else if c == '\r' {
        seq!['\\', 'r']
    } else if c == '\t' {
        seq!['\\', 't']
    } else if c as u32 <= 0x1F || c as u32 == 0x7F || c as u32 == 0x2028 || c as u32 == 0x2029 {
        unicode_escape(c as nat)
    } else if c as u32 > 0xFFFF {
        unicode_escape(high_surrogate(c as nat)) + unicode_escape(low_surrogate(c as nat))
    } else {
        seq![c]
    }
}

/// The body of the JSON string that holds `s`, without the quotes round it.
pub open spec fn escape_spec(s: Seq<char>) -> Seq<char>
    decreases s.len(),
{
    if s.len() == 0 {
        Seq::empty()
    } else {
        escape_char(s[0]) + escape_spec(s.drop_first())
    }
}

pub open spec fn needs_escaping_spec(s: Seq<char>) -> bool {
    exists|i: int| 0 <= i < s.len() && needs_escape(#[trigger] s[i])
}

/// The character that a backslash and `c` stand for, for the eight escapes of
/// one character.
pub open spec fn unescape_char_spec(c: char) -> Option<char> {
    if c == '"' {
        Some('"')
    } else if c == '\\' {
        Some('\\')
    } else if c == '/' {
        Some('/')
    } else if c == 'b' {
        Some('\u{8}')
    } else if c == 'f' {
        Some('\u{c}')
    } else if c == 'n' {
        Some('\n')
    } else if c == 'r' {
        Some('\r')
    } else if c == 't' {
        Some('\t')
    } else {
        None
    }
}

/// The character that four hexadecimal digits name, where they name one.
pub open spec fn unicode_hex_spec(hex: Seq<char>) -> Option<char> {
    match hex4_value(hex) {
        Some(n) => if is_scalar(n) {
            Some(n as char)
        } else {
            None
        },
        None => None,
    }
}

/// The escaped form of a text is that of its characters, one behind the other.
pub proof fn lemma_escape_push(s: Seq<char>, c: char)
    ensures
        escape_spec(s.push(c)) == escape_spec(s) + escape_char(c),
    decreases s.len(),
{
    if s.len() == 0 {
        assert(s.push(c).drop_first() =~= Seq::<char>::empty());
        assert(escape_spec(Seq::<char>::empty()) =~= Seq::<char>::empty());
        assert(escape_spec(s.push(c)) =~= escape_char(c));
        assert(escape_spec(s) + escape_char(c) =~= escape_char(c));
    } else {
        lemma_escape_push(s.drop_first(), c);
        assert(s.push(c).drop_first() =~= s.drop_first().push(c));
        assert(s.push(c)[0] == s[0]);
        assert(escape_spec(s.push(c)) =~= escape_spec(s) + escape_char(c));
    }
}

/// Text whose characters all stand for themselves is its own escaped form.
pub proof fn lemma_escape_plain(s: Seq<char>)
    requires
        !needs_escaping_spec(s),
    ensures
        escape_spec(s) == s,
    decreases s.len(),
{
    if s.len() > 0 {
        assert(!needs_escape(s[0]));
        assert forall|i: int| 0 <= i < s.drop_first().len() implies !needs_escape(
            #[trigger] s.drop_first()[i],
        ) by {
            assert(s.drop_first()[i] == s[i + 1]);
        }
        lemma_escape_plain(s.drop_first());
        assert(escape_spec(s) =~= s);
    }
}

/// Calls `char::from_u32`: a code point up to 0x10FFFF that is no surrogate
/// gives the character with that code, any other number gives `None`.
#[verifier::external_body]
pub(crate) fn char_from_u32(code: u32) -> (r: Option<char>)
    ensures
        r == if is_scalar(code as nat) {
            Some(code as char)
        } else {
            None::<char>
        },
{
    char::from_u32(code)
}

fn hex_digit_char(d: u32) -> (c: char)
    requires
        d < 16,
    ensures
        c == hex_digit(d as nat),
{
    if d < 10 {
        (48u8 + d as u8) as char
    } else {
        (87u8 + d as u8) as char
    }
}

/// Appends a backslash, `u` and the four digits of `n`.
fn push_unicode_escape(out: &mut String, n: u32)
    requires
        n < 0x10000,
    ensures
        final(out)@ == old(out)@ + unicode_escape(n as nat),
{
    push_char(out, '\\');
    push_char(out, 'u');
    push_char(out, hex_digit_char(n / 4096 % 16));
    push_char(out, hex_digit_char(n / 256 % 16));
    push_char(out, hex_digit_char(n / 16 % 16));
    push_char(out, hex_digit_char(n % 16));
    assert(final(out)@ =~= old(out)@ + unicode_escape(n as nat));
}

fn char_needs_escape(c: char) -> (r: bool)
    ensures
        r == needs_escape(c),
{
    let n = c as u32;
    c == '"' || c == '\\' || n <= 0x1F || n == 0x7F || n == 0x2028 || n == 0x2029 || n > 0xFFFF
}

/// Appends what stands for `c` inside a JSON string.
fn push_escaped(out: &mut String, c: char)
    ensures
        final(out)@ == old(out)@ + escape_char(c),
{
    let n = c as u32;
    if c == '"' {
        push_char(out, '\\');
        push_char(out, '"');
    } else if c == '\\' {
        push_char(out, '\\');
        push_char(out, '\\');
    } else if n == 0x08 {
        push_char(out, '\\');
        push_char(out, 'b');
    } else if n == 0x0C {
        push_char(out, '\\');
        push_char(out, 'f');
    } else if c == '\n' {
        push_char(out, '\\');
        push_char(out, 'n');
    } else if c == '\r' {
        push_char(out, '\\');
        push_char(out, 'r');
    } else if c == '\t' {
        push_char(out, '\\');
        push_char(out, 't');
    } else if n <= 0x1F || n == 0x7F || n == 0x2028 || n == 0x2029 {
        push_unicode_escape(out, n);
    } else if n > 0xFFFF {
        let high = 0xD800 + (n - 0x10000) / 1024;
        let low = 0xDC00 + (n - 0x10000) % 1024;
        push_unicode_escape(out, high);
        push_unicode_escape(out, low);
        assert(final(out)@ =~= old(out)@ + (unicode_escape(high_surrogate(c as nat))
            + unicode_escape(low_surrogate(c as nat))));
    } else {
        push_char(out, c);
    }
    assert(final(out)@ =~= old(out)@ + escape_char(c));
}

/// The value of one hexadecimal digit.
fn hex_digit_value(c: char) -> (r: Option<u32>)
    ensures
        match hex_value(c) {
            Some(v) => r == Some(v as u32) && v < 16,
            None => r is None,
        },
{
    if c >= '0' && c <= '9' {
        Some(c as u32 - '0' as u32)
    } else if c >= 'a' && c <= 'f' {
        Some(c as u32 - 'a' as u32 + 10)
    } else if c >= 'A' && c <= 'F' {
        Some(c as u32 - 'A' as u32 + 10)
    } else {
        None
    }
}

/// Turns text into the body of a JSON string and back, one escape at a time.
pub struct StringEscaper;

impl StringEscaper {
    /// The body of the JSON string that holds `s`, without the quotes.
    pub fn escape(s: &str) -> (r: String)
        ensures
            r@ == escape_spec(s@),
    {
        if !Self::needs_escaping(s) {
            proof {
                lemma_escape_plain(s@);
            }
            return s.to_owned();
        }
        let chars = chars_of(s);
        let mut result = String::new();
        let mut i: usize = 0;
        while i < chars.len()
            invariant
                i <= chars.len(),
                result@ == escape_spec(chars@.take(i as int)),
            decreases chars.len() - i,
        {
            proof {
                lemma_escape_push(chars@.take(i as int), chars@[i as int]);
                assert(chars@.take(i + 1) =~= chars@.take(i as int).push(chars@[i as int]));
            }
            push_escaped(&mut result, chars[i]);
            i += 1;
        }
        assert(chars@.take(i as int) =~= chars@);
        result
    }

    /// The character that a backslash and `c` stand for. Only the eight
    /// escapes of one character are known here; the error carries no position.
    pub fn unescape_char(c: char) -> (r: Result<char, JsonError>)
        ensures
            r == match unescape_char_spec(c) {
                Some(d) => Ok::<char, JsonError>(d),
                None => Err::<char, JsonError>(
                    JsonError::InvalidEscapeSequence { line: 0, col: 0 },
                ),
            },
    {
        if c == '"' {
            Ok('"')
        } else if c == '\\' {
            Ok('\\')
        } else if c == '/' {
            Ok('/')
        } else if c == 'b' {
            Ok('\u{8}')
        } else if c == 'f' {
            Ok('\u{c}')
        } else if c == 'n' {
            Ok('\n')
        } else if c == 'r' {
            Ok('\r')
        } else if c == 't' {
            Ok('\t')
        } else {
            Err(JsonError::InvalidEscapeSequence { line: 0, col: 0 })
        }
    }

    /// The number that four hexadecimal digits denote: one UTF-16 code unit.
    pub fn parse_hex_unit(hex: &str) -> (r: Option<u32>)
        ensures
            match hex4_value(hex@) {
                Some(n) => r == Some(n as u32) && n < 0x10000,
                None => r is None,
            },
    {
        let chars = chars_of(hex);
        if chars.len() != 4 {
            return None;
        }
        let a = hex_digit_value(chars[0]);
        let b = hex_digit_value(chars[1]);
        let c = hex_digit_value(chars[2]);
        let d = hex_digit_value(chars[3]);
        match (a, b, c, d) {
            (Some(a), Some(b), Some(c), Some(d)) => Some(a * 4096 + b * 256 + c * 16 + d),
            _ => None,
        }
    }

    /// The character that the four hexadecimal digits of a `\u` escape name.
    /// Anything but four such digits is refused, and so is the number of a
    /// surrogate, which is half a character; the error carries no position.
    pub fn parse_unicode_hex(hex: &str) -> (r: Result<char, JsonError>)
        ensures
            r == match unicode_hex_spec(hex@) {
                Some(c) => Ok::<char, JsonError>(c),
                None => Err::<char, JsonError>(
                    JsonError::InvalidEscapeSequence { line: 0, col: 0 },
                ),
            },
    {
        match Self::parse_hex_unit(hex) {
            Some(n) => match char_from_u32(n) {
                Some(c) => Ok(c),
                None => Err(JsonError::InvalidEscapeSequence { line: 0, col: 0 }),
            },
            None => Err(JsonError::InvalidEscapeSequence { line: 0, col: 0 }),
        }
    }

    /// The character above 0xFFFF that a high and a low surrogate stand for
    /// together, or `None` where `high` and `low` are no such pair.
    pub fn join_surrogates(high: u32, low: u32) -> (r: Option<char>)
        ensures
            r == if is_high_surrogate(high as nat) && is_low_surrogate(low as nat) {
                Some(surrogate_code(high as nat, low as nat) as char)
            } else {
                None::<char>
            },
    {
        if 0xD800 <= high && high <= 0xDBFF && 0xDC00 <= low && low <= 0xDFFF {
            char_from_u32(0x10000 + (high - 0xD800) * 1024 + (low - 0xDC00))
        } else {
            None
        }
    }

    /// Whether any character of `s` has to be escaped.
    pub fn needs_escaping(s: &str) -> (r: bool)
        ensures
            r == needs_escaping_spec(s@),
    {
        let chars = chars_of(s);
        let mut i: usize = 0;
        while i < chars.len()
            invariant
                i <= chars.len(),
                chars@ == s@,
                forall|j: int| 0 <= j < i ==> !needs_escape(#[trigger] chars@[j]),
            decreases chars.len() - i,
        {
            if char_needs_escape(chars[i]) {
                return true;
            }
            i += 1;
        }
        false
    }
}

} // verus!
