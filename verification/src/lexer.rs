//! From characters to tokens.

use vstd::prelude::*;
use crate::escape::{
    hex4_value, hex_value, is_high_surrogate, is_low_surrogate, is_scalar, surrogate_code,
    unescape_char_spec, StringEscaper,
};
use crate::number::{classify, is_digit, NumberParser};
use crate::text::{chars_of, col_at, is_whitespace, line_at, push_char, saturated, whitespace};
use crate::value::{JsonError, Token, TokenView};

verus! {

/// What one step of the lexer gives: a token or an error, and the offset that
/// the lexer has reached.
pub struct Lexed {
    pub token: Result<TokenView, JsonError>,
    pub end: int,
}

/// What reading a string literal gives.
pub struct ScannedString {
    pub text: Result<Seq<char>, JsonError>,
    pub end: int,
}

/// What reading one escape gives: the character, or `None` where the escape is
/// not valid, and the offset reached.
pub struct ScannedChar {
    pub ch: Option<char>,
    pub end: int,
}

/// What reading four hexadecimal digits gives.
pub struct ScannedUnit {
    pub unit: Option<nat>,
    pub end: int,
}

pub open spec fn invalid_token_at(s: Seq<char>, i: int) -> JsonError {
    JsonError::InvalidToken { line: saturated(line_at(s, i)), col: saturated(col_at(s, i)) }
}

pub open spec fn unexpected_eof_at(s: Seq<char>, i: int) -> JsonError {
    JsonError::UnexpectedEof { line: saturated(line_at(s, i)), col: saturated(col_at(s, i)) }
}

pub open spec fn invalid_escape_at(s: Seq<char>, i: int) -> JsonError {
    JsonError::InvalidEscapeSequence {
        line: saturated(line_at(s, i)),
        col: saturated(col_at(s, i)),
    }
}

pub open spec fn invalid_number_at(s: Seq<char>, i: int) -> JsonError {
    JsonError::InvalidNumber { line: saturated(line_at(s, i)), col: saturated(col_at(s, i)) }
}

/// The first offset from `i` on that holds no whitespace.
pub open spec fn skip_whitespace_end(s: Seq<char>, i: int) -> int
    decreases s.len() - i,
{
    if 0 <= i < s.len() && is_whitespace(s[i]) {
        skip_whitespace_end(s, i + 1)
    } else {
        i
    }
}

/// The characters that a numeric literal is gathered from.
pub open spec fn is_number_char(c: char) -> bool {
    is_digit(c) || c == '.' || c == '-' || c == '+' || c == 'e' || c == 'E'
}

/// The first offset from `i` on that holds no character of a number.
pub open spec fn number_run_end(s: Seq<char>, i: int) -> int
    decreases s.len() - i,
{
    if 0 <= i < s.len() && is_number_char(s[i]) {
        number_run_end(s, i + 1)
    } else {
        i
    }
}

/// How many characters of `word`, from its `k`-th on, stand at `start + k` and
/// the offsets behind it; counted from the beginning of `word`.
pub open spec fn matched_len(s: Seq<char>, start: int, word: Seq<char>, k: int) -> int
    decreases word.len() - k,
{
    if 0 <= k < word.len() && start + k < s.len() && s[start + k] == word[k] {
        matched_len(s, start, word, k + 1)
    } else {
        k
    }
}

/// One of the three words. A character that differs, or the end of the text,
/// is an error at the beginning of the word; the character that differs is
/// consumed.
pub open spec fn lex_literal(s: Seq<char>, start: int, word: Seq<char>, token: TokenView) -> Lexed {
    let m = matched_len(s, start, word, 0);
    if m == word.len() {
        Lexed { token: Ok(token), end: start + m }
    } else if start + m < s.len() {
        Lexed { token: Err(invalid_token_at(s, start)), end: start + m + 1 }
    } else {
        Lexed { token: Err(invalid_token_at(s, start)), end: s.len() as int }
    }
}

/// A numeric literal: every character of a number that follows is taken, and
/// the whole of it must be a number.
pub open spec fn lex_number(s: Seq<char>, start: int) -> Lexed {
    let end = number_run_end(s, start);
    match classify(s.subrange(start, end)) {
        Some(n) => Lexed { token: Ok(TokenView::Number(n)), end },
        None => Lexed { token: Err(invalid_number_at(s, start)), end },
    }
}

/// Four hexadecimal digits from offset `q` on. Reading stops behind the first
/// character that is no such digit.
#[verifier::opaque]
pub open spec fn scan_unit(s: Seq<char>, q: int) -> ScannedUnit {
    if q >= s.len() {
        ScannedUnit { unit: None, end: s.len() as int }
    } else if hex_value(s[q]) is None {
        ScannedUnit { unit: None, end: q + 1 }
    } else if q + 1 >= s.len() {
        ScannedUnit { unit: None, end: s.len() as int }
    } else if hex_value(s[q + 1]) is None {
        ScannedUnit { unit: None, end: q + 2 }
    } else if q + 2 >= s.len() {
        ScannedUnit { unit: None, end: s.len() as int }
    } else if hex_value(s[q + 2]) is None {
        ScannedUnit { unit: None, end: q + 3 }
    } else if q + 3 >= s.len() {
        ScannedUnit { unit: None, end: s.len() as int }
    } else if hex_value(s[q + 3]) is None {
        ScannedUnit { unit: None, end: q + 4 }
    } else {
        ScannedUnit {
            unit: Some(
                hex_value(s[q])->0 * 4096 + hex_value(s[q + 1])->0 * 256 + hex_value(s[q + 2])->0
                    * 16 + hex_value(s[q + 3])->0,
            ),
            end: q + 4,
        }
    }
}

/// What follows `\u`, from offset `q` on: four digits that name a character,
/// or the four digits of a high surrogate, `\u` again and the four digits of
/// a low surrogate. A surrogate that stands alone is not valid.
#[verifier::opaque]
pub open spec fn scan_unicode(s: Seq<char>, q: int) -> ScannedChar {
    let first = scan_unit(s, q);
    match first.unit {
        None => ScannedChar { ch: None, end: first.end },
        Some(high) => if is_scalar(high) {
            ScannedChar { ch: Some(high as char), end: q + 4 }
        } else if !is_high_surrogate(high) {
            ScannedChar { ch: None, end: q + 4 }
        } else if q + 4 >= s.len() {
            ScannedChar { ch: None, end: s.len() as int }
        } else if s[q + 4] != '\\' {
            ScannedChar { ch: None, end: q + 5 }
        } else if q + 5 >= s.len() {
            ScannedChar { ch: None, end: s.len() as int }
        } else if s[q + 5] != 'u' {
            ScannedChar { ch: None, end: q + 6 }
        } else {
            let second = scan_unit(s, q + 6);
            match second.unit {
                None => ScannedChar { ch: None, end: second.end },
                Some(low) => if is_low_surrogate(low) {
                    ScannedChar { ch: Some(surrogate_code(high, low) as char), end: q + 10 }
                } else {
                    ScannedChar { ch: None, end: q + 10 }
                },
            }
        },
    }
}

/// What follows a backslash, from offset `q` on.
pub open spec fn scan_escape(s: Seq<char>, q: int) -> ScannedChar {
    if q >= s.len() {
        ScannedChar { ch: None, end: s.len() as int }
    } else if s[q] == 'u' {
        scan_unicode(s, q + 1)
    } else {
        ScannedChar { ch: unescape_char_spec(s[q]), end: q + 1 }
    }
}

/// The rest of a string literal from offset `p` on, up to the closing quote.
/// `start` is the offset of the opening quote: a text that ends before the
/// closing quote is an error there. An invalid escape is an error at the
/// offset that reading has reached. (A valid escape always ends behind its
/// backslash and in the text; the comparison is there to show that the
/// definition is well founded.)
pub open spec fn scan_string(s: Seq<char>, start: int, p: int) -> ScannedString
    decreases s.len() - p,
{
    if p < 0 || p >= s.len() {
        ScannedString { text: Err(unexpected_eof_at(s, start)), end: s.len() as int }
    } else if s[p] == '"' {
        ScannedString { text: Ok(Seq::empty()), end: p + 1 }
    } else if s[p] == '\\' {
        let escape = scan_escape(s, p + 1);
        match escape.ch {
            None => ScannedString { text: Err(invalid_escape_at(s, escape.end)), end: escape.end },
            Some(c) => if p < escape.end <= s.len() {
                prepend(seq![c], scan_string(s, start, escape.end))
            } else {
                ScannedString { text: Err(invalid_escape_at(s, escape.end)), end: escape.end }
            },
        }
    } else {
        prepend(seq![s[p]], scan_string(s, start, p + 1))
    }
}

/// `rest` with `head` before its text.
pub open spec fn prepend(head: Seq<char>, rest: ScannedString) -> ScannedString {
    ScannedString {
        text: match rest.text {
            Ok(tail) => Ok(head + tail),
            Err(e) => Err(e),
        },
        end: rest.end,
    }
}

/// A string literal whose opening quote stands at `start`.
pub open spec fn lex_string(s: Seq<char>, start: int) -> Lexed {
    let scanned = scan_string(s, start, start + 1);
    Lexed {
        token: match scanned.text {
            Ok(text) => Ok(TokenView::String(text)),
            Err(e) => Err(e),
        },
        end: scanned.end,
    }
}

/// The token that begins at offset `j`, which holds no whitespace.
pub open spec fn lex_at(s: Seq<char>, j: int) -> Lexed {
    if j < 0 || j >= s.len() {
        Lexed { token: Ok(TokenView::Eof), end: j }
    } else {
        let c = s[j];
        if c == '{' {
            Lexed { token: Ok(TokenView::CurlyLeft), end: j + 1 }
        } else if c == '}' {
            Lexed { token: Ok(TokenView::CurlyRight), end: j + 1 }
        } else if c == '[' {
            Lexed { token: Ok(TokenView::SquareLeft), end: j + 1 }
        } else if c == ']' {
            Lexed { token: Ok(TokenView::SquareRight), end: j + 1 }
        } else if c == ':' {
            Lexed { token: Ok(TokenView::Colon), end: j + 1 }
        } else if c == ',' {
            Lexed { token: Ok(TokenView::Comma), end: j + 1 }
        } else if c == '"' {
            lex_string(s, j)
        } else if is_digit(c) || c == '-' {
            lex_number(s, j)
        } else if c == 't' {
            lex_literal(s, j, seq!['t', 'r', 'u', 'e'], TokenView::True)
        } else if c == 'f' {
            lex_literal(s, j, seq!['f', 'a', 'l', 's', 'e'], TokenView::False)
        } else if c == 'n' {
            lex_literal(s, j, seq!['n', 'u', 'l', 'l'], TokenView::Null)
        } else {
            Lexed { token: Err(invalid_token_at(s, j)), end: j + 1 }
        }
    }
}

/// One step of the lexer from offset `i`: whitespace is passed over, then one
/// token is read. At the end of the text the token is `Eof`.
#[verifier::opaque]
pub open spec fn lex(s: Seq<char>, i: int) -> Lexed {
    lex_at(s, skip_whitespace_end(s, i))
}

/// The token of a lexer step as contracts see it.
pub open spec fn token_result_view(r: Result<Token, JsonError>) -> Result<TokenView, JsonError> {
    match r {
        Ok(token) => Ok(token@),
        Err(e) => Err(e),
    }
}

/// Passing over whitespace ends in the text, on what is no whitespace, and
/// passes over nothing else.
pub proof fn lemma_skip_whitespace_end(s: Seq<char>, i: int)
    requires
        0 <= i <= s.len(),
    ensures
        i <= skip_whitespace_end(s, i) <= s.len(),
        skip_whitespace_end(s, i) < s.len() ==> !is_whitespace(s[skip_whitespace_end(s, i)]),
        forall|k: int| i <= k < skip_whitespace_end(s, i) ==> is_whitespace(#[trigger] s[k]),
    decreases s.len() - i,
{
    if i < s.len() && is_whitespace(s[i]) {
        lemma_skip_whitespace_end(s, i + 1);
    }
}

/// Gathering a number ends in the text, on what is no character of a number,
/// and gathers nothing else.
pub proof fn lemma_number_run_end(s: Seq<char>, i: int)
    requires
        0 <= i <= s.len(),
    ensures
        i <= number_run_end(s, i) <= s.len(),
        number_run_end(s, i) < s.len() ==> !is_number_char(s[number_run_end(s, i)]),
        forall|k: int| i <= k < number_run_end(s, i) ==> is_number_char(#[trigger] s[k]),
    decreases s.len() - i,
{
    if i < s.len() && is_number_char(s[i]) {
        lemma_number_run_end(s, i + 1);
    }
}

/// Characters of a number with none behind them are gathered as a whole.
pub proof fn lemma_number_run(t: Seq<char>, p: int, q: int)
    requires
        0 <= p <= q <= t.len(),
        forall|i: int| p <= i < q ==> is_number_char(#[trigger] t[i]),
        q == t.len() || !is_number_char(t[q]),
    ensures
        number_run_end(t, p) == q,
    decreases q - p,
{
    if p < q {
        assert(is_number_char(t[p]));
        lemma_number_run(t, p + 1, q);
    }
}

/// Reading four digits ends in the text; where it gives a number, that number
/// is below 0x10000 and four characters were read.
pub proof fn lemma_scan_unit_end(s: Seq<char>, q: int)
    requires
        0 <= q <= s.len(),
    ensures
        q <= scan_unit(s, q).end <= s.len(),
        scan_unit(s, q).unit is Some ==> scan_unit(s, q).end == q + 4 && scan_unit(s, q).unit->0
            < 0x10000,
{
    reveal(scan_unit);
}

/// Reading an escape ends in the text, and a valid escape has at least one character.
pub proof fn lemma_scan_escape_end(s: Seq<char>, q: int)
    requires
        0 <= q <= s.len(),
    ensures
        q <= scan_escape(s, q).end <= s.len(),
        scan_escape(s, q).ch is Some ==> q < scan_escape(s, q).end,
{
    reveal(scan_unicode);
    if q < s.len() {
        lemma_scan_unit_end(s, q + 1);
        if q + 7 <= s.len() {
            lemma_scan_unit_end(s, q + 7);
        }
    }
}

/// No more characters are matched than the word has and the text holds.
pub proof fn lemma_matched_len(s: Seq<char>, start: int, word: Seq<char>, k: int)
    requires
        0 <= k <= word.len(),
        0 <= start,
        start + k <= s.len(),
    ensures
        k <= matched_len(s, start, word, k) <= word.len(),
        start + matched_len(s, start, word, k) <= s.len(),
    decreases word.len() - k,
{
    if k < word.len() && start + k < s.len() && s[start + k] == word[k] {
        lemma_matched_len(s, start, word, k + 1);
    }
}

/// Reading a string literal ends in the text, and behind at least one
/// character where it gives a text.
pub proof fn lemma_scan_string_end(s: Seq<char>, start: int, p: int)
    requires
        0 <= p <= s.len(),
    ensures
        p <= scan_string(s, start, p).end <= s.len(),
        scan_string(s, start, p).text is Ok ==> p < scan_string(s, start, p).end,
    decreases s.len() - p,
{
    if p < s.len() && s[p] != '"' {
        if s[p] == '\\' {
            lemma_scan_escape_end(s, p + 1);
            let escape = scan_escape(s, p + 1);
            if escape.ch is Some {
                lemma_scan_string_end(s, start, escape.end);
            }
        } else {
            lemma_scan_string_end(s, start, p + 1);
        }
    }
}

/// A step of the lexer never goes back and never leaves the text; it gives
/// `Eof` exactly at the end of the text, and any other step consumes at least
/// one character.
pub proof fn lemma_lex_end(s: Seq<char>, i: int)
    requires
        0 <= i <= s.len(),
    ensures
        i <= skip_whitespace_end(s, i) <= lex(s, i).end <= s.len(),
        lex(s, i).token == Ok::<TokenView, JsonError>(TokenView::Eof) ==> lex(s, i).end == s.len(),
        lex(s, i).token != Ok::<TokenView, JsonError>(TokenView::Eof) ==> skip_whitespace_end(s, i)
            < lex(s, i).end,
        i == s.len() ==> lex(s, i).token == Ok::<TokenView, JsonError>(TokenView::Eof),
{
    reveal(lex);
    lemma_skip_whitespace_end(s, i);
    let j = skip_whitespace_end(s, i);
    if j < s.len() {
        lemma_scan_string_end(s, j, j + 1);
        lemma_number_run_end(s, j);
        lemma_matched_len(s, j, seq!['t', 'r', 'u', 'e'], 0);
        lemma_matched_len(s, j, seq!['f', 'a', 'l', 's', 'e'], 0);
        lemma_matched_len(s, j, seq!['n', 'u', 'l', 'l'], 0);
    }
}

/// A reader of tokens over one text. It keeps the line and the column of the
/// place it has reached, both counted from one; a count that no `usize` holds
/// stays at the greatest `usize`.
pub struct Lexer {
    chars: Vec<char>,
    pos: usize,
    line: usize,
    col: usize,
}

impl Lexer {
    /// The whole text that the lexer reads.
    pub closed spec fn text(&self) -> Seq<char> {
        self.chars@
    }

    /// How many characters have been consumed.
    pub closed spec fn offset(&self) -> int {
        self.pos as int
    }

    /// The offset lies in the text, and line and column are those of the offset.
    pub closed spec fn wf(&self) -> bool {
        &&& self.pos <= self.chars.len()
        &&& self.line == saturated(line_at(self.chars@, self.pos as int))
        &&& self.col == saturated(col_at(self.chars@, self.pos as int))
    }

    /// A lexer at the beginning of `input`.
    pub fn new(input: &str) -> (lexer: Lexer)
        ensures
            lexer.wf(),
            lexer.text() == input@,
            lexer.offset() == 0,
    {
        Lexer { chars: chars_of(input), pos: 0, line: 1, col: 1 }
    }

    /// The line of the place reached.
    pub fn line(&self) -> (r: usize)
        requires
            self.wf(),
        ensures
            r == saturated(line_at(self.text(), self.offset())),
    {
        self.line
    }

    /// The column of the place reached.
    pub fn col(&self) -> (r: usize)
        requires
            self.wf(),
        ensures
            r == saturated(col_at(self.text(), self.offset())),
    {
        self.col
    }

    /// The next character, which stays where it is.
    fn peek(&self) -> (r: Option<char>)
        requires
            self.wf(),
        ensures
            r == if self.offset() < self.text().len() {
                Some(self.text()[self.offset()])
            } else {
                None::<char>
            },
    {
        if self.pos < self.chars.len() {
            Some(self.chars[self.pos])
        } else {
            None
        }
    }

    /// Consumes one character, if one is left, and hands it out.
    pub fn advance_char(&mut self) -> (r: Option<char>)
        requires
            old(self).wf(),
        ensures
            final(self).wf(),
            final(self).text() == old(self).text(),
            old(self).offset() < old(self).text().len() ==> r == Some(
                old(self).text()[old(self).offset()],
            ) && final(self).offset() == old(self).offset() + 1,
            old(self).offset() >= old(self).text().len() ==> r is None && final(self).offset()
                == old(self).offset(),
    {
        if self.pos < self.chars.len() {
            let c = self.chars[self.pos];
            self.pos = self.pos + 1;
            if c == '\n' {
                self.line = self.line.saturating_add(1);
                self.col = 1;
            } else {
                self.col = self.col.saturating_add(1);
            }
            Some(c)
        } else {
            None
        }
    }

    /// Consumes the whitespace that stands at the place reached.
    pub fn skip_whitespace(&mut self)
        requires
            old(self).wf(),
        ensures
            final(self).wf(),
            final(self).text() == old(self).text(),
            final(self).offset() == skip_whitespace_end(old(self).text(), old(self).offset()),
    {
        loop
            invariant
                self.wf(),
                self.text() == old(self).text(),
                skip_whitespace_end(self.text(), self.offset()) == skip_whitespace_end(
                    old(self).text(),
                    old(self).offset(),
                ),
            ensures
                self.wf(),
                self.text() == old(self).text(),
                self.offset() == skip_whitespace_end(old(self).text(), old(self).offset()),
            decreases self.text().len() - self.offset(),
        {
            match self.peek() {
                Some(c) => {
                    if whitespace(c) {
                        self.advance_char();
                    } else {
                        break ;
                    }
                },
                None => {
                    break ;
                },
            }
        }
    }

    /// One of the three words, whose first character stands at the place reached.
    #[verifier::loop_isolation(false)]
    fn parse_literal(&mut self, expected: &str, token: Token) -> (r: Result<Token, JsonError>)
        requires
            old(self).wf(),
        ensures
            final(self).wf(),
            final(self).text() == old(self).text(),
            ({
                let lexed = lex_literal(
                    old(self).text(),
                    old(self).offset(),
                    expected@,
                    token@,
                );
                final(self).offset() == lexed.end && token_result_view(r) == lexed.token
            }),
    {
        let start_line = self.line;
        let start_col = self.col;
        let word = chars_of(expected);
        let ghost s = self.text();
        let ghost start = self.offset();
        let mut k: usize = 0;
        while k < word.len()
            invariant
                self.wf(),
                self.text() == s,
                k <= word.len(),
                self.offset() == start + k,
                word@ == expected@,
                matched_len(s, start, word@, 0) == matched_len(s, start, word@, k as int),
            decreases word.len() - k,
        {
            match self.advance_char() {
                Some(c) => {
                    if c != word[k] {
                        return Err(JsonError::InvalidToken { line: start_line, col: start_col });
                    }
                },
                None => {
                    return Err(JsonError::InvalidToken { line: start_line, col: start_col });
                },
            }
            k += 1;
        }
        Ok(token)
    }

    /// A numeric literal, whose first character stands at the place reached.
    fn parse_number(&mut self) -> (r: Result<Token, JsonError>)
        requires
            old(self).wf(),
        ensures
            final(self).wf(),
            final(self).text() == old(self).text(),
            ({
                let lexed = lex_number(old(self).text(), old(self).offset());
                final(self).offset() == lexed.end && token_result_view(r) == lexed.token
            }),
    {
        let start_line = self.line;
        let start_col = self.col;
        let ghost s = self.text();
        let ghost start = self.offset();
        let mut number_str = String::new();
        loop
            invariant
                self.wf(),
                self.text() == s,
                0 <= start <= self.offset() <= s.len(),
                number_str@ == s.subrange(start, self.offset()),
                number_run_end(s, start) == number_run_end(s, self.offset()),
            ensures
                self.wf(),
                self.text() == s,
                self.offset() == number_run_end(s, start),
                number_str@ == s.subrange(start, self.offset()),
            decreases s.len() - self.offset(),
        {
            match self.peek() {
                Some(c) => {
                    if (c >= '0' && c <= '9') || c == '.' || c == '-' || c == '+' || c == 'e' || c
                        == 'E' {
                        push_char(&mut number_str, c);
                        self.advance_char();
                        assert(number_str@ =~= s.subrange(start, self.offset()));
                    } else {
                        break ;
                    }
                },
                None => {
                    break ;
                },
            }
        }
        match NumberParser::parse(number_str.as_str()) {
            Ok(n) => Ok(Token::Number(n)),
            Err(_) => Err(JsonError::InvalidNumber { line: start_line, col: start_col }),
        }
    }

    /// Four hexadecimal digits, gathered into a string.
    #[verifier::loop_isolation(false)]
    fn read_unit(&mut self) -> (r: Option<String>)
        requires
            old(self).wf(),
        ensures
            final(self).wf(),
            final(self).text() == old(self).text(),
            ({
                let scanned = scan_unit(old(self).text(), old(self).offset());
                &&& final(self).offset() == scanned.end
                &&& r is Some == scanned.unit is Some
                &&& r matches Some(hex) ==> hex4_value(hex@) == scanned.unit
            }),
    {
        let ghost s = self.text();
        let ghost q = self.offset();
        reveal(scan_unit);
        let mut hex = String::new();
        let mut k: usize = 0;
        while k < 4
            invariant
                self.wf(),
                self.text() == s,
                k <= 4,
                self.offset() == q + k,
                q + k <= s.len(),
                hex@ == s.subrange(q, q + k),
                forall|j: int| q <= j < q + k ==> hex_value(#[trigger] s[j]) is Some,
            decreases 4 - k,
        {
            match self.advance_char() {
                Some(c) => {
                    if (c >= '0' && c <= '9') || (c >= 'a' && c <= 'f') || (c >= 'A' && c <= 'F') {
                        push_char(&mut hex, c);
                        assert(hex@ =~= s.subrange(q, q + k + 1));
                    } else {
                        return None;
                    }
                },
                None => {
                    return None;
                },
            }
            k += 1;
        }
        assert(hex@[0] == s[q] && hex@[1] == s[q + 1] && hex@[2] == s[q + 2] && hex@[3] == s[q
            + 3]);
        Some(hex)
    }

    /// What follows `\u`: one character, from one escape or from a pair.
    fn parse_unicode(&mut self) -> (r: Option<char>)
        requires
            old(self).wf(),
        ensures
            final(self).wf(),
            final(self).text() == old(self).text(),
            ({
                let scanned = scan_unicode(old(self).text(), old(self).offset());
                final(self).offset() == scanned.end && r == scanned.ch
            }),
    {
        let ghost s = self.text();
        let ghost q = self.offset();
        reveal(scan_unicode);
        proof {
            lemma_scan_unit_end(s, q);
        }
        let first = match self.read_unit() {
            Some(hex) => hex,
            None => {
                return None;
            },
        };
        if let Ok(c) = StringEscaper::parse_unicode_hex(first.as_str()) {
            return Some(c);
        }
        let high = match StringEscaper::parse_hex_unit(first.as_str()) {
            Some(unit) => unit,
            None => {
                return None;
            },
        };
        if !(0xD800 <= high && high <= 0xDBFF) {
            return None;
        }
        match self.advance_char() {
            Some(c) => {
                if c != '\\' {
                    return None;
                }
            },
            None => {
                return None;
            },
        }
        match self.advance_char() {
            Some(c) => {
                if c != 'u' {
                    return None;
                }
            },
            None => {
                return None;
            },
        }
        proof {
            lemma_scan_unit_end(s, q + 6);
        }
        let second = match self.read_unit() {
            Some(hex) => hex,
            None => {
                return None;
            },
        };
        match StringEscaper::parse_hex_unit(second.as_str()) {
            Some(low) => StringEscaper::join_surrogates(high, low),
            None => None,
        }
    }

    /// What follows a backslash.
    fn parse_escape(&mut self) -> (r: Option<char>)
        requires
            old(self).wf(),
        ensures
            final(self).wf(),
            final(self).text() == old(self).text(),
            ({
                let scanned = scan_escape(old(self).text(), old(self).offset());
                final(self).offset() == scanned.end && r == scanned.ch
            }),
    {
        match self.advance_char() {
            Some(c) => {
                if c == 'u' {
                    self.parse_unicode()
                } else {
                    match StringEscaper::unescape_char(c) {
                        Ok(escaped) => Some(escaped),
                        Err(_) => None,
                    }
                }
            },
            None => None,
        }
    }

    /// A string literal, whose opening quote stands at the place reached.
    #[verifier::loop_isolation(false)]
    fn parse_string(&mut self) -> (r: Result<Token, JsonError>)
        requires
            old(self).wf(),
            old(self).offset() < old(self).text().len(),
        ensures
            final(self).wf(),
            final(self).text() == old(self).text(),
            ({
                let lexed = lex_string(old(self).text(), old(self).offset());
                final(self).offset() == lexed.end && token_result_view(r) == lexed.token
            }),
    {
        let start_line = self.line;
        let start_col = self.col;
        let ghost s = self.text();
        let ghost start = self.offset();
        self.advance_char();
        let mut string = String::new();
        loop
            invariant
                self.wf(),
                self.text() == s,
                start < self.offset() <= s.len(),
                start_line == saturated(line_at(s, start)),
                start_col == saturated(col_at(s, start)),
                scan_string(s, start, start + 1) == prepend(
                    string@,
                    scan_string(s, start, self.offset()),
                ),
            decreases s.len() - self.offset(),
        {
            let ghost p = self.offset();
            let ghost before = string@;
            match self.advance_char() {
                Some(c) => {
                    if c == '"' {
                        assert(before + Seq::<char>::empty() =~= before);
                        return Ok(Token::String(string));
                    } else if c == '\\' {
                        proof {
                            lemma_scan_escape_end(s, p + 1);
                        }
                        match self.parse_escape() {
                            Some(escaped) => {
                                push_char(&mut string, escaped);
                                proof {
                                    let rest = scan_string(s, start, self.offset());
                                    if rest.text is Ok {
                                        assert(before + (seq![escaped] + rest.text->Ok_0)
                                            =~= string@ + rest.text->Ok_0);
                                    }
                                }
                            },
                            None => {
                                return Err(
                                    JsonError::InvalidEscapeSequence {
                                        line: self.line,
                                        col: self.col,
                                    },
                                );
                            },
                        }
                    } else {
                        push_char(&mut string, c);
                        proof {
                            let rest = scan_string(s, start, self.offset());
                            if rest.text is Ok {
                                assert(before + (seq![c] + rest.text->Ok_0) =~= string@
                                    + rest.text->Ok_0);
                            }
                        }
                    }
                },
                None => {
                    return Err(JsonError::UnexpectedEof { line: start_line, col: start_col });
                },
            }
        }
    }

    /// Passes over whitespace and reads one token. At the end of the text the
    /// token is `Eof`, however often it is asked for.
    pub fn next_token(&mut self) -> (r: Result<Token, JsonError>)
        requires
            old(self).wf(),
        ensures
            final(self).wf(),
            final(self).text() == old(self).text(),
            ({
                let lexed = lex(old(self).text(), old(self).offset());
                final(self).offset() == lexed.end && token_result_view(r) == lexed.token
            }),
    {
        proof {
            reveal(lex);
            lemma_skip_whitespace_end(self.text(), self.offset());
            reveal_strlit("true");
            reveal_strlit("false");
            reveal_strlit("null");
            assert("true"@ =~= seq!['t', 'r', 'u', 'e']);
            assert("false"@ =~= seq!['f', 'a', 'l', 's', 'e']);
            assert("null"@ =~= seq!['n', 'u', 'l', 'l']);
        }
        self.skip_whitespace();
        match self.peek() {
            Some(c) => {
                if c == '{' {
                    self.advance_char();
                    Ok(Token::CurlyLeft)
                } else if c == '}' {
                    self.advance_char();
                    Ok(Token::CurlyRight)
                } else if c == '[' {
                    self.advance_char();
                    Ok(Token::SquareLeft)
                } else if c == ']' {
                    self.advance_char();
                    Ok(Token::SquareRight)
                } else if c == ':' {
                    self.advance_char();
                    Ok(Token::Colon)
                } else if c == ',' {
                    self.advance_char();
                    Ok(Token::Comma)
                } else if c == '"' {
                    self.parse_string()
                } else if (c >= '0' && c <= '9') || c == '-' {
                    self.parse_number()
                } else if c == 't' {
                    self.parse_literal("true", Token::True)
                } else if c == 'f' {
                    self.parse_literal("false", Token::False)
                } else if c == 'n' {
                    self.parse_literal("null", Token::Null)
                } else {
                    let line = self.line;
                    let col = self.col;
                    self.advance_char();
                    Err(JsonError::InvalidToken { line, col })
                }
            },
            None => Ok(Token::Eof),
        }
    }
}

} // verus!
