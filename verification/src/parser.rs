//! From tokens to a value tree.

use vstd::prelude::*;
use crate::lexer::{invalid_token_at, lemma_lex_end, lex, Lexed, Lexer};
use crate::value::{
    lemma_view_unfold, members_view, values_view, JsonError, JsonValue, Token, TokenView,
    ValueView,
};

verus! {

/// What the lexer gives when it is asked for the `k`-th time, counted from zero.
pub open spec fn nth_token(s: Seq<char>, k: nat) -> Lexed
    decreases k,
{
    if k == 0 {
        lex(s, 0)
    } else {
        lex(s, nth_token(s, (k - 1) as nat).end)
    }
}

/// The `k`-th token, where reading it did not fail.
pub open spec fn current(s: Seq<char>, k: nat) -> TokenView {
    nth_token(s, k).token->Ok_0
}

/// Passing on from the `k`-th token: the index of the next one, or the error
/// that reading the next one gives.
pub open spec fn advance(s: Seq<char>, k: nat) -> Result<nat, JsonError> {
    match nth_token(s, k + 1).token {
        Ok(_) => Ok(k + 1),
        Err(e) => Err(e),
    }
}

/// The error for a `k`-th token that the grammar does not allow where it
/// stands. Its place is the one the lexer has reached: behind that token.
pub open spec fn unexpected(s: Seq<char>, k: nat) -> JsonError {
    invalid_token_at(s, nth_token(s, k).end)
}

/// What parsing one construct gives: the result, and the index of the token
/// that is current afterwards.
pub struct Parsed<T> {
    pub value: Result<T, JsonError>,
    pub next: nat,
}

pub open spec fn failed<T>(e: JsonError, k: nat) -> Parsed<T> {
    Parsed { value: Err(e), next: k }
}

/// A construct `v` that ends with the `k`-th token.
pub open spec fn ends_with<T>(s: Seq<char>, k: nat, v: T) -> Parsed<T> {
    match advance(s, k) {
        Ok(next) => Parsed { value: Ok(v), next },
        Err(e) => failed(e, k),
    }
}

/// `rest` with `head` before what it holds.
pub open spec fn after<T>(head: Seq<T>, rest: Parsed<Seq<T>>) -> Parsed<Seq<T>> {
    Parsed {
        value: match rest.value {
            Ok(tail) => Ok(head + tail),
            Err(e) => Err(e),
        },
        next: rest.next,
    }
}

/// The value that begins with the `k`-th token.
pub open spec fn parse_value(s: Seq<char>, k: nat) -> Parsed<ValueView>
    decreases s.len() - k, 2nat,
{
    match nth_token(s, k).token {
        Ok(TokenView::Null) => ends_with(s, k, ValueView::Null),
        Ok(TokenView::True) => ends_with(s, k, ValueView::Bool(true)),
        Ok(TokenView::False) => ends_with(s, k, ValueView::Bool(false)),
        Ok(TokenView::Number(n)) => ends_with(s, k, ValueView::Number(n)),
        Ok(TokenView::String(text)) => ends_with(s, k, ValueView::String(text)),
        Ok(TokenView::SquareLeft) => parse_array(s, k),
        Ok(TokenView::CurlyLeft) => parse_object(s, k),
        _ => failed(unexpected(s, k), k),
    }
}

/// The array whose opening bracket is the `k`-th token. (Here and below, an
/// index of a token is compared with the length of the text only to show that
/// the definitions are well founded: a token other than `Eof` has at least
/// one character for itself, so the comparisons always hold.)
pub open spec fn parse_array(s: Seq<char>, k: nat) -> Parsed<ValueView>
    decreases s.len() - k, 1nat,
{
    match advance(s, k) {
        Err(e) => failed(e, k),
        Ok(k1) => if current(s, k1) is SquareRight {
            ends_with(s, k1, ValueView::Array(Seq::empty()))
        } else if k1 <= s.len() {
            let items = parse_elements(s, k1);
            Parsed {
                value: match items.value {
                    Ok(vs) => Ok(ValueView::Array(vs)),
                    Err(e) => Err(e),
                },
                next: items.next,
            }
        } else {
            failed(unexpected(s, k1), k1)
        },
    }
}

/// The elements of an array from the `k`-th token on, up to the closing
/// bracket: values with one comma between each two.
pub open spec fn parse_elements(s: Seq<char>, k: nat) -> Parsed<Seq<ValueView>>
    decreases s.len() - k, 3nat,
{
    let first = parse_value(s, k);
    match first.value {
        Err(e) => failed(e, k),
        Ok(v) => match current(s, first.next) {
            TokenView::Comma => match advance(s, first.next) {
                Err(e) => failed(e, k),
                Ok(k2) => if k < k2 <= s.len() {
                    after(seq![v], parse_elements(s, k2))
                } else {
                    failed(unexpected(s, first.next), k)
                },
            },
            TokenView::SquareRight => ends_with(s, first.next, seq![v]),
            _ => failed(unexpected(s, first.next), k),
        },
    }
}

/// The object whose opening brace is the `k`-th token.
pub open spec fn parse_object(s: Seq<char>, k: nat) -> Parsed<ValueView>
    decreases s.len() - k, 1nat,
{
    match advance(s, k) {
        Err(e) => failed(e, k),
        Ok(k1) => if current(s, k1) is CurlyRight {
            ends_with(s, k1, ValueView::Object(Seq::empty()))
        } else if k1 <= s.len() {
            let members = parse_members(s, k1);
            Parsed {
                value: match members.value {
                    Ok(ms) => Ok(ValueView::Object(ms)),
                    Err(e) => Err(e),
                },
                next: members.next,
            }
        } else {
            failed(unexpected(s, k1), k1)
        },
    }
}

/// The members of an object from the `k`-th token on, up to the closing
/// brace: a string, a colon and a value each, with one comma between each two.
pub open spec fn parse_members(s: Seq<char>, k: nat) -> Parsed<Seq<(Seq<char>, ValueView)>>
    decreases s.len() - k, 3nat,
{
    match nth_token(s, k).token {
        Ok(TokenView::String(key)) => match advance(s, k) {
            Err(e) => failed(e, k),
            Ok(k1) => if !(current(s, k1) is Colon) {
                failed(unexpected(s, k1), k)
            } else {
                match advance(s, k1) {
                    Err(e) => failed(e, k),
                    Ok(k2) => if k2 <= s.len() {
                        let val = parse_value(s, k2);
                        match val.value {
                            Err(e) => failed(e, k),
                            Ok(v) => match current(s, val.next) {
                                TokenView::Comma => match advance(s, val.next) {
                                    Err(e) => failed(e, k),
                                    Ok(k3) => if k < k3 <= s.len() {
                                        after(seq![(key, v)], parse_members(s, k3))
                                    } else {
                                        failed(unexpected(s, val.next), k)
                                    },
                                },
                                TokenView::CurlyRight => ends_with(s, val.next, seq![(key, v)]),
                                _ => failed(unexpected(s, val.next), k),
                            },
                        }
                    } else {
                        failed(unexpected(s, k1), k)
                    },
                }
            },
        },
        _ => failed(unexpected(s, k), k),
    }
}

/// The value that begins with the `k`-th token and ends with the last token
/// of the text: any token behind it but `Eof` is an error.
pub open spec fn parse_to_end(s: Seq<char>, k: nat) -> Result<ValueView, JsonError> {
    let parsed = parse_value(s, k);
    match parsed.value {
        Err(e) => Err(e),
        Ok(v) => if current(s, parsed.next) is Eof {
            Ok(v)
        } else {
            Err(unexpected(s, parsed.next))
        },
    }
}

/// The value of a whole text: one value, and nothing but whitespace behind it.
pub open spec fn parse_document(s: Seq<char>) -> Result<ValueView, JsonError> {
    match nth_token(s, 0).token {
        Err(e) => Err(e),
        Ok(_) => parse_to_end(s, 0),
    }
}

/// Every token ends in the text, and a token other than `Eof` has at least
/// one character for itself and for each token before it.
pub proof fn lemma_nth_token_end(s: Seq<char>, k: nat)
    ensures
        0 <= nth_token(s, k).end <= s.len(),
        nth_token(s, k).token != Ok::<TokenView, JsonError>(TokenView::Eof) ==> k < nth_token(
            s,
            k,
        ).end,
        nth_token(s, k).token == Ok::<TokenView, JsonError>(TokenView::Eof) ==> nth_token(
            s,
            k,
        ).end == s.len(),
        nth_token(s, k + 1) == lex(s, nth_token(s, k).end),
    decreases k,
{
    if k == 0 {
        lemma_lex_end(s, 0);
    } else {
        lemma_nth_token_end(s, (k - 1) as nat);
        lemma_lex_end(s, nth_token(s, (k - 1) as nat).end);
    }
}

/// The offset at which reading the `k`-th token begins.
pub open spec fn token_start(t: Seq<char>, k: nat) -> int {
    if k == 0 {
        0
    } else {
        nth_token(t, (k - 1) as nat).end
    }
}

/// The `k`-th token is read from its start, and the next one from its end.
pub proof fn lemma_token_start(t: Seq<char>, k: nat)
    ensures
        nth_token(t, k) == lex(t, token_start(t, k)),
        0 <= token_start(t, k) <= t.len(),
        token_start(t, k + 1) == nth_token(t, k).end,
{
    if k > 0 {
        lemma_nth_token_end(t, (k - 1) as nat);
    }
}

/// A value that was parsed ends behind the token it began with.
pub proof fn lemma_parse_value_next(s: Seq<char>, k: nat)
    ensures
        parse_value(s, k).value is Ok ==> k < parse_value(s, k).next && nth_token(
            s,
            parse_value(s, k).next,
        ).token is Ok,
    decreases s.len() - k, 2nat,
{
    match nth_token(s, k).token {
        Ok(TokenView::SquareLeft) => {
            lemma_parse_array_next(s, k);
        },
        Ok(TokenView::CurlyLeft) => {
            lemma_parse_object_next(s, k);
        },
        _ => {},
    }
}

proof fn lemma_parse_array_next(s: Seq<char>, k: nat)
    ensures
        parse_array(s, k).value is Ok ==> k < parse_array(s, k).next && nth_token(
            s,
            parse_array(s, k).next,
        ).token is Ok,
    decreases s.len() - k, 1nat,
{
    if advance(s, k) is Ok && !(current(s, k + 1) is SquareRight) && k + 1 <= s.len() {
        lemma_parse_elements_next(s, k + 1);
    }
}

proof fn lemma_parse_elements_next(s: Seq<char>, k: nat)
    ensures
        parse_elements(s, k).value is Ok ==> k < parse_elements(s, k).next && nth_token(
            s,
            parse_elements(s, k).next,
        ).token is Ok,
    decreases s.len() - k, 3nat,
{
    lemma_parse_value_next(s, k);
    let first = parse_value(s, k);
    if first.value is Ok && current(s, first.next) is Comma && advance(s, first.next) is Ok {
        let k2 = first.next + 1;
        if k < k2 <= s.len() {
            lemma_parse_elements_next(s, k2 as nat);
        }
    }
}

proof fn lemma_parse_object_next(s: Seq<char>, k: nat)
    ensures
        parse_object(s, k).value is Ok ==> k < parse_object(s, k).next && nth_token(
            s,
            parse_object(s, k).next,
        ).token is Ok,
    decreases s.len() - k, 1nat,
{
    if advance(s, k) is Ok && !(current(s, k + 1) is CurlyRight) && k + 1 <= s.len() {
        lemma_parse_members_next(s, k + 1);
    }
}

proof fn lemma_parse_members_next(s: Seq<char>, k: nat)
    ensures
        parse_members(s, k).value is Ok ==> k < parse_members(s, k).next && nth_token(
            s,
            parse_members(s, k).next,
        ).token is Ok,
    decreases s.len() - k, 3nat,
{
    if nth_token(s, k).token is Ok && current(s, k) is String && advance(s, k) is Ok && current(
        s,
        k + 1,
    ) is Colon && advance(s, k + 1) is Ok && k + 2 <= s.len() {
        let k2 = k + 2;
        lemma_parse_value_next(s, k2);
        let val = parse_value(s, k2);
        if val.value is Ok && current(s, val.next) is Comma && advance(s, val.next) is Ok {
            let k3 = val.next + 1;
            if k < k3 <= s.len() {
                lemma_parse_members_next(s, k3 as nat);
            }
        }
    }
}

/// The result of a parsing step as contracts see it.
pub open spec fn value_result_view(r: Result<JsonValue, JsonError>) -> Result<
    ValueView,
    JsonError,
> {
    match r {
        Ok(v) => Ok(v@),
        Err(e) => Err(e),
    }
}

/// A parser over one text, with one token of lookahead.
pub struct Parser {
    lexer: Lexer,
    current_token: Token,
    index: Ghost<nat>,
}

impl Parser {
    /// The whole text that the parser reads.
    pub closed spec fn text(&self) -> Seq<char> {
        self.lexer.text()
    }

    /// How many tokens lie before the current one.
    pub closed spec fn index(&self) -> nat {
        self.index@
    }

    /// The current token is the one that the lexer gave last.
    pub closed spec fn wf(&self) -> bool {
        &&& self.lexer.wf()
        &&& nth_token(self.lexer.text(), self.index@) == Lexed {
            token: Ok(self.current_token@),
            end: self.lexer.offset(),
        }
    }

    /// A parser at the first token of `input`, or the error of that token.
    pub fn new(input: &str) -> (r: Result<Parser, JsonError>)
        ensures
            match nth_token(input@, 0).token {
                Ok(_) => r matches Ok(parser) && parser.wf() && parser.text() == input@
                    && parser.index() == 0,
                Err(e) => r matches Err(e2) && e2 == e,
            },
    {
        let mut lexer = Lexer::new(input);
        match lexer.next_token() {
            Ok(current_token) => Ok(Parser { lexer, current_token, index: Ghost(0) }),
            Err(e) => Err(e),
        }
    }

    /// Reads the next token and hands out the one that was current.
    fn advance(&mut self) -> (r: Result<Token, JsonError>)
        requires
            old(self).wf(),
        ensures
            final(self).text() == old(self).text(),
            match advance(old(self).text(), old(self).index()) {
                Ok(next) => r matches Ok(token) && token@ == current(
                    old(self).text(),
                    old(self).index(),
                ) && final(self).wf() && final(self).index() == next,
                Err(e) => r matches Err(e2) && e2 == e,
            },
    {
        proof {
            lemma_nth_token_end(self.lexer.text(), self.index@);
        }
        match self.lexer.next_token() {
            Ok(token) => {
                let mut previous = token;
                core::mem::swap(&mut self.current_token, &mut previous);
                self.index = Ghost((self.index@ + 1) as nat);
                Ok(previous)
            },
            Err(e) => Err(e),
        }
    }

    /// The error for a current token that the grammar does not allow.
    fn unexpected(&self) -> (e: JsonError)
        requires
            self.wf(),
        ensures
            e == unexpected(self.text(), self.index()),
    {
        JsonError::InvalidToken { line: self.lexer.line(), col: self.lexer.col() }
    }

    /// The value from the current token to the end of the text: one value,
    /// and no token behind it.
    pub fn parse(&mut self) -> (r: Result<JsonValue, JsonError>)
        requires
            old(self).wf(),
        ensures
            value_result_view(r) == parse_to_end(old(self).text(), old(self).index()),
    {
        let value = match self.parse_value() {
            Ok(value) => value,
            Err(e) => {
                return Err(e);
            },
        };
        match self.current_token {
            Token::Eof => Ok(value),
            _ => Err(self.unexpected()),
        }
    }

    /// The value that begins with the current token.
    fn parse_value(&mut self) -> (r: Result<JsonValue, JsonError>)
        requires
            old(self).wf(),
        ensures
            final(self).text() == old(self).text(),
            value_result_view(r) == parse_value(old(self).text(), old(self).index()).value,
            r is Ok ==> final(self).wf() && final(self).index() == parse_value(
                old(self).text(),
                old(self).index(),
            ).next,
        decreases old(self).text().len() - old(self).index(), 2nat,
    {
        match self.current_token {
            Token::SquareLeft => {
                return self.parse_array();
            },
            Token::CurlyLeft => {
                return self.parse_object();
            },
            Token::Null | Token::True | Token::False | Token::Number(_) | Token::String(_) => {},
            _ => {
                return Err(self.unexpected());
            },
        }
        let token = match self.advance() {
            Ok(token) => token,
            Err(e) => {
                return Err(e);
            },
        };
        Ok(
            match token {
                Token::True => JsonValue::Bool(true),
                Token::False => JsonValue::Bool(false),
                Token::Number(n) => JsonValue::Number(n),
                Token::String(s) => JsonValue::String(s),
                _ => JsonValue::Null,
            },
        )
    }

    /// The array whose opening bracket is the current token.
    fn parse_array(&mut self) -> (r: Result<JsonValue, JsonError>)
        requires
            old(self).wf(),
            current(old(self).text(), old(self).index()) is SquareLeft,
        ensures
            final(self).text() == old(self).text(),
            value_result_view(r) == parse_array(old(self).text(), old(self).index()).value,
            r is Ok ==> final(self).wf() && final(self).index() == parse_array(
                old(self).text(),
                old(self).index(),
            ).next,
        decreases old(self).text().len() - old(self).index(), 1nat,
    {
        let ghost s = self.text();
        let ghost k = self.index();
        proof {
            lemma_nth_token_end(s, k);
        }
        if let Err(e) = self.advance() {
            return Err(e);
        }
        let mut elements: Vec<JsonValue> = Vec::new();
        if let Token::SquareRight = self.current_token {
            if let Err(e) = self.advance() {
                return Err(e);
            }
            proof {
                lemma_view_unfold(JsonValue::Array(elements));
                assert(values_view(elements@) =~= Seq::<ValueView>::empty());
            }
            return Ok(JsonValue::Array(elements));
        }
        let ghost k1 = self.index();
        loop
            invariant
                self.wf(),
                self.text() == s,
                s == old(self).text(),
                k == old(self).index(),
                k < self.index() <= s.len(),
                parse_elements(s, k1) == after(
                    values_view(elements@),
                    parse_elements(s, self.index()),
                ),
                parse_array(s, k).value == match parse_elements(s, k1).value {
                    Ok(vs) => Ok::<ValueView, JsonError>(ValueView::Array(vs)),
                    Err(e) => Err::<ValueView, JsonError>(e),
                },
                parse_array(s, k).next == parse_elements(s, k1).next,
            decreases s.len() - self.index(),
        {
            let ghost k2 = self.index();
            let ghost before = elements@;
            let element = match self.parse_value() {
                Ok(element) => element,
                Err(e) => {
                    return Err(e);
                },
            };
            let ghost v = element@;
            elements.push(element);
            assert(values_view(elements@) =~= values_view(before) + seq![v]);
            proof {
                lemma_nth_token_end(s, self.index());
            }
            match self.current_token {
                Token::Comma => {
                    if let Err(e) = self.advance() {
                        return Err(e);
                    }
                    proof {
                        lemma_parse_value_next(s, k2);
                        lemma_nth_token_end(s, self.index());
                        let rest = parse_elements(s, self.index());
                        if rest.value is Ok {
                            assert(values_view(before) + (seq![v] + rest.value->Ok_0)
                                =~= values_view(elements@) + rest.value->Ok_0);
                        }
                    }
                },
                Token::SquareRight => {
                    if let Err(e) = self.advance() {
                        return Err(e);
                    }
                    proof {
                        lemma_view_unfold(JsonValue::Array(elements));
                    }
                    return Ok(JsonValue::Array(elements));
                },
                _ => {
                    return Err(self.unexpected());
                },
            }
        }
    }

    /// The object whose opening brace is the current token.
    fn parse_object(&mut self) -> (r: Result<JsonValue, JsonError>)
        requires
            old(self).wf(),
            current(old(self).text(), old(self).index()) is CurlyLeft,
        ensures
            final(self).text() == old(self).text(),
            value_result_view(r) == parse_object(old(self).text(), old(self).index()).value,
            r is Ok ==> final(self).wf() && final(self).index() == parse_object(
                old(self).text(),
                old(self).index(),
            ).next,
        decreases old(self).text().len() - old(self).index(), 1nat,
    {
        let ghost s = self.text();
        let ghost k = self.index();
        proof {
            lemma_nth_token_end(s, k);
        }
        if let Err(e) = self.advance() {
            return Err(e);
        }
        let mut pairs: Vec<(String, JsonValue)> = Vec::new();
        if let Token::CurlyRight = self.current_token {
            if let Err(e) = self.advance() {
                return Err(e);
            }
            proof {
                lemma_view_unfold(JsonValue::Object(pairs));
                assert(members_view(pairs@) =~= Seq::<(Seq<char>, ValueView)>::empty());
            }
            return Ok(JsonValue::Object(pairs));
        }
        let ghost k1 = self.index();
        loop
            invariant
                self.wf(),
                self.text() == s,
                s == old(self).text(),
                k == old(self).index(),
                k < self.index() <= s.len(),
                parse_members(s, k1) == after(
                    members_view(pairs@),
                    parse_members(s, self.index()),
                ),
                parse_object(s, k).value == match parse_members(s, k1).value {
                    Ok(ms) => Ok::<ValueView, JsonError>(ValueView::Object(ms)),
                    Err(e) => Err::<ValueView, JsonError>(e),
                },
                parse_object(s, k).next == parse_members(s, k1).next,
            decreases s.len() - self.index(),
        {
            let ghost k2 = self.index();
            let ghost before = pairs@;
            match self.current_token {
                Token::String(_) => {},
                _ => {
                    return Err(self.unexpected());
                },
            }
            proof {
                lemma_nth_token_end(s, k2);
            }
            let key = match self.advance() {
                Ok(Token::String(key)) => key,
                Ok(_) => String::new(),
                Err(e) => {
                    return Err(e);
                },
            };
            match self.current_token {
                Token::Colon => {},
                _ => {
                    return Err(self.unexpected());
                },
            }
            proof {
                lemma_nth_token_end(s, self.index());
            }
            if let Err(e) = self.advance() {
                return Err(e);
            }
            let ghost k3 = self.index();
            proof {
                lemma_nth_token_end(s, k3);
            }
            let value = match self.parse_value() {
                Ok(value) => value,
                Err(e) => {
                    return Err(e);
                },
            };
            let ghost member = (key@, value@);
            pairs.push((key, value));
            assert(members_view(pairs@) =~= members_view(before) + seq![member]);
            proof {
                lemma_nth_token_end(s, self.index());
            }
            match self.current_token {
                Token::Comma => {
                    if let Err(e) = self.advance() {
                        return Err(e);
                    }
                    proof {
                        lemma_parse_value_next(s, k3);
                        lemma_nth_token_end(s, self.index());
                        let rest = parse_members(s, self.index());
                        if rest.value is Ok {
                            assert(members_view(before) + (seq![member] + rest.value->Ok_0)
                                =~= members_view(pairs@) + rest.value->Ok_0);
                        }
                    }
                },
                Token::CurlyRight => {
                    if let Err(e) = self.advance() {
                        return Err(e);
                    }
                    proof {
                        lemma_view_unfold(JsonValue::Object(pairs));
                    }
                    return Ok(JsonValue::Object(pairs));
                },
                _ => {
                    return Err(self.unexpected());
                },
            }
        }
    }
}

} // verus!
