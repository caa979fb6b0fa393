//! The value tree, the numbers in it, the tokens of the text and the errors.

use vstd::prelude::*;
use vstd::string::StringExecFns;
use crate::number::{decimal_text, push_decimal};
use crate::text::push_char;

verus! {

/// Why a text was rejected, with the one-based line and column of the place.
#[derive(Debug, Clone, Copy, PartialEq, Eq, Structural)]
pub enum JsonError {
    InvalidToken { line: usize, col: usize },
    UnexpectedEof { line: usize, col: usize },
    InvalidEscapeSequence { line: usize, col: usize },
    InvalidNumber { line: usize, col: usize },
}

/// Two errors are of one kind when they differ at most in line and column.
pub open spec fn same_kind(a: JsonError, b: JsonError) -> bool {
    match a {
        JsonError::InvalidToken { .. } => b is InvalidToken,
        JsonError::UnexpectedEof { .. } => b is UnexpectedEof,
        JsonError::InvalidEscapeSequence { .. } => b is InvalidEscapeSequence,
        JsonError::InvalidNumber { .. } => b is InvalidNumber,
    }
}

/// The words that the message of an error begins with.
pub open spec fn error_prefix(e: JsonError) -> Seq<char> {
    match e {
        JsonError::InvalidToken { .. } => "Invalid token at "@,
        JsonError::UnexpectedEof { .. } => "Unexpected EOF at "@,
        JsonError::InvalidEscapeSequence { .. } => "Invalid escape at "@,
        JsonError::InvalidNumber { .. } => "Invalid number at "@,
    }
}

impl JsonError {
    /// The line of the place of the error.
    pub open spec fn line(self) -> usize {
        match self {
            JsonError::InvalidToken { line, .. } => line,
            JsonError::UnexpectedEof { line, .. } => line,
            JsonError::InvalidEscapeSequence { line, .. } => line,
            JsonError::InvalidNumber { line, .. } => line,
        }
    }

    /// The column of the place of the error.
    pub open spec fn col(self) -> usize {
        match self {
            JsonError::InvalidToken { col, .. } => col,
            JsonError::UnexpectedEof { col, .. } => col,
            JsonError::InvalidEscapeSequence { col, .. } => col,
            JsonError::InvalidNumber { col, .. } => col,
        }
    }

    /// The message of the error: what went wrong, then line and column with
    /// a colon between them.
    pub fn to_string(&self) -> (r: String)
        ensures
            r@ == error_prefix(*self) + decimal_text(self.line() as nat) + seq![':'] + decimal_text(
                self.col() as nat,
            ),
    {
        let (prefix, line, col) = match self {
            JsonError::InvalidToken { line, col } => ("Invalid token at ", *line, *col),
            JsonError::UnexpectedEof { line, col } => ("Unexpected EOF at ", *line, *col),
            JsonError::InvalidEscapeSequence { line, col } => ("Invalid escape at ", *line, *col),
            JsonError::InvalidNumber { line, col } => ("Invalid number at ", *line, *col),
        };
        let mut out = String::from_str(prefix);
        push_decimal(&mut out, line as u64);
        push_char(&mut out, ':');
        push_decimal(&mut out, col as u64);
        assert(out@ =~= error_prefix(*self) + decimal_text(self.line() as nat) + seq![':']
            + decimal_text(self.col() as nat));
        out
    }
}

/// A number as contracts see it.
pub enum NumberView {
    Integer(i64),
    UnsignedInteger(u64),
    Float(Seq<char>),
}

/// A number of one of three kinds. `Float` keeps the decimal literal itself,
/// so that nothing of it is lost: turning it into a binary floating-point
/// number is left to the caller, and what depends on the binary number is
/// decided in `crate::float`, on the bits that the caller hands in.
#[derive(Debug, PartialEq)]
pub enum JsonNumber {
    Integer(i64),
    UnsignedInteger(u64),
    Float(String),
}

impl View for JsonNumber {
    type V = NumberView;

    open spec fn view(&self) -> NumberView {
        match self {
            JsonNumber::Integer(i) => NumberView::Integer(*i),
            JsonNumber::UnsignedInteger(u) => NumberView::UnsignedInteger(*u),
            JsonNumber::Float(text) => NumberView::Float(text@),
        }
    }
}

impl Clone for JsonNumber {
    fn clone(&self) -> (r: Self)
        ensures
            r@ == self@,
    {
        match self {
            JsonNumber::Integer(i) => JsonNumber::Integer(*i),
            JsonNumber::UnsignedInteger(u) => JsonNumber::UnsignedInteger(*u),
            JsonNumber::Float(text) => JsonNumber::Float(text.clone()),
        }
    }
}

/// A token as contracts see it.
pub enum TokenView {
    CurlyLeft,
    CurlyRight,
    SquareLeft,
    SquareRight,
    Colon,
    Comma,
    String(Seq<char>),
    Number(NumberView),
    True,
    False,
    Null,
    Eof,
}

/// One lexical unit of a JSON text.
#[derive(Debug, PartialEq)]
pub enum Token {
    CurlyLeft,
    CurlyRight,
    SquareLeft,
    SquareRight,
    Colon,
    Comma,
    String(String),
    Number(JsonNumber),
    True,
    False,
    Null,
    Eof,
}

impl View for Token {
    type V = TokenView;

    open spec fn view(&self) -> TokenView {
        match self {
            Token::CurlyLeft => TokenView::CurlyLeft,
            Token::CurlyRight => TokenView::CurlyRight,
            Token::SquareLeft => TokenView::SquareLeft,
            Token::SquareRight => TokenView::SquareRight,
            Token::Colon => TokenView::Colon,
            Token::Comma => TokenView::Comma,
            Token::String(s) => TokenView::String(s@),
            Token::Number(n) => TokenView::Number(n@),
            Token::True => TokenView::True,
            Token::False => TokenView::False,
            Token::Null => TokenView::Null,
            Token::Eof => TokenView::Eof,
        }
    }
}

impl Clone for Token {
    fn clone(&self) -> (r: Self)
        ensures
            r@ == self@,
    {
        match self {
            Token::CurlyLeft => Token::CurlyLeft,
            Token::CurlyRight => Token::CurlyRight,
            Token::SquareLeft => Token::SquareLeft,
            Token::SquareRight => Token::SquareRight,
            Token::Colon => Token::Colon,
            Token::Comma => Token::Comma,
            Token::String(s) => Token::String(s.clone()),
            Token::Number(n) => Token::Number(n.clone()),
            Token::True => Token::True,
            Token::False => Token::False,
            Token::Null => Token::Null,
            Token::Eof => Token::Eof,
        }
    }
}

/// A value tree as contracts see it.
pub enum ValueView {
    Null,
    Bool(bool),
    Number(NumberView),
    String(Seq<char>),
    Array(Seq<ValueView>),
    Object(Seq<(Seq<char>, ValueView)>),
}

/// Any JSON value. An object keeps its members in the order given, and keeps
/// members with equal keys.
#[derive(Debug, PartialEq)]
pub enum JsonValue {
    Null,
    Bool(bool),
    Number(JsonNumber),
    String(String),
    Array(Vec<JsonValue>),
    Object(Vec<(String, JsonValue)>),
}

/// The view of a value, by recursion on the tree.
pub open spec fn value_view(v: JsonValue) -> ValueView
    decreases v,
{
    match v {
        JsonValue::Null => ValueView::Null,
        JsonValue::Bool(b) => ValueView::Bool(b),
        JsonValue::Number(n) => ValueView::Number(n@),
        JsonValue::String(s) => ValueView::String(s@),
        JsonValue::Array(items) => ValueView::Array(
            Seq::new(
                items@.len(),
                |i: int|
                    if 0 <= i < items@.len() {
                        value_view(items@[i])
                    } else {
                        ValueView::Null
                    },
            ),
        ),
        JsonValue::Object(members) => ValueView::Object(
            Seq::new(
                members@.len(),
                |i: int|
                    if 0 <= i < members@.len() {
                        (members@[i].0@, value_view(members@[i].1))
                    } else {
                        (Seq::empty(), ValueView::Null)
                    },
            ),
        ),
    }
}

impl View for JsonValue {
    type V = ValueView;

    open spec fn view(&self) -> ValueView {
        value_view(*self)
    }
}

/// The view of a whole vector of values.
pub open spec fn values_view(items: Seq<JsonValue>) -> Seq<ValueView> {
    Seq::new(items.len(), |i: int| items[i]@)
}

/// The view of a whole vector of members.
pub open spec fn members_view(members: Seq<(String, JsonValue)>) -> Seq<(Seq<char>, ValueView)> {
    Seq::new(members.len(), |i: int| (members[i].0@, members[i].1@))
}

/// What the view of an array or an object is, stated with the two functions above.
pub proof fn lemma_view_unfold(v: JsonValue)
    ensures
        v is Array ==> v@ == ValueView::Array(values_view(v->Array_0@)),
        v is Object ==> v@ == ValueView::Object(members_view(v->Object_0@)),
        v is Null ==> v@ == ValueView::Null,
        v is Bool ==> v@ == ValueView::Bool(v->Bool_0),
        v is Number ==> v@ == ValueView::Number(v->Number_0@),
        v is String ==> v@ == ValueView::String(v->String_0@),
{
    if v is Array {
        assert(v@->Array_0 =~= values_view(v->Array_0@));
    }
    if v is Object {
        assert(v@->Object_0 =~= members_view(v->Object_0@));
    }
}

impl Clone for JsonValue {
    fn clone(&self) -> (r: Self)
        ensures
            r@ == self@,
        decreases self,
    {
        proof {
            lemma_view_unfold(*self);
        }
        match self {
            JsonValue::Null => JsonValue::Null,
            JsonValue::Bool(b) => JsonValue::Bool(*b),
            JsonValue::Number(n) => JsonValue::Number(n.clone()),
            JsonValue::String(s) => JsonValue::String(s.clone()),
            JsonValue::Array(items) => {
                let mut copies: Vec<JsonValue> = Vec::new();
                let mut i: usize = 0;
                while i < items.len()
                    invariant
                        i <= items.len(),
                        decreases_to!(self => items),
                        copies.len() == i,
                        forall|j: int| 0 <= j < i ==> (#[trigger] copies@[j])@ == items@[j]@,
                    decreases items.len() - i,
                {
                    proof {
                        broadcast use vstd::std_specs::vec::axiom_vec_index_decreases;

                        assert(decreases_to!(items => items[i as int]));
                    }
                    let copy = items[i].clone();
                    copies.push(copy);
                    i += 1;
                }
                proof {
                    lemma_view_unfold(JsonValue::Array(copies));
                    assert(values_view(copies@) =~= values_view(items@));
                }
                JsonValue::Array(copies)
            },
            JsonValue::Object(members) => {
                let mut copies: Vec<(String, JsonValue)> = Vec::new();
                let mut i: usize = 0;
                while i < members.len()
                    invariant
                        i <= members.len(),
                        decreases_to!(self => members),
                        copies.len() == i,
                        forall|j: int|
                            0 <= j < i ==> (#[trigger] copies@[j]).0@ == members@[j].0@
                                && copies@[j].1@ == members@[j].1@,
                    decreases members.len() - i,
                {
                    proof {
                        broadcast use vstd::std_specs::vec::axiom_vec_index_decreases;

                        assert(decreases_to!(members => members[i as int]));
                        assert(decreases_to!(members[i as int] => members[i as int].1));
                    }
                    let key = members[i].0.clone();
                    let value = members[i].1.clone();
                    copies.push((key, value));
                    i += 1;
                }
                proof {
                    lemma_view_unfold(JsonValue::Object(copies));
                    assert(members_view(copies@) =~= members_view(members@));
                }
                JsonValue::Object(copies)
            },
        }
    }
}

} // verus!
