//! Parse errors: what went wrong, and where (1-based line, 1-based column
//! counted in characters, and the byte offset into the input).
use vstd::prelude::*;
use vstd::string::StringExecFns;
use crate::text::{decimal, push_char, push_decimal};

verus! {

/// Everything that can make a document fail to parse.
#[derive(Debug, Clone, PartialEq, Eq, Structural)]
pub enum ErrorKind {
    UnexpectedChar(char),
    UnexpectedEof,
    InvalidEscape(char),
    InvalidUnicodeEscape,
    LoneSurrogate,
    InvalidNumber,
    ControlCharInString,
    DepthExceeded,
    TrailingData,
    ExpectedValue,
    ExpectedColon,
    ExpectedCommaOrEnd,
    ExpectedString,
}

/// A parse error with the position at which it was detected.
#[derive(Debug, Clone, PartialEq, Eq, Structural)]
pub struct ParseError {
    pub kind: ErrorKind,
    pub line: usize,
    pub col: usize,
    pub byte_offset: usize,
}

/// What std's `Debug` formatting writes for a character: the character between
/// single quotes, escaped where needed.
pub uninterp spec fn char_debug(c: char) -> Seq<char>;

/// A printable ASCII character other than the single quote and the backslash: its
/// `Debug` form is the character itself between single quotes.
pub open spec fn shown_plainly(c: char) -> bool {
    0x20 <= c as u32 <= 0x7e && c != '\'' && c != '\\'
}

/// std's `Debug` formatting of a `char` (`format!("{:?}", c)`). The contract claims
/// that the result is [`char_debug`] of `c`, and, for printable ASCII characters other
/// than the quote and the backslash, that it is the character between single quotes.
#[verifier::external_body]
fn debug_char(c: char) -> (s: String)
    ensures
        s@ == char_debug(c),
        shown_plainly(c) ==> s@ == seq!['\'', c, '\''],
{
    format!("{:?}", c)
}

/// The human-readable description of an error kind.
pub open spec fn kind_message(kind: ErrorKind) -> Seq<char> {
    match kind {
        ErrorKind::UnexpectedChar(c) => "unexpected character "@ + char_debug(c),
        ErrorKind::UnexpectedEof => "unexpected end of input"@,
        ErrorKind::InvalidEscape(c) => "invalid escape sequence \\"@ + seq![c],
        ErrorKind::InvalidUnicodeEscape => "invalid unicode escape"@,
        ErrorKind::LoneSurrogate => "lone UTF-16 surrogate"@,
        ErrorKind::InvalidNumber => "invalid number"@,
        ErrorKind::ControlCharInString => "unescaped control character in string"@,
        ErrorKind::DepthExceeded => "maximum nesting depth exceeded"@,
        ErrorKind::TrailingData => "unexpected trailing data after value"@,
        ErrorKind::ExpectedValue => "expected a JSON value"@,
        ErrorKind::ExpectedColon => "expected ':' after object key"@,
        ErrorKind::ExpectedCommaOrEnd => "expected ',' or closing bracket"@,
        ErrorKind::ExpectedString => "expected a string"@,
    }
}

/// The human-readable description of an error: its kind, then its line and column.
pub open spec fn error_message(e: ParseError) -> Seq<char> {
    kind_message(e.kind) + " at line "@ + decimal(e.line as nat) + ", column "@ + decimal(
        e.col as nat,
    )
}

/// The description of an error kind in which `shown` stands for the character of
/// an [`ErrorKind::UnexpectedChar`].
pub open spec fn kind_text(kind: ErrorKind, shown: Seq<char>) -> Seq<char> {
    match kind {
        ErrorKind::UnexpectedChar(_) => "unexpected character "@ + shown,
        _ => kind_message(kind),
    }
}

impl ErrorKind {
    /// The description of this kind, as it is shown to users.
    pub fn to_string(&self) -> (s: String)
        ensures
            s@ == kind_message(*self),
            *self matches ErrorKind::UnexpectedChar(c) ==> (shown_plainly(c) ==> s@
                == "unexpected character "@ + seq!['\'', c, '\'']),
    {
        match self {
            ErrorKind::UnexpectedChar(c) => {
                let d = debug_char(*c);
                self.describe(d.as_str())
            },
            _ => self.describe(""),
        }
    }

    /// The description of this kind, with `shown` written for the character of an
    /// [`ErrorKind::UnexpectedChar`] (its `Debug` form in [`ErrorKind::to_string`]).
    pub fn describe(&self, shown: &str) -> (s: String)
        ensures
            s@ == kind_text(*self, shown@),
    {
        match self {
            ErrorKind::UnexpectedChar(_) => {
                let mut s = "unexpected character ".to_owned();
                s.append(shown);
                s
            },
            ErrorKind::UnexpectedEof => "unexpected end of input".to_owned(),
            ErrorKind::InvalidEscape(c) => {
                let mut s = "invalid escape sequence \\".to_owned();
                push_char(&mut s, *c);
                s
            },
            ErrorKind::InvalidUnicodeEscape => "invalid unicode escape".to_owned(),
            ErrorKind::LoneSurrogate => "lone UTF-16 surrogate".to_owned(),
            ErrorKind::InvalidNumber => "invalid number".to_owned(),
            ErrorKind::ControlCharInString => "unescaped control character in string".to_owned(),
            ErrorKind::DepthExceeded => "maximum nesting depth exceeded".to_owned(),
            ErrorKind::TrailingData => "unexpected trailing data after value".to_owned(),
            ErrorKind::ExpectedValue => "expected a JSON value".to_owned(),
            ErrorKind::ExpectedColon => "expected ':' after object key".to_owned(),
            ErrorKind::ExpectedCommaOrEnd => "expected ',' or closing bracket".to_owned(),
            ErrorKind::ExpectedString => "expected a string".to_owned(),
        }
    }
}

impl ParseError {
    pub fn new(kind: ErrorKind, line: usize, col: usize, byte_offset: usize) -> (e: Self)
        ensures
            e == (ParseError { kind, line, col, byte_offset }),
    {
        ParseError { kind, line, col, byte_offset }
    }

    /// The description of this error, as it is shown to users:
    /// `"<kind> at line <line>, column <col>"`.
    pub fn to_string(&self) -> (s: String)
        ensures
            s@ == error_message(*self),
            self.kind matches ErrorKind::UnexpectedChar(c) ==> (shown_plainly(c) ==> s@
                == "unexpected character "@ + seq!['\'', c, '\''] + " at line "@ + decimal(
                self.line as nat,
            ) + ", column "@ + decimal(self.col as nat)),
    {
        let mut s = self.kind.to_string();
        s.append(" at line ");
        push_decimal(&mut s, self.line);
        s.append(", column ");
        push_decimal(&mut s, self.col);
        s
    }
}

} // verus!
