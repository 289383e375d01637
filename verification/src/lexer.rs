//! Tokenizer for JSON text.
//!
//! The lexer reads the input character by character. Positions are reported
//! as a 1-based line, a 1-based column counted in characters, and the byte
//! offset of the UTF-8 encoded input; all three are functions of the number of
//! characters consumed ([`line_at`], [`col_at`], [`byte_at`]).
use vstd::prelude::*;
use vstd::utf8::*;
use crate::error::{ErrorKind, ParseError};
use crate::text::{
    char_width, char_width_exec, chars_of, is_digit, is_hex, is_ws, lead_char, lead_char_exec,
    lemma_encode_scalar_len, lemma_encode_utf8_prefix_len, lemma_encode_utf8_push,
    string_from_range,
};

verus! {

broadcast use vstd::seq_lib::group_seq_properties;

#[derive(Debug, Clone, PartialEq, Eq)]
pub enum Token {
    LBrace,
    RBrace,
    LBracket,
    RBracket,
    Colon,
    Comma,
    Null,
    True,
    False,
    /// Raw string content between the quotes — escape sequences are still
    /// encoded. `string::unescape` decodes them.
    String(String),
    /// Validated JSON number lexeme.
    Number(String),
}

/// The mathematical content of a [`Token`].
pub enum TokenView {
    LBrace,
    RBrace,
    LBracket,
    RBracket,
    Colon,
    Comma,
    Null,
    True,
    False,
    Str(Seq<char>),
    Num(Seq<char>),
}

impl View for Token {
    type V = TokenView;

    open spec fn view(&self) -> TokenView {
        match self {
            Token::LBrace => TokenView::LBrace,
            Token::RBrace => TokenView::RBrace,
            Token::LBracket => TokenView::LBracket,
            Token::RBracket => TokenView::RBracket,
            Token::Colon => TokenView::Colon,
            Token::Comma => TokenView::Comma,
            Token::Null => TokenView::Null,
            Token::True => TokenView::True,
            Token::False => TokenView::False,
            Token::String(s) => TokenView::Str(s@),
            Token::Number(s) => TokenView::Num(s@),
        }
    }
}

#[derive(Debug, Clone, Copy, PartialEq, Eq)]
pub struct Position {
    pub line: usize,
    pub col: usize,
    pub byte_offset: usize,
}

#[derive(Debug, Clone, PartialEq, Eq)]
pub struct Spanned {
    pub token: Token,
    pub start: Position,
}

// ---------------------------------------------------------------------------
// Positions
// ---------------------------------------------------------------------------
/// The line (1-based) on which the character at index `k` of `cs` stands:
/// one more than the number of line feeds before it.
pub open spec fn line_at(cs: Seq<char>, k: int) -> nat
    decreases k,
{
    if k <= 0 {
        1
    } else if cs[k - 1] == '\n' {
        line_at(cs, k - 1) + 1
    } else {
        line_at(cs, k - 1)
    }
}

/// The column (1-based, in characters) of the character at index `k` of `cs`.
pub open spec fn col_at(cs: Seq<char>, k: int) -> nat
    decreases k,
{
    if k <= 0 {
        1
    } else if cs[k - 1] == '\n' {
        1
    } else {
        col_at(cs, k - 1) + 1
    }
}

/// The byte offset of the character at index `k` of `cs` in the UTF-8 encoding of `cs`.
pub open spec fn byte_at(cs: Seq<char>, k: int) -> nat {
    encode_utf8(cs.take(k)).len()
}

/// `p` is the position of index `k` of `cs`.
pub open spec fn is_position_of(p: Position, cs: Seq<char>, k: int) -> bool {
    &&& p.line == line_at(cs, k)
    &&& p.col == col_at(cs, k)
    &&& p.byte_offset == byte_at(cs, k)
}

/// `e` reports `kind` at index `k` of `cs`.
pub open spec fn is_error_at(e: ParseError, kind: ErrorKind, cs: Seq<char>, k: int) -> bool {
    &&& e.kind == kind
    &&& e.line == line_at(cs, k)
    &&& e.col == col_at(cs, k)
    &&& e.byte_offset == byte_at(cs, k)
}

pub proof fn lemma_line_col_bound(cs: Seq<char>, k: int)
    requires
        0 <= k,
    ensures
        1 <= line_at(cs, k) <= k + 1,
        1 <= col_at(cs, k) <= k + 1,
    decreases k,
{
    if k > 0 {
        lemma_line_col_bound(cs, k - 1);
    }
}

proof fn lemma_byte_at_step(cs: Seq<char>, k: int)
    requires
        0 <= k < cs.len(),
    ensures
        byte_at(cs, k + 1) == byte_at(cs, k) + char_width(cs[k]),
        byte_at(cs, k + 1) <= encode_utf8(cs).len(),
{
    assert(cs.take(k + 1) =~= cs.take(k).push(cs[k]));
    lemma_encode_utf8_push(cs.take(k), cs[k]);
    lemma_encode_scalar_len(cs[k]);
    lemma_encode_utf8_prefix_len(cs, k + 1);
}

// ---------------------------------------------------------------------------
// The token grammar
// ---------------------------------------------------------------------------
/// The index of the first character at or after `k` that is not whitespace.
pub open spec fn skip_ws(cs: Seq<char>, k: int) -> int
    decreases cs.len() - k,
{
    if 0 <= k < cs.len() && is_ws(cs[k]) {
        skip_ws(cs, k + 1)
    } else {
        k
    }
}

/// Matches the keyword `kw` from its `i`-th character on, against `cs` from index `at + i`.
/// `None` when the rest matches; otherwise the error and the index where it was found.
pub open spec fn scan_keyword(cs: Seq<char>, at: int, kw: Seq<char>, i: int) -> Option<
    (ErrorKind, int),
>
    decreases kw.len() - i,
{
    if i >= kw.len() || i < 0 {
        None
    } else if at + i >= cs.len() {
        Some((ErrorKind::UnexpectedEof, at + i))
    } else if cs[at + i] == kw[i] {
        scan_keyword(cs, at, kw, i + 1)
    } else {
        Some((ErrorKind::UnexpectedChar(lead_char(cs[at + i])), at + i))
    }
}

/// Checks that `n` hexadecimal digits start at index `j`.
pub open spec fn scan_hex(cs: Seq<char>, j: int, n: nat) -> Option<(ErrorKind, int)>
    decreases n,
{
    if n == 0 {
        None
    } else if j >= cs.len() {
        Some((ErrorKind::UnexpectedEof, j))
    } else if is_hex(cs[j]) {
        scan_hex(cs, j + 1, (n - 1) as nat)
    } else {
        Some((ErrorKind::InvalidUnicodeEscape, j))
    }
}

pub proof fn lemma_scan_hex_ok(cs: Seq<char>, j: int, n: nat)
    requires
        0 <= j <= cs.len(),
        scan_hex(cs, j, n) is None,
    ensures
        j + n <= cs.len(),
        forall|i: int| j <= i < j + n ==> is_hex(#[trigger] cs[i]),
    decreases n,
{
    if n > 0 {
        lemma_scan_hex_ok(cs, j + 1, (n - 1) as nat);
    }
}

pub proof fn lemma_scan_hex_err(cs: Seq<char>, j: int, n: nat)
    requires
        0 <= j <= cs.len(),
        scan_hex(cs, j, n) is Some,
    ensures
        j <= (scan_hex(cs, j, n)->0).1 <= cs.len(),
        (scan_hex(cs, j, n)->0).1 < j + n,
    decreases n,
{
    if n > 0 && j < cs.len() && is_hex(cs[j]) {
        lemma_scan_hex_err(cs, j + 1, (n - 1) as nat);
    }
}

/// Scans the inside of a string literal from index `j` on; the literal's opening
/// quote is at `start`. `Ok` gives the index of the closing quote.
pub open spec fn scan_string(cs: Seq<char>, j: int, start: int) -> Result<int, (ErrorKind, int)>
    decreases cs.len() - j,
{
    if j < 0 || j >= cs.len() {
        Err((ErrorKind::UnexpectedEof, start))
    } else if cs[j] == '"' {
        Ok(j)
    } else if cs[j] == '\\' {
        if j + 1 >= cs.len() {
            Err((ErrorKind::UnexpectedEof, j + 1))
        } else if cs[j + 1] == 'u' {
            match scan_hex(cs, j + 2, 4) {
                Some(e) => Err(e),
                None => {
                    proof {
                        lemma_scan_hex_ok(cs, j + 2, 4);
                    }
                    scan_string(cs, j + 6, start)
                },
            }
        } else {
            scan_string(cs, j + 2, start)
        }
    } else if (cs[j] as u32) < 0x20 {
        Err((ErrorKind::ControlCharInString, j))
    } else {
        scan_string(cs, j + 1, start)
    }
}

/// The index just after the run of decimal digits that starts at `j`.
pub open spec fn digits_end(cs: Seq<char>, j: int) -> int
    decreases cs.len() - j,
{
    if 0 <= j < cs.len() && is_digit(cs[j]) {
        digits_end(cs, j + 1)
    } else {
        j
    }
}

/// The end of the integer part of a number starting at `k` (sign included):
/// either a single `0`, or a nonzero digit followed by digits.
pub open spec fn int_part_end(cs: Seq<char>, k: int) -> Option<int> {
    let j = if k < cs.len() && cs[k] == '-' {
        k + 1
    } else {
        k
    };
    if j < cs.len() && cs[j] == '0' {
        Some(j + 1)
    } else if j < cs.len() && '1' <= cs[j] && cs[j] <= '9' {
        Some(digits_end(cs, j + 1))
    } else {
        None
    }
}

/// The end of the optional fraction (`.` and at least one digit) starting at `j`.
pub open spec fn frac_end(cs: Seq<char>, j: int) -> Option<int> {
    if j < cs.len() && cs[j] == '.' {
        let d = digits_end(cs, j + 1);
        if d == j + 1 {
            None
        } else {
            Some(d)
        }
    } else {
        Some(j)
    }
}

/// The end of the optional exponent (`e`/`E`, an optional sign, at least one digit)
/// starting at `j`.
pub open spec fn exp_end(cs: Seq<char>, j: int) -> Option<int> {
    if j < cs.len() && (cs[j] == 'e' || cs[j] == 'E') {
        let s = if j + 1 < cs.len() && (cs[j + 1] == '+' || cs[j + 1] == '-') {
            j + 2
        } else {
            j + 1
        };
        let d = digits_end(cs, s);
        if d == s {
            None
        } else {
            Some(d)
        }
    } else {
        Some(j)
    }
}

/// The end of the number lexeme that starts at `k`, or `None` when it is malformed.
pub open spec fn number_end(cs: Seq<char>, k: int) -> Option<int> {
    match int_part_end(cs, k) {
        None => None,
        Some(j1) => match frac_end(cs, j1) {
            None => None,
            Some(j2) => exp_end(cs, j2),
        },
    }
}

/// The outcome of reading one token.
pub enum Lexed {
    /// Only whitespace is left.
    End,
    /// A token, with the index of its first character and the index just after it.
    Tok(TokenView, int, int),
    /// An error, and the index at which it is reported.
    Fail(ErrorKind, int),
}

pub open spec fn keyword_token(cs: Seq<char>, s: int, kw: Seq<char>, t: TokenView) -> Lexed {
    match scan_keyword(cs, s, kw, 0) {
        None => Lexed::Tok(t, s, s + kw.len()),
        Some((kind, o)) => Lexed::Fail(kind, o),
    }
}

/// The token read from index `k` of `cs`: whitespace is skipped first.
#[verifier::opaque]
pub open spec fn lex_at(cs: Seq<char>, k: int) -> Lexed {
    let s = skip_ws(cs, k);
    if s >= cs.len() {
        Lexed::End
    } else {
        let c = cs[s];
        if c == '{' {
            Lexed::Tok(TokenView::LBrace, s, s + 1)
        } else if c == '}' {
            Lexed::Tok(TokenView::RBrace, s, s + 1)
        } else if c == '[' {
            Lexed::Tok(TokenView::LBracket, s, s + 1)
        } else if c == ']' {
            Lexed::Tok(TokenView::RBracket, s, s + 1)
        } else if c == ':' {
            Lexed::Tok(TokenView::Colon, s, s + 1)
        } else if c == ',' {
            Lexed::Tok(TokenView::Comma, s, s + 1)
        } else if c == 't' {
            keyword_token(cs, s, seq!['t', 'r', 'u', 'e'], TokenView::True)
        } else if c == 'f' {
            keyword_token(cs, s, seq!['f', 'a', 'l', 's', 'e'], TokenView::False)
        } else if c == 'n' {
            keyword_token(cs, s, seq!['n', 'u', 'l', 'l'], TokenView::Null)
        } else if c == '"' {
            match scan_string(cs, s + 1, s) {
                Ok(e) => Lexed::Tok(TokenView::Str(cs.subrange(s + 1, e)), s, e + 1),
                Err((kind, o)) => Lexed::Fail(kind, o),
            }
        } else if c == '-' || is_digit(c) {
            match number_end(cs, s) {
                Some(e) => Lexed::Tok(TokenView::Num(cs.subrange(s, e)), s, e),
                None => Lexed::Fail(ErrorKind::InvalidNumber, s),
            }
        } else {
            Lexed::Fail(ErrorKind::UnexpectedChar(c), s)
        }
    }
}

// ---------------------------------------------------------------------------
// Facts about the grammar
// ---------------------------------------------------------------------------
pub proof fn lemma_skip_ws(cs: Seq<char>, k: int)
    requires
        0 <= k <= cs.len(),
    ensures
        k <= skip_ws(cs, k) <= cs.len(),
        skip_ws(cs, k) < cs.len() ==> !is_ws(cs[skip_ws(cs, k)]),
        forall|i: int| k <= i < skip_ws(cs, k) ==> is_ws(#[trigger] cs[i]),
    decreases cs.len() - k,
{
    if k < cs.len() && is_ws(cs[k]) {
        lemma_skip_ws(cs, k + 1);
    }
}

pub proof fn lemma_digits_end(cs: Seq<char>, j: int)
    requires
        0 <= j <= cs.len(),
    ensures
        j <= digits_end(cs, j) <= cs.len(),
        digits_end(cs, j) < cs.len() ==> !is_digit(cs[digits_end(cs, j)]),
        forall|i: int| j <= i < digits_end(cs, j) ==> is_digit(#[trigger] cs[i]),
    decreases cs.len() - j,
{
    if j < cs.len() && is_digit(cs[j]) {
        lemma_digits_end(cs, j + 1);
    }
}

pub proof fn lemma_scan_keyword(cs: Seq<char>, at: int, kw: Seq<char>, i: int)
    requires
        0 <= at,
        0 <= i <= kw.len(),
        at + i <= cs.len(),
    ensures
        scan_keyword(cs, at, kw, i) is None ==> at + kw.len() <= cs.len(),
        scan_keyword(cs, at, kw, i) matches Some((_, o)) ==> at + i <= o <= cs.len() && o < at
            + kw.len(),
    decreases kw.len() - i,
{
    if i < kw.len() && at + i < cs.len() && cs[at + i] == kw[i] {
        lemma_scan_keyword(cs, at, kw, i + 1);
    }
}

pub proof fn lemma_scan_string(cs: Seq<char>, j: int, start: int)
    requires
        0 <= start < j <= cs.len(),
    ensures
        scan_string(cs, j, start) matches Ok(e) ==> j <= e < cs.len() && cs[e] == '"',
        scan_string(cs, j, start) matches Err((_, o)) ==> start <= o <= cs.len(),
    decreases cs.len() - j,
{
    if j < cs.len() {
        if cs[j] == '\\' && j + 1 < cs.len() {
            if cs[j + 1] == 'u' {
                if scan_hex(cs, j + 2, 4) is None {
                    lemma_scan_hex_ok(cs, j + 2, 4);
                    lemma_scan_string(cs, j + 6, start);
                } else {
                    lemma_scan_hex_err(cs, j + 2, 4);
                }
            } else {
                lemma_scan_string(cs, j + 2, start);
            }
        } else if cs[j] != '"' && cs[j] != '\\' && !((cs[j] as u32) < 0x20) {
            lemma_scan_string(cs, j + 1, start);
        }
    }
}

pub proof fn lemma_number_end(cs: Seq<char>, k: int)
    requires
        0 <= k < cs.len(),
    ensures
        number_end(cs, k) matches Some(e) ==> k < e <= cs.len(),
{
    let j = if k < cs.len() && cs[k] == '-' {
        k + 1
    } else {
        k
    };
    if j < cs.len() {
        lemma_digits_end(cs, j + 1);
        if let Some(j1) = int_part_end(cs, k) {
            if j1 < cs.len() {
                lemma_digits_end(cs, j1 + 1);
            }
            if let Some(j2) = frac_end(cs, j1) {
                if j2 + 2 <= cs.len() {
                    lemma_digits_end(cs, j2 + 2);
                }
                if j2 + 1 <= cs.len() {
                    lemma_digits_end(cs, j2 + 1);
                }
            }
        }
    }
}

/// Every token lies after the index it was read from and inside the input, and
/// every error is reported inside the input.
pub proof fn lemma_lex_at(cs: Seq<char>, k: int)
    requires
        0 <= k <= cs.len(),
    ensures
        lex_at(cs, k) matches Lexed::Tok(_, s, e) ==> k <= s < e <= cs.len() && s == skip_ws(
            cs,
            k,
        ),
        lex_at(cs, k) matches Lexed::Fail(_, o) ==> k <= o <= cs.len(),
        lex_at(cs, k) is End ==> skip_ws(cs, k) == cs.len(),
{
    reveal(lex_at);
    lemma_skip_ws(cs, k);
    let s = skip_ws(cs, k);
    if s < cs.len() {
        lemma_scan_keyword(cs, s, seq!['t', 'r', 'u', 'e'], 0);
        lemma_scan_keyword(cs, s, seq!['f', 'a', 'l', 's', 'e'], 0);
        lemma_scan_keyword(cs, s, seq!['n', 'u', 'l', 'l'], 0);
        lemma_scan_string(cs, s + 1, s);
        lemma_number_end(cs, s);
    }
}

// ---------------------------------------------------------------------------
// The lexer
// ---------------------------------------------------------------------------
pub struct Lexer {
    chars: Vec<char>,
    pos: usize,
    line: usize,
    col: usize,
    byte: usize,
}

pub fn is_ws_exec(c: char) -> (b: bool)
    ensures
        b == is_ws(c),
{
    c == ' ' || c == '\t' || c == '\n' || c == '\r'
}

pub fn is_digit_exec(c: char) -> (b: bool)
    ensures
        b == is_digit(c),
{
    '0' <= c && c <= '9'
}

pub fn is_hex_exec(c: char) -> (b: bool)
    ensures
        b == is_hex(c),
{
    ('0' <= c && c <= '9') || ('a' <= c && c <= 'f') || ('A' <= c && c <= 'F')
}

impl Lexer {
    /// The characters being tokenized.
    pub closed spec fn source(&self) -> Seq<char> {
        self.chars@
    }

    /// How many characters have been consumed.
    pub closed spec fn offset(&self) -> int {
        self.pos as int
    }

    /// The lexer's internal consistency: the recorded line, column and byte offset
    /// are those of the current index.
    pub closed spec fn wf(&self) -> bool {
        &&& self.pos <= self.chars@.len()
        &&& self.chars@.len() < usize::MAX
        &&& encode_utf8(self.chars@).len() <= usize::MAX
        &&& self.line == line_at(self.chars@, self.pos as int)
        &&& self.col == col_at(self.chars@, self.pos as int)
        &&& self.byte == byte_at(self.chars@, self.pos as int)
    }

    pub proof fn lemma_wf(&self)
        requires
            self.wf(),
        ensures
            0 <= self.offset() <= self.source().len() < usize::MAX,
    {
    }

    pub fn new(input: &str) -> (lex: Self)
        requires
            input@.len() < usize::MAX,
        ensures
            lex.wf(),
            lex.source() == input@,
            lex.offset() == 0,
    {
        let chars = chars_of(input);
        let bytes_len = input.as_bytes().len();
        proof {
            assert(chars@.take(0) =~= Seq::<char>::empty());
            assert(encode_utf8(Seq::<char>::empty()) =~= Seq::<u8>::empty());
        }
        Lexer { chars, pos: 0, line: 1, col: 1, byte: 0 }
    }

    pub fn position(&self) -> (p: Position)
        requires
            self.wf(),
        ensures
            is_position_of(p, self.source(), self.offset()),
    {
        Position { line: self.line, col: self.col, byte_offset: self.byte }
    }

    fn peek(&self) -> (r: Option<char>)
        requires
            self.wf(),
        ensures
            self.pos < self.chars@.len() ==> r == Some(self.chars@[self.pos as int]),
            self.pos >= self.chars@.len() ==> r is None,
    {
        if self.pos < self.chars.len() {
            Some(self.chars[self.pos])
        } else {
            None
        }
    }

    fn bump(&mut self)
        requires
            old(self).wf(),
            old(self).pos < old(self).chars@.len(),
        ensures
            final(self).wf(),
            final(self).chars@ == old(self).chars@,
            final(self).pos == old(self).pos + 1,
    {
        let c = self.chars[self.pos];
        proof {
            lemma_byte_at_step(self.chars@, self.pos as int);
            lemma_line_col_bound(self.chars@, self.pos as int);
        }
        self.pos = self.pos + 1;
        if c == '\n' {
            self.line = self.line + 1;
            self.col = 1;
        } else {
            self.col = self.col + 1;
        }
        self.byte = self.byte + char_width_exec(c);
    }

    fn err(&self, kind: ErrorKind) -> (e: ParseError)
        requires
            self.wf(),
        ensures
            is_error_at(e, kind, self.chars@, self.pos as int),
    {
        ParseError::new(kind, self.line, self.col, self.byte)
    }

    fn skip_whitespace(&mut self)
        requires
            old(self).wf(),
        ensures
            final(self).wf(),
            final(self).chars@ == old(self).chars@,
            final(self).pos == skip_ws(old(self).chars@, old(self).pos as int),
    {
        while self.pos < self.chars.len() && is_ws_exec(self.chars[self.pos])
            invariant
                self.wf(),
                self.chars@ == old(self).chars@,
                skip_ws(self.chars@, self.pos as int) == skip_ws(
                    old(self).chars@,
                    old(self).pos as int,
                ),
            decreases self.chars@.len() - self.pos,
        {
            self.bump();
        }
    }

    fn skip_digits(&mut self)
        requires
            old(self).wf(),
        ensures
            final(self).wf(),
            final(self).chars@ == old(self).chars@,
            final(self).pos == digits_end(old(self).chars@, old(self).pos as int),
    {
        while self.pos < self.chars.len() && is_digit_exec(self.chars[self.pos])
            invariant
                self.wf(),
                self.chars@ == old(self).chars@,
                digits_end(self.chars@, self.pos as int) == digits_end(
                    old(self).chars@,
                    old(self).pos as int,
                ),
            decreases self.chars@.len() - self.pos,
        {
            self.bump();
        }
    }

    pub fn next_token(&mut self) -> (r: Result<Option<Spanned>, ParseError>)
        requires
            old(self).wf(),
        ensures
            final(self).wf(),
            final(self).source() == old(self).source(),
            match lex_at(old(self).source(), old(self).offset()) {
                Lexed::End => r matches Ok(None) && final(self).offset() == old(self).source().len(),
                Lexed::Tok(t, s, e) => r matches Ok(Some(sp)) && sp.token@ == t
                    && is_position_of(sp.start, old(self).source(), s) && final(self).offset()
                    == e,
                Lexed::Fail(kind, o) => r matches Err(err) && is_error_at(
                    err,
                    kind,
                    old(self).source(),
                    o,
                ),
            },
    {
        proof {
            reveal(lex_at);
        }
        self.skip_whitespace();
        proof {
            lemma_skip_ws(self.chars@, old(self).pos as int);
        }
        let start = self.position();
        let c = match self.peek() {
            Some(c) => c,
            None => return Ok(None),
        };
        let token = if c == '{' {
            self.bump();
            Token::LBrace
        } else if c == '}' {
            self.bump();
            Token::RBrace
        } else if c == '[' {
            self.bump();
            Token::LBracket
        } else if c == ']' {
            self.bump();
            Token::RBracket
        } else if c == ':' {
            self.bump();
            Token::Colon
        } else if c == ',' {
            self.bump();
            Token::Comma
        } else if c == 't' {
            self.read_keyword(&['t', 'r', 'u', 'e'])?;
            Token::True
        } else if c == 'f' {
            self.read_keyword(&['f', 'a', 'l', 's', 'e'])?;
            Token::False
        } else if c == 'n' {
            self.read_keyword(&['n', 'u', 'l', 'l'])?;
            Token::Null
        } else if c == '"' {
            self.read_string(start)?
        } else if c == '-' || is_digit_exec(c) {
            self.read_number(start)?
        } else {
            return Err(self.err(ErrorKind::UnexpectedChar(c)));
        };
        Ok(Some(Spanned { token, start }))
    }

    fn read_keyword(&mut self, expected: &[char]) -> (r: Result<(), ParseError>)
        requires
            old(self).wf(),
        ensures
            final(self).wf(),
            final(self).chars@ == old(self).chars@,
            match scan_keyword(old(self).chars@, old(self).pos as int, expected@, 0) {
                None => r is Ok && final(self).pos == old(self).pos + expected@.len(),
                Some((kind, o)) => r matches Err(e) && is_error_at(e, kind, old(self).chars@, o),
            },
    {
        let ghost cs = self.chars@;
        let ghost p0 = self.pos as int;
        let mut i: usize = 0;
        while i < expected.len()
            invariant
                self.wf(),
                self.chars@ == cs,
                cs == old(self).chars@,
                p0 == old(self).pos,
                0 <= i <= expected@.len(),
                self.pos == p0 + i,
                scan_keyword(cs, p0, expected@, 0) == scan_keyword(cs, p0, expected@, i as int),
            decreases expected@.len() - i,
        {
            let exp = expected[i];
            match self.peek() {
                Some(c) => {
                    if c == exp {
                        self.bump();
                    } else {
                        let b = lead_char_exec(c);
                        return Err(self.err(ErrorKind::UnexpectedChar(b)));
                    }
                },
                None => {
                    return Err(self.err(ErrorKind::UnexpectedEof));
                },
            }
            i = i + 1;
        }
        Ok(())
    }

    fn read_hex4(&mut self) -> (r: Result<(), ParseError>)
        requires
            old(self).wf(),
        ensures
            final(self).wf(),
            final(self).chars@ == old(self).chars@,
            match scan_hex(old(self).chars@, old(self).pos as int, 4) {
                None => r is Ok && final(self).pos == old(self).pos + 4,
                Some((kind, o)) => r matches Err(e) && is_error_at(e, kind, old(self).chars@, o),
            },
    {
        let ghost cs = self.chars@;
        let ghost h0 = self.pos as int;
        let mut t: usize = 0;
        while t < 4
            invariant
                self.wf(),
                self.chars@ == cs,
                cs == old(self).chars@,
                h0 == old(self).pos,
                0 <= t <= 4,
                self.pos == h0 + t,
                scan_hex(cs, h0, 4) == scan_hex(cs, self.pos as int, (4 - t) as nat),
            decreases 4 - t,
        {
            match self.peek() {
                Some(h) => {
                    if is_hex_exec(h) {
                        self.bump();
                    } else {
                        return Err(self.err(ErrorKind::InvalidUnicodeEscape));
                    }
                },
                None => {
                    return Err(self.err(ErrorKind::UnexpectedEof));
                },
            }
            t = t + 1;
        }
        Ok(())
    }

    fn read_string(&mut self, start: Position) -> (r: Result<Token, ParseError>)
        requires
            old(self).wf(),
            old(self).pos < old(self).chars@.len(),
            is_position_of(start, old(self).chars@, old(self).pos as int),
        ensures
            final(self).wf(),
            final(self).chars@ == old(self).chars@,
            match scan_string(old(self).chars@, old(self).pos + 1, old(self).pos as int) {
                Ok(e) => r matches Ok(t) && t@ == TokenView::Str(
                    old(self).chars@.subrange(old(self).pos + 1, e),
                ) && final(self).pos == e + 1,
                Err((kind, o)) => r matches Err(err) && is_error_at(
                    err,
                    kind,
                    old(self).chars@,
                    o,
                ),
            },
    {
        let ghost cs = self.chars@;
        let ghost s0 = self.pos as int;
        self.bump();
        let content_start = self.pos;
        loop
            invariant
                self.wf(),
                self.chars@ == cs,
                cs == old(self).chars@,
                s0 == old(self).pos,
                content_start == s0 + 1,
                content_start <= self.pos <= cs.len(),
                is_position_of(start, cs, s0),
                scan_string(cs, self.pos as int, s0) == scan_string(cs, s0 + 1, s0),
            decreases cs.len() - self.pos,
        {
            match self.peek() {
                None => {
                    return Err(
                        ParseError::new(
                            ErrorKind::UnexpectedEof,
                            start.line,
                            start.col,
                            start.byte_offset,
                        ),
                    );
                },
                Some(c) => {
                    if c == '"' {
                        let raw = string_from_range(&self.chars, content_start, self.pos);
                        self.bump();
                        return Ok(Token::String(raw));
                    } else if c == '\\' {
                        self.bump();
                        match self.peek() {
                            None => {
                                return Err(self.err(ErrorKind::UnexpectedEof));
                            },
                            Some(e) => {
                                if e == 'u' {
                                    self.bump();
                                    self.read_hex4()?;
                                } else {
                                    self.bump();
                                }
                            },
                        }
                    } else if (c as u32) < 0x20 {
                        return Err(self.err(ErrorKind::ControlCharInString));
                    } else {
                        self.bump();
                    }
                },
            }
        }
    }

    fn read_int_part(&mut self) -> (ok: bool)
        requires
            old(self).wf(),
        ensures
            final(self).wf(),
            final(self).chars@ == old(self).chars@,
            match int_part_end(old(self).chars@, old(self).pos as int) {
                Some(e) => ok && final(self).pos == e,
                None => !ok,
            },
    {
        if self.peek() == Some('-') {
            self.bump();
        }
        match self.peek() {
            Some(c) => {
                if c == '0' {
                    self.bump();
                    true
                } else if '1' <= c && c <= '9' {
                    self.bump();
                    self.skip_digits();
                    true
                } else {
                    false
                }
            },
            None => false,
        }
    }

    fn read_frac(&mut self) -> (ok: bool)
        requires
            old(self).wf(),
        ensures
            final(self).wf(),
            final(self).chars@ == old(self).chars@,
            match frac_end(old(self).chars@, old(self).pos as int) {
                Some(e) => ok && final(self).pos == e,
                None => !ok,
            },
    {
        if self.peek() == Some('.') {
            self.bump();
            let digits_start = self.pos;
            self.skip_digits();
            self.pos != digits_start
        } else {
            true
        }
    }

    fn read_exp(&mut self) -> (ok: bool)
        requires
            old(self).wf(),
        ensures
            final(self).wf(),
            final(self).chars@ == old(self).chars@,
            match exp_end(old(self).chars@, old(self).pos as int) {
                Some(e) => ok && final(self).pos == e,
                None => !ok,
            },
    {
        let e_next = self.peek();
        if e_next == Some('e') || e_next == Some('E') {
            self.bump();
            let s_next = self.peek();
            if s_next == Some('+') || s_next == Some('-') {
                self.bump();
            }
            let digits_start = self.pos;
            self.skip_digits();
            self.pos != digits_start
        } else {
            true
        }
    }

    fn read_number(&mut self, start: Position) -> (r: Result<Token, ParseError>)
        requires
            old(self).wf(),
            old(self).pos < old(self).chars@.len(),
            is_position_of(start, old(self).chars@, old(self).pos as int),
        ensures
            final(self).wf(),
            final(self).chars@ == old(self).chars@,
            match number_end(old(self).chars@, old(self).pos as int) {
                Some(e) => r matches Ok(t) && t@ == TokenView::Num(
                    old(self).chars@.subrange(old(self).pos as int, e),
                ) && final(self).pos == e,
                None => r matches Err(err) && is_error_at(
                    err,
                    ErrorKind::InvalidNumber,
                    old(self).chars@,
                    old(self).pos as int,
                ),
            },
    {
        let start_pos = self.pos;
        let invalid = ParseError::new(
            ErrorKind::InvalidNumber,
            start.line,
            start.col,
            start.byte_offset,
        );
        let ghost cs = self.chars@;
        if !self.read_int_part() {
            return Err(invalid);
        }
        let ghost j1 = self.pos as int;
        assert(int_part_end(cs, start_pos as int) == Some(j1));
        if !self.read_frac() {
            return Err(invalid);
        }
        let ghost j2 = self.pos as int;
        assert(frac_end(cs, j1) == Some(j2));
        if !self.read_exp() {
            return Err(invalid);
        }
        assert(number_end(cs, start_pos as int) == Some(self.pos as int));
        proof {
            lemma_number_end(cs, start_pos as int);
        }
        let raw = string_from_range(&self.chars, start_pos, self.pos);
        Ok(Token::Number(raw))
    }
}

} // verus!
