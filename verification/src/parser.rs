//! Recursive-descent parser from JSON text to [`JsonValue`].
//!
//! The grammar is stated over the characters of the input by [`parse_spec`],
//! on top of the token grammar [`lex_at`]; [`parse`] is proved to compute it.
use vstd::prelude::*;
use crate::error::{ErrorKind, ParseError};
use crate::lexer::{is_error_at, is_position_of, lemma_lex_at, lex_at, Lexed, Lexer, Position, Spanned, Token, TokenView};
use crate::number::Number;
use crate::string::{error_at_position, unescape, unescape_spec};
use crate::value::{lemma_view_items_push, lemma_view_members_push, view_items, view_members, JsonValue, JsonView};

verus! {

/// Maximum nesting depth: a scalar or an empty container at the top level has
/// depth 1, and every container adds one level to its items.
pub const MAX_DEPTH: usize = 128;

/// A value and the index just after it, or an error and the index where it is reported.
pub type Parsed = Result<(JsonView, int), (ErrorKind, int)>;

/// Parses one value from index `k`. `d` is the nesting depth of the enclosing
/// containers; `dpos` is where a too-deep value is reported.
pub open spec fn parse_value_at(cs: Seq<char>, k: int, d: nat, dpos: int) -> Parsed
    decreases cs.len() - k, 0int,
{
    if d + 1 > MAX_DEPTH {
        Err((ErrorKind::DepthExceeded, dpos))
    } else {
        match lex_at(cs, k) {
            Lexed::Fail(kind, o) => Err((kind, o)),
            Lexed::End => Err((ErrorKind::ExpectedValue, cs.len() as int)),
            Lexed::Tok(t, s, e) => match t {
                TokenView::Null => Ok((JsonView::Null, e)),
                TokenView::True => Ok((JsonView::Bool(true), e)),
                TokenView::False => Ok((JsonView::Bool(false), e)),
                TokenView::Num(lx) => Ok((JsonView::Number(lx), e)),
                TokenView::Str(raw) => match unescape_spec(raw) {
                    Ok(u) => Ok((JsonView::Str(u), e)),
                    Err(kind) => Err((kind, s)),
                },
                TokenView::LBracket => if 0 <= k < e <= cs.len() {
                    parse_array_at(cs, e, d + 1)
                } else {
                    Err((ErrorKind::ExpectedValue, s))
                },
                TokenView::LBrace => if 0 <= k < e <= cs.len() {
                    parse_object_at(cs, e, d + 1)
                } else {
                    Err((ErrorKind::ExpectedValue, s))
                },
                _ => Err((ErrorKind::ExpectedValue, s)),
            },
        }
    }
}

/// Parses the items and the closing bracket of an array whose `[` ends at `k`.
pub open spec fn parse_array_at(cs: Seq<char>, k: int, d: nat) -> Parsed
    decreases cs.len() - k, 3int,
{
    match lex_at(cs, k) {
        Lexed::Fail(kind, o) => Err((kind, o)),
        Lexed::End => Err((ErrorKind::UnexpectedEof, cs.len() as int)),
        Lexed::Tok(TokenView::RBracket, _, e) => Ok((JsonView::Array(seq![]), e)),
        Lexed::Tok(_, _, e) => parse_elems_at(cs, k, d, seq![], e),
    }
}

/// Parses one array item from index `k` and the separator after it: the item, the
/// index just after the separator, and whether the separator closed the array.
pub open spec fn item_at(cs: Seq<char>, k: int, d: nat, dpos: int) -> Result<
    (JsonView, int, bool),
    (ErrorKind, int),
>
    decreases cs.len() - k, 1int,
{
    match parse_value_at(cs, k, d, dpos) {
        Err(x) => Err(x),
        Ok((v, k1)) => match lex_at(cs, k1) {
            Lexed::Fail(kind, o) => Err((kind, o)),
            Lexed::End => Err((ErrorKind::UnexpectedEof, cs.len() as int)),
            Lexed::Tok(TokenView::Comma, _, e) => Ok((v, e, false)),
            Lexed::Tok(TokenView::RBracket, _, e) => Ok((v, e, true)),
            Lexed::Tok(_, s, _) => Err((ErrorKind::ExpectedCommaOrEnd, s)),
        },
    }
}

/// Parses array items from index `k` on, after the items `acc`.
pub open spec fn parse_elems_at(cs: Seq<char>, k: int, d: nat, acc: Seq<JsonView>, dpos: int) -> Parsed
    decreases cs.len() - k, 2int,
{
    match item_at(cs, k, d, dpos) {
        Err(x) => Err(x),
        Ok((v, e, true)) => Ok((JsonView::Array(acc.push(v)), e)),
        Ok((v, e, false)) => if 0 <= k < e <= cs.len() {
            parse_elems_at(cs, e, d, acc.push(v), e)
        } else {
            Err((ErrorKind::ExpectedCommaOrEnd, k))
        },
    }
}

/// Parses the members and the closing brace of an object whose `{` ends at `k`.
pub open spec fn parse_object_at(cs: Seq<char>, k: int, d: nat) -> Parsed
    decreases cs.len() - k, 3int,
{
    match lex_at(cs, k) {
        Lexed::Fail(kind, o) => Err((kind, o)),
        Lexed::End => Err((ErrorKind::UnexpectedEof, cs.len() as int)),
        Lexed::Tok(TokenView::RBrace, _, e) => Ok((JsonView::Object(seq![]), e)),
        Lexed::Tok(_, _, _) => parse_members_at(cs, k, d, seq![]),
    }
}

/// Parses one `"key": value` member from index `k` and the separator after it: the
/// decoded key, the value, the index just after the separator, and whether the
/// separator closed the object.
pub open spec fn member_at(cs: Seq<char>, k: int, d: nat) -> Result<
    (Seq<char>, JsonView, int, bool),
    (ErrorKind, int),
>
    decreases cs.len() - k, 1int,
{
    match lex_at(cs, k) {
        Lexed::Fail(kind, o) => Err((kind, o)),
        Lexed::End => Err((ErrorKind::UnexpectedEof, cs.len() as int)),
        Lexed::Tok(TokenView::Str(raw), s, e) => match unescape_spec(raw) {
            Err(kind) => Err((kind, s)),
            Ok(key) => match lex_at(cs, e) {
                Lexed::Fail(kind, o) => Err((kind, o)),
                Lexed::End => Err((ErrorKind::UnexpectedEof, cs.len() as int)),
                Lexed::Tok(TokenView::Colon, s2, e2) => if 0 <= k < e2 <= cs.len() {
                    match parse_value_at(cs, e2, d, e2) {
                        Err(x) => Err(x),
                        Ok((v, k3)) => match lex_at(cs, k3) {
                            Lexed::Fail(kind, o) => Err((kind, o)),
                            Lexed::End => Err((ErrorKind::UnexpectedEof, cs.len() as int)),
                            Lexed::Tok(TokenView::Comma, _, e4) => Ok((key, v, e4, false)),
                            Lexed::Tok(TokenView::RBrace, _, e4) => Ok((key, v, e4, true)),
                            Lexed::Tok(_, s4, _) => Err((ErrorKind::ExpectedCommaOrEnd, s4)),
                        },
                    }
                } else {
                    Err((ErrorKind::ExpectedColon, s2))
                },
                Lexed::Tok(_, s2, _) => Err((ErrorKind::ExpectedColon, s2)),
            },
        },
        Lexed::Tok(_, s, _) => Err((ErrorKind::ExpectedString, s)),
    }
}

/// Parses object members from index `k` on, after the members `acc`.
pub open spec fn parse_members_at(
    cs: Seq<char>,
    k: int,
    d: nat,
    acc: Seq<(Seq<char>, JsonView)>,
) -> Parsed
    decreases cs.len() - k, 2int,
{
    match member_at(cs, k, d) {
        Err(x) => Err(x),
        Ok((key, v, e, true)) => Ok((JsonView::Object(acc.push((key, v))), e)),
        Ok((key, v, e, false)) => if 0 <= k < e <= cs.len() {
            parse_members_at(cs, e, d, acc.push((key, v)))
        } else {
            Err((ErrorKind::ExpectedCommaOrEnd, k))
        },
    }
}

/// The result of parsing a whole document: one value, and nothing but whitespace after it.
pub open spec fn parse_spec(cs: Seq<char>) -> Result<JsonView, (ErrorKind, int)> {
    match parse_value_at(cs, 0, 0, 0) {
        Err(x) => Err(x),
        Ok((v, k)) => match lex_at(cs, k) {
            Lexed::End => Ok(v),
            Lexed::Tok(_, s, _) => Err((ErrorKind::TrailingData, s)),
            Lexed::Fail(kind, o) => Err((kind, o)),
        },
    }
}

// ---------------------------------------------------------------------------
// Progress: every parsed value lies after the index it was parsed from.
// ---------------------------------------------------------------------------
pub proof fn lemma_value_progress(cs: Seq<char>, k: int, d: nat, dpos: int)
    requires
        0 <= k <= cs.len(),
    ensures
        parse_value_at(cs, k, d, dpos) matches Ok((_, e)) ==> k < e <= cs.len(),
    decreases cs.len() - k, 0int,
{
    lemma_lex_at(cs, k);
    if d + 1 <= MAX_DEPTH {
        if let Lexed::Tok(t, s, e) = lex_at(cs, k) {
            if t is LBracket {
                lemma_array_progress(cs, e, d + 1);
            } else if t is LBrace {
                lemma_object_progress(cs, e, d + 1);
            }
        }
    }
}

pub proof fn lemma_array_progress(cs: Seq<char>, k: int, d: nat)
    requires
        0 <= k <= cs.len(),
    ensures
        parse_array_at(cs, k, d) matches Ok((_, e)) ==> k < e <= cs.len(),
    decreases cs.len() - k, 3int,
{
    lemma_lex_at(cs, k);
    if let Lexed::Tok(t, _, e) = lex_at(cs, k) {
        if !(t is RBracket) {
            lemma_elems_progress(cs, k, d, seq![], e);
        }
    }
}

pub proof fn lemma_item_progress(cs: Seq<char>, k: int, d: nat, dpos: int)
    requires
        0 <= k <= cs.len(),
    ensures
        item_at(cs, k, d, dpos) matches Ok((_, e, _)) ==> k < e <= cs.len(),
    decreases cs.len() - k, 1int,
{
    lemma_value_progress(cs, k, d, dpos);
    if let Ok((v, k1)) = parse_value_at(cs, k, d, dpos) {
        lemma_lex_at(cs, k1);
    }
}

pub proof fn lemma_elems_progress(cs: Seq<char>, k: int, d: nat, acc: Seq<JsonView>, dpos: int)
    requires
        0 <= k <= cs.len(),
    ensures
        parse_elems_at(cs, k, d, acc, dpos) matches Ok((_, e)) ==> k < e <= cs.len(),
    decreases cs.len() - k, 2int,
{
    lemma_item_progress(cs, k, d, dpos);
    if let Ok((v, e, last)) = item_at(cs, k, d, dpos) {
        if !last && 0 <= k < e <= cs.len() {
            lemma_elems_progress(cs, e, d, acc.push(v), e);
        }
    }
}

pub proof fn lemma_object_progress(cs: Seq<char>, k: int, d: nat)
    requires
        0 <= k <= cs.len(),
    ensures
        parse_object_at(cs, k, d) matches Ok((_, e)) ==> k < e <= cs.len(),
    decreases cs.len() - k, 3int,
{
    lemma_lex_at(cs, k);
    if let Lexed::Tok(t, _, _) = lex_at(cs, k) {
        if !(t is RBrace) {
            lemma_members_progress(cs, k, d, seq![]);
        }
    }
}

pub proof fn lemma_member_progress(cs: Seq<char>, k: int, d: nat)
    requires
        0 <= k <= cs.len(),
    ensures
        member_at(cs, k, d) matches Ok((_, _, e, _)) ==> k < e <= cs.len(),
    decreases cs.len() - k, 1int,
{
    lemma_lex_at(cs, k);
    if let Lexed::Tok(TokenView::Str(raw), s, e) = lex_at(cs, k) {
        lemma_lex_at(cs, e);
        if let Lexed::Tok(TokenView::Colon, s2, e2) = lex_at(cs, e) {
            if 0 <= k < e2 <= cs.len() {
                lemma_value_progress(cs, e2, d, e2);
                if let Ok((v, k3)) = parse_value_at(cs, e2, d, e2) {
                    lemma_lex_at(cs, k3);
                }
            }
        }
    }
}

pub proof fn lemma_members_progress(
    cs: Seq<char>,
    k: int,
    d: nat,
    acc: Seq<(Seq<char>, JsonView)>,
)
    requires
        0 <= k <= cs.len(),
    ensures
        parse_members_at(cs, k, d, acc) matches Ok((_, e)) ==> k < e <= cs.len(),
    decreases cs.len() - k, 2int,
{
    lemma_member_progress(cs, k, d);
    if let Ok((key, v, e, last)) = member_at(cs, k, d) {
        if !last && 0 <= k < e <= cs.len() {
            lemma_members_progress(cs, e, d, acc.push((key, v)));
        }
    }
}

// ---------------------------------------------------------------------------
// The parser
// ---------------------------------------------------------------------------
pub fn parse(input: &str) -> (r: Result<JsonValue, ParseError>)
    requires
        input@.len() < usize::MAX,
    ensures
        match parse_spec(input@) {
            Ok(v) => r matches Ok(x) && x@ == v,
            Err((kind, o)) => r matches Err(e) && is_error_at(e, kind, input@, o),
        },
{
    let mut p = Parser::new(input);
    proof {
        p.lexer.lemma_wf();
    }
    let value = p.parse_value()?;
    if let Some(spanned) = p.next_token()? {
        return Err(err_at(ErrorKind::TrailingData, spanned.start));
    }
    Ok(value)
}

struct Parser {
    lexer: Lexer,
    peeked: Option<Spanned>,
    depth: usize,
    /// Where the peeked token, if any, was read from.
    mark: Ghost<int>,
}

impl Parser {
    /// The input.
    spec fn src(&self) -> Seq<char> {
        self.lexer.source()
    }

    /// Where reading resumes: the index the peeked token was read from, or else the
    /// lexer's index.
    spec fn resume(&self) -> int {
        if self.peeked is Some {
            self.mark@
        } else {
            self.lexer.offset()
        }
    }

    spec fn remaining(&self) -> int {
        self.src().len() - self.resume()
    }

    spec fn inv(&self) -> bool {
        &&& self.lexer.wf()
        &&& match self.peeked {
            Some(sp) => {
                &&& 0 <= self.mark@ <= self.src().len()
                &&& lex_at(self.src(), self.mark@) matches Lexed::Tok(t, s, e) && t
                    == sp.token@ && e == self.lexer.offset() && is_position_of(
                    sp.start,
                    self.src(),
                    s,
                )
            },
            None => true,
        }
    }

    fn new(input: &str) -> (p: Self)
        requires
            input@.len() < usize::MAX,
        ensures
            p.inv(),
            p.src() == input@,
            p.peeked is None,
            p.lexer.offset() == 0,
            p.depth == 0,
    {
        Parser { lexer: Lexer::new(input), peeked: None, depth: 0, mark: Ghost(0) }
    }

    fn next_token(&mut self) -> (r: Result<Option<Spanned>, ParseError>)
        requires
            old(self).inv(),
        ensures
            final(self).lexer.wf(),
            final(self).src() == old(self).src(),
            final(self).depth == old(self).depth,
            final(self).peeked is None,
            match lex_at(old(self).src(), old(self).resume()) {
                Lexed::End => r matches Ok(None) && final(self).lexer.offset() == old(self).src().len(),
                Lexed::Tok(t, s, e) => r matches Ok(Some(sp)) && sp.token@ == t
                    && is_position_of(sp.start, old(self).src(), s) && final(self).lexer.offset()
                    == e,
                Lexed::Fail(kind, o) => r matches Err(err) && is_error_at(
                    err,
                    kind,
                    old(self).src(),
                    o,
                ),
            },
    {
        if let Some(t) = self.peeked.take() {
            Ok(Some(t))
        } else {
            self.lexer.next_token()
        }
    }

    /// Reads the next token into `peeked`, unless one is there already.
    fn peek_token(&mut self) -> (r: Result<(), ParseError>)
        requires
            old(self).inv(),
        ensures
            final(self).src() == old(self).src(),
            final(self).depth == old(self).depth,
            match lex_at(old(self).src(), old(self).resume()) {
                Lexed::End => r is Ok && final(self).inv() && final(self).peeked is None
                    && final(self).lexer.offset() == old(self).src().len(),
                Lexed::Tok(t, s, e) => {
                    &&& r is Ok
                    &&& final(self).inv()
                    &&& final(self).mark@ == old(self).resume()
                    &&& final(self).peeked matches Some(sp) && sp.token@ == t
                },
                Lexed::Fail(kind, o) => r matches Err(err) && is_error_at(
                    err,
                    kind,
                    old(self).src(),
                    o,
                ),
            },
    {
        if self.peeked.is_none() {
            proof {
                self.lexer.lemma_wf();
            }
            let ghost at = self.lexer.offset();
            self.peeked = self.lexer.next_token()?;
            self.mark = Ghost(at);
        }
        Ok(())
    }

    fn current_pos(&self) -> (p: Position)
        requires
            self.lexer.wf(),
        ensures
            is_position_of(p, self.src(), self.lexer.offset()),
    {
        self.lexer.position()
    }

    fn parse_value(&mut self) -> (r: Result<JsonValue, ParseError>)
        requires
            old(self).inv(),
            old(self).depth <= MAX_DEPTH,
        ensures
            match parse_value_at(
                old(self).src(),
                old(self).resume(),
                old(self).depth as nat,
                old(self).lexer.offset(),
            ) {
                Ok((v, e)) => r matches Ok(x) && x@ == v && final(self).inv() && final(self).peeked is None && final(self).lexer.offset() == e && final(self).depth == old(self).depth && final(self).src() == old(self).src(),
                Err((kind, o)) => r matches Err(err) && is_error_at(err, kind, old(self).src(), o),
            },
        decreases old(self).remaining(), 0int,
    {
        let ghost cs = self.src();
        let ghost k = self.resume();
        let ghost d = self.depth as nat;
        proof {
            self.lexer.lemma_wf();
            lemma_lex_at(cs, k);
        }
        self.depth += 1;
        if self.depth > MAX_DEPTH {
            return Err(err_at(ErrorKind::DepthExceeded, self.current_pos()));
        }
        let spanned = match self.next_token()? {
            Some(s) => s,
            None => {
                return Err(err_at(ErrorKind::ExpectedValue, self.current_pos()));
            },
        };
        let value = match spanned.token {
            Token::Null => JsonValue::Null,
            Token::True => JsonValue::Bool(true),
            Token::False => JsonValue::Bool(false),
            Token::Number(s) => JsonValue::Number(Number::from_string(s)),
            Token::String(raw) => JsonValue::String(unescape(raw.as_str(), spanned.start)?),
            Token::LBracket => self.parse_array_body()?,
            Token::LBrace => self.parse_object_body()?,
            _ => {
                return Err(err_at(ErrorKind::ExpectedValue, spanned.start));
            },
        };
        self.depth -= 1;
        Ok(value)
    }

    /// Parses one array item and the separator after it; `true` when the separator
    /// was the closing bracket.
    fn parse_item(&mut self) -> (r: Result<(JsonValue, bool), ParseError>)
        requires
            old(self).inv(),
            old(self).depth <= MAX_DEPTH,
        ensures
            match item_at(
                old(self).src(),
                old(self).resume(),
                old(self).depth as nat,
                old(self).lexer.offset(),
            ) {
                Err((kind, o)) => r matches Err(err) && is_error_at(err, kind, old(self).src(), o),
                Ok((v, e, last)) => {
                    &&& r matches Ok((x, l)) && x@ == v && l == last
                    &&& final(self).inv()
                    &&& final(self).peeked is None
                    &&& final(self).lexer.offset() == e
                    &&& final(self).depth == old(self).depth
                    &&& final(self).src() == old(self).src()
                },
            },
        decreases old(self).remaining(), 1int,
    {
        let ghost cs = self.src();
        proof {
            self.lexer.lemma_wf();
            lemma_value_progress(cs, self.resume(), self.depth as nat, self.lexer.offset());
        }
        let v = self.parse_value()?;
        proof {
            self.lexer.lemma_wf();
            lemma_lex_at(cs, self.lexer.offset());
        }
        let sep = match self.next_token()? {
            Some(s) => s,
            None => {
                return Err(err_at(ErrorKind::UnexpectedEof, self.current_pos()));
            },
        };
        match sep.token {
            Token::Comma => Ok((v, false)),
            Token::RBracket => Ok((v, true)),
            _ => Err(err_at(ErrorKind::ExpectedCommaOrEnd, sep.start)),
        }
    }

    fn parse_array_body(&mut self) -> (r: Result<JsonValue, ParseError>)
        requires
            old(self).inv(),
            old(self).peeked is None,
            1 <= old(self).depth <= MAX_DEPTH,
        ensures
            match parse_array_at(old(self).src(), old(self).resume(), old(self).depth as nat) {
                Ok((v, e)) => {
                    &&& r matches Ok(x) && x@ == v
                    &&& final(self).inv()
                    &&& final(self).peeked is None
                    &&& final(self).lexer.offset() == e
                    &&& final(self).depth == old(self).depth
                    &&& final(self).src() == old(self).src()
                },
                Err((kind, o)) => r matches Err(err) && is_error_at(err, kind, old(self).src(), o),
            },
        decreases old(self).remaining(), 3int,
    {
        let ghost cs = self.src();
        let ghost k0 = self.resume();
        let ghost d = self.depth as nat;
        proof {
            self.lexer.lemma_wf();
            lemma_lex_at(cs, k0);
        }
        let mut items: Vec<JsonValue> = Vec::new();
        self.peek_token()?;
        let closing = match &self.peeked {
            Some(s) => matches!(s.token, Token::RBracket),
            None => {
                return Err(err_at(ErrorKind::UnexpectedEof, self.current_pos()));
            },
        };
        if closing {
            self.next_token()?;
            return Ok(JsonValue::Array(items));
        }
        loop
            invariant
                self.inv(),
                self.src() == cs,
                self.depth == d,
                1 <= d <= MAX_DEPTH,
                k0 <= self.resume() <= cs.len(),
                old(self).remaining() == cs.len() - k0,
                old(self).src() == cs,
                old(self).resume() == k0,
                old(self).depth == d,
                parse_array_at(cs, k0, d) == parse_elems_at(
                    cs,
                    self.resume(),
                    d,
                    view_items(items@),
                    self.lexer.offset(),
                ),
            decreases cs.len() - self.resume(),
        {
            let ghost before = items@;
            let ghost k = self.resume();
            let ghost dpos = self.lexer.offset();
            proof {
                self.lexer.lemma_wf();
                lemma_item_progress(cs, k, d, dpos);
            }
            let (v, last) = self.parse_item()?;
            items.push(v);
            proof {
                lemma_view_items_push(before, v);
            }
            if last {
                return Ok(JsonValue::Array(items));
            }
        }
    }

    /// Parses one `"key": value` member and the separator after it; `true` when the
    /// separator was the closing brace.
    fn parse_member(&mut self) -> (r: Result<((String, JsonValue), bool), ParseError>)
        requires
            old(self).inv(),
            old(self).depth <= MAX_DEPTH,
        ensures
            match member_at(old(self).src(), old(self).resume(), old(self).depth as nat) {
                Err((kind, o)) => r matches Err(err) && is_error_at(err, kind, old(self).src(), o),
                Ok((key, v, e, last)) => {
                    &&& r matches Ok((m, l)) && m.0@ == key && m.1@ == v && l == last
                    &&& final(self).inv()
                    &&& final(self).peeked is None
                    &&& final(self).lexer.offset() == e
                    &&& final(self).depth == old(self).depth
                    &&& final(self).src() == old(self).src()
                },
            },
        decreases old(self).remaining(), 1int,
    {
        let ghost cs = self.src();
        let ghost k = self.resume();
        proof {
            self.lexer.lemma_wf();
            lemma_lex_at(cs, k);
        }
        let key_tok = match self.next_token()? {
            Some(s) => s,
            None => {
                return Err(err_at(ErrorKind::UnexpectedEof, self.current_pos()));
            },
        };
        let key = match key_tok.token {
            Token::String(raw) => unescape(raw.as_str(), key_tok.start)?,
            _ => {
                return Err(err_at(ErrorKind::ExpectedString, key_tok.start));
            },
        };
        proof {
            self.lexer.lemma_wf();
            lemma_lex_at(cs, self.lexer.offset());
        }
        let colon = match self.next_token()? {
            Some(s) => s,
            None => {
                return Err(err_at(ErrorKind::UnexpectedEof, self.current_pos()));
            },
        };
        if !matches!(colon.token, Token::Colon) {
            return Err(err_at(ErrorKind::ExpectedColon, colon.start));
        }
        proof {
            self.lexer.lemma_wf();
            lemma_value_progress(cs, self.lexer.offset(), self.depth as nat, self.lexer.offset());
        }
        let value = self.parse_value()?;
        proof {
            self.lexer.lemma_wf();
            lemma_lex_at(cs, self.lexer.offset());
        }
        let sep = match self.next_token()? {
            Some(s) => s,
            None => {
                return Err(err_at(ErrorKind::UnexpectedEof, self.current_pos()));
            },
        };
        match sep.token {
            Token::Comma => Ok(((key, value), false)),
            Token::RBrace => Ok(((key, value), true)),
            _ => Err(err_at(ErrorKind::ExpectedCommaOrEnd, sep.start)),
        }
    }

    fn parse_object_body(&mut self) -> (r: Result<JsonValue, ParseError>)
        requires
            old(self).inv(),
            old(self).peeked is None,
            1 <= old(self).depth <= MAX_DEPTH,
        ensures
            match parse_object_at(old(self).src(), old(self).resume(), old(self).depth as nat) {
                Ok((v, e)) => {
                    &&& r matches Ok(x) && x@ == v
                    &&& final(self).inv()
                    &&& final(self).peeked is None
                    &&& final(self).lexer.offset() == e
                    &&& final(self).depth == old(self).depth
                    &&& final(self).src() == old(self).src()
                },
                Err((kind, o)) => r matches Err(err) && is_error_at(err, kind, old(self).src(), o),
            },
        decreases old(self).remaining(), 3int,
    {
        let ghost cs = self.src();
        let ghost k0 = self.resume();
        let ghost d = self.depth as nat;
        proof {
            self.lexer.lemma_wf();
            lemma_lex_at(cs, k0);
        }
        let mut items: Vec<(String, JsonValue)> = Vec::new();
        self.peek_token()?;
        let closing = match &self.peeked {
            Some(s) => matches!(s.token, Token::RBrace),
            None => {
                return Err(err_at(ErrorKind::UnexpectedEof, self.current_pos()));
            },
        };
        if closing {
            self.next_token()?;
            return Ok(JsonValue::Object(items));
        }
        loop
            invariant
                self.inv(),
                self.src() == cs,
                self.depth == d,
                1 <= d <= MAX_DEPTH,
                k0 <= self.resume() <= cs.len(),
                old(self).remaining() == cs.len() - k0,
                old(self).src() == cs,
                old(self).resume() == k0,
                old(self).depth == d,
                parse_object_at(cs, k0, d) == parse_members_at(
                    cs,
                    self.resume(),
                    d,
                    view_members(items@),
                ),
            decreases cs.len() - self.resume(),
        {
            let ghost before = items@;
            let ghost k = self.resume();
            proof {
                self.lexer.lemma_wf();
                lemma_member_progress(cs, k, d);
            }
            let (member, last) = self.parse_member()?;
            items.push(member);
            proof {
                lemma_view_members_push(before, items@.last());
            }
            if last {
                return Ok(JsonValue::Object(items));
            }
        }
    }
}

fn err_at(kind: ErrorKind, pos: Position) -> (e: ParseError)
    ensures
        e == error_at_position(kind, pos),
{
    ParseError::new(kind, pos.line, pos.col, pos.byte_offset)
}

} // verus!
