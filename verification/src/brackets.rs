//! Brackets match: every array the parser reads opens with `[` and closes with `]`,
//! and every object opens with `{` and closes with `}`, at any depth.
use vstd::prelude::*;
use crate::lexer::{lemma_lex_at, lemma_skip_ws, lex_at, skip_ws, Lexed, TokenView};
use crate::parser::{
    item_at, lemma_value_progress, member_at, parse_array_at, parse_elems_at, parse_members_at,
    parse_object_at, parse_spec, parse_value_at,
};
use crate::laws::{lemma_array_fits, lemma_object_fits};
use crate::text::is_ws;
use crate::value::JsonView;

verus! {

/// A bracket token stands for its one character.
proof fn lemma_lex_bracket(cs: Seq<char>, k: int)
    requires
        0 <= k <= cs.len(),
    ensures
        lex_at(cs, k) matches Lexed::Tok(TokenView::RBracket, s, e) ==> 0 <= s && e == s + 1
            && e <= cs.len() && cs[s] == ']',
        lex_at(cs, k) matches Lexed::Tok(TokenView::RBrace, s, e) ==> 0 <= s && e == s + 1 && e
            <= cs.len() && cs[s] == '}',
        lex_at(cs, k) matches Lexed::Tok(TokenView::LBracket, s, e) ==> 0 <= s && e == s + 1
            && e <= cs.len() && cs[s] == '[',
        lex_at(cs, k) matches Lexed::Tok(TokenView::LBrace, s, e) ==> 0 <= s && e == s + 1 && e
            <= cs.len() && cs[s] == '{',
{
    reveal(lex_at);
    lemma_skip_ws(cs, k);
    lemma_lex_at(cs, k);
}

proof fn lemma_array_closes(cs: Seq<char>, k: int, d: nat)
    requires
        0 <= k <= cs.len(),
    ensures
        parse_array_at(cs, k, d) matches Ok((_, e)) ==> 0 < e <= cs.len() && cs[e - 1] == ']',
    decreases cs.len() - k, 3int,
{
    lemma_lex_at(cs, k);
    lemma_lex_bracket(cs, k);
    if let Lexed::Tok(t, _, e) = lex_at(cs, k) {
        if !(t is RBracket) {
            lemma_elems_closes(cs, k, d, seq![], e);
        }
    }
}

proof fn lemma_elems_closes(cs: Seq<char>, k: int, d: nat, acc: Seq<JsonView>, dpos: int)
    requires
        0 <= k <= cs.len(),
    ensures
        parse_elems_at(cs, k, d, acc, dpos) matches Ok((_, e)) ==> 0 < e <= cs.len() && cs[e
            - 1] == ']',
    decreases cs.len() - k, 2int,
{
    lemma_value_progress(cs, k, d, dpos);
    if let Ok((v, k1)) = parse_value_at(cs, k, d, dpos) {
        lemma_lex_bracket(cs, k1);
    }
    if let Ok((v, e, last)) = item_at(cs, k, d, dpos) {
        if !last && 0 <= k < e <= cs.len() {
            lemma_elems_closes(cs, e, d, acc.push(v), e);
        }
    }
}

proof fn lemma_object_closes(cs: Seq<char>, k: int, d: nat)
    requires
        0 <= k <= cs.len(),
    ensures
        parse_object_at(cs, k, d) matches Ok((_, e)) ==> 0 < e <= cs.len() && cs[e - 1] == '}',
    decreases cs.len() - k, 3int,
{
    lemma_lex_at(cs, k);
    lemma_lex_bracket(cs, k);
    if let Lexed::Tok(t, _, _) = lex_at(cs, k) {
        if !(t is RBrace) {
            lemma_members_closes(cs, k, d, seq![]);
        }
    }
}

proof fn lemma_member_closes(cs: Seq<char>, k: int, d: nat)
    requires
        0 <= k <= cs.len(),
    ensures
        member_at(cs, k, d) matches Ok((_, _, e, true)) ==> 0 < e <= cs.len() && cs[e - 1]
            == '}',
{
    lemma_lex_at(cs, k);
    if let Lexed::Tok(TokenView::Str(raw), s, e) = lex_at(cs, k) {
        lemma_lex_at(cs, e);
        if let Lexed::Tok(TokenView::Colon, s2, e2) = lex_at(cs, e) {
            if 0 <= k < e2 <= cs.len() {
                lemma_value_progress(cs, e2, d, e2);
                if let Ok((v, k3)) = parse_value_at(cs, e2, d, e2) {
                    lemma_lex_bracket(cs, k3);
                }
            }
        }
    }
}

proof fn lemma_members_closes(cs: Seq<char>, k: int, d: nat, acc: Seq<(Seq<char>, JsonView)>)
    requires
        0 <= k <= cs.len(),
    ensures
        parse_members_at(cs, k, d, acc) matches Ok((_, e)) ==> 0 < e <= cs.len() && cs[e - 1]
            == '}',
    decreases cs.len() - k, 2int,
{
    lemma_member_closes(cs, k, d);
    if let Ok((key, v, e, last)) = member_at(cs, k, d) {
        if !last && 0 <= k < e <= cs.len() {
            lemma_members_closes(cs, e, d, acc.push((key, v)));
        }
    }
}

proof fn lemma_value_array(cs: Seq<char>, k: int, d: nat, dpos: int)
    requires
        0 <= k <= cs.len(),
        parse_value_at(cs, k, d, dpos) is Ok,
        parse_value_at(cs, k, d, dpos)->Ok_0.0 is Array,
    ensures
        lex_at(cs, k) matches Lexed::Tok(TokenView::LBracket, _, e) && parse_value_at(
            cs,
            k,
            d,
            dpos,
        ) == parse_array_at(cs, e, d + 1),
{
    lemma_lex_at(cs, k);
    if let Lexed::Tok(TokenView::LBrace, _, e) = lex_at(cs, k) {
        lemma_object_fits(cs, e, d + 1);
    }
}

proof fn lemma_value_object(cs: Seq<char>, k: int, d: nat, dpos: int)
    requires
        0 <= k <= cs.len(),
        parse_value_at(cs, k, d, dpos) is Ok,
        parse_value_at(cs, k, d, dpos)->Ok_0.0 is Object,
    ensures
        lex_at(cs, k) matches Lexed::Tok(TokenView::LBrace, _, e) && parse_value_at(
            cs,
            k,
            d,
            dpos,
        ) == parse_object_at(cs, e, d + 1),
{
    lemma_lex_at(cs, k);
    if let Lexed::Tok(TokenView::LBracket, _, e) = lex_at(cs, k) {
        lemma_array_fits(cs, e, d + 1);
    }
}

/// Wherever the parser reads an array, its text opens with `[` (after whitespace) and
/// ends with `]`; an object's text opens with `{` and ends with `}`. A bracket of one
/// kind never closes a container of the other.
pub proof fn law_brackets_match(cs: Seq<char>, k: int, d: nat, dpos: int)
    requires
        0 <= k <= cs.len(),
    ensures
        parse_value_at(cs, k, d, dpos) matches Ok((JsonView::Array(_), e)) ==> {
            &&& skip_ws(cs, k) < cs.len() && cs[skip_ws(cs, k)] == '['
            &&& 0 < e <= cs.len() && cs[e - 1] == ']'
        },
        parse_value_at(cs, k, d, dpos) matches Ok((JsonView::Object(_), e)) ==> {
            &&& skip_ws(cs, k) < cs.len() && cs[skip_ws(cs, k)] == '{'
            &&& 0 < e <= cs.len() && cs[e - 1] == '}'
        },
{
    let r = parse_value_at(cs, k, d, dpos);
    if r is Ok {
        lemma_lex_at(cs, k);
        lemma_lex_bracket(cs, k);
        if r->Ok_0.0 is Array {
            lemma_value_array(cs, k, d, dpos);
            if let Lexed::Tok(_, _, e) = lex_at(cs, k) {
                lemma_array_closes(cs, e, d + 1);
            }
        } else if r->Ok_0.0 is Object {
            lemma_value_object(cs, k, d, dpos);
            if let Lexed::Tok(_, _, e) = lex_at(cs, k) {
                lemma_object_closes(cs, e, d + 1);
            }
        }
    }
}

/// `cs` is whitespace, then `open` at `a`, ..., then `close` just before `b`, then
/// whitespace.
pub open spec fn enclosed(cs: Seq<char>, a: int, b: int, open: char, close: char) -> bool {
    &&& 0 <= a < b <= cs.len()
    &&& cs[a] == open
    &&& cs[b - 1] == close
    &&& forall|i: int| 0 <= i < a ==> is_ws(#[trigger] cs[i])
    &&& forall|i: int| b <= i < cs.len() ==> is_ws(#[trigger] cs[i])
}

/// A whole document that parses to an array has `[` as its first and `]` as its last
/// character other than whitespace; one that parses to an object has `{` and `}`.
pub proof fn law_document_brackets(cs: Seq<char>)
    ensures
        parse_spec(cs) matches Ok(JsonView::Array(_)) ==> exists|a: int, b: int|
            #[trigger] enclosed(cs, a, b, '[', ']'),
        parse_spec(cs) matches Ok(JsonView::Object(_)) ==> exists|a: int, b: int|
            #[trigger] enclosed(cs, a, b, '{', '}'),
{
    law_brackets_match(cs, 0, 0, 0);
    lemma_skip_ws(cs, 0);
    lemma_value_progress(cs, 0, 0, 0);
    if let Ok((v, e)) = parse_value_at(cs, 0, 0, 0) {
        lemma_lex_at(cs, e);
        lemma_skip_ws(cs, e);
        let a = skip_ws(cs, 0);
        if parse_spec(cs) is Ok {
            if v is Array {
                assert(enclosed(cs, a, e, '[', ']'));
            } else if v is Object {
                assert(enclosed(cs, a, e, '{', '}'));
            }
        }
    }
}

} // verus!
