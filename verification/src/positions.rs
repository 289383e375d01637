//! Where the parser reports its errors: always at a place in the text, on a line
//! and a column counted from 1.
use vstd::prelude::*;
use crate::error::ErrorKind;
use crate::lexer::{col_at, lemma_lex_at, lemma_line_col_bound, lex_at, line_at, Lexed, TokenView};
use crate::parser::{
    item_at, lemma_value_progress, member_at, parse_array_at, parse_elems_at, parse_members_at,
    parse_object_at, parse_spec, parse_value_at, MAX_DEPTH,
};
use crate::value::JsonView;

verus! {

/// `r` is no error, or an error reported at an index of the text (or just past it).
pub open spec fn err_within<T>(r: Result<T, (ErrorKind, int)>, n: int) -> bool {
    r matches Err((_, o)) ==> 0 <= o <= n
}

proof fn lemma_lex_err(cs: Seq<char>, k: int)
    requires
        0 <= k <= cs.len(),
    ensures
        lex_at(cs, k) matches Lexed::Fail(_, o) ==> 0 <= o <= cs.len(),
        lex_at(cs, k) matches Lexed::Tok(_, s, e) ==> 0 <= k <= s < e <= cs.len(),
{
    lemma_lex_at(cs, k);
}

pub proof fn lemma_value_err(cs: Seq<char>, k: int, d: nat, dpos: int)
    requires
        0 <= k <= cs.len(),
        0 <= dpos <= cs.len(),
    ensures
        err_within(parse_value_at(cs, k, d, dpos), cs.len() as int),
    decreases cs.len() - k, 0int,
{
    lemma_lex_err(cs, k);
    if d + 1 <= MAX_DEPTH {
        if let Lexed::Tok(t, s, e) = lex_at(cs, k) {
            if t is LBracket {
                lemma_array_err(cs, e, d + 1);
            } else if t is LBrace {
                lemma_object_err(cs, e, d + 1);
            }
        }
    }
}

pub proof fn lemma_array_err(cs: Seq<char>, k: int, d: nat)
    requires
        0 <= k <= cs.len(),
    ensures
        err_within(parse_array_at(cs, k, d), cs.len() as int),
    decreases cs.len() - k, 3int,
{
    lemma_lex_err(cs, k);
    if let Lexed::Tok(t, _, e) = lex_at(cs, k) {
        if !(t is RBracket) {
            lemma_elems_err(cs, k, d, seq![], e);
        }
    }
}

pub proof fn lemma_item_err(cs: Seq<char>, k: int, d: nat, dpos: int)
    requires
        0 <= k <= cs.len(),
        0 <= dpos <= cs.len(),
    ensures
        err_within(item_at(cs, k, d, dpos), cs.len() as int),
    decreases cs.len() - k, 1int,
{
    lemma_value_err(cs, k, d, dpos);
    lemma_value_progress(cs, k, d, dpos);
    if let Ok((v, k1)) = parse_value_at(cs, k, d, dpos) {
        lemma_lex_err(cs, k1);
    }
}

pub proof fn lemma_elems_err(cs: Seq<char>, k: int, d: nat, acc: Seq<JsonView>, dpos: int)
    requires
        0 <= k <= cs.len(),
        0 <= dpos <= cs.len(),
    ensures
        err_within(parse_elems_at(cs, k, d, acc, dpos), cs.len() as int),
    decreases cs.len() - k, 2int,
{
    lemma_item_err(cs, k, d, dpos);
    if let Ok((v, e, last)) = item_at(cs, k, d, dpos) {
        if !last && 0 <= k < e <= cs.len() {
            lemma_elems_err(cs, e, d, acc.push(v), e);
        }
    }
}

pub proof fn lemma_object_err(cs: Seq<char>, k: int, d: nat)
    requires
        0 <= k <= cs.len(),
    ensures
        err_within(parse_object_at(cs, k, d), cs.len() as int),
    decreases cs.len() - k, 3int,
{
    lemma_lex_err(cs, k);
    if let Lexed::Tok(t, _, _) = lex_at(cs, k) {
        if !(t is RBrace) {
            lemma_members_err(cs, k, d, seq![]);
        }
    }
}

pub proof fn lemma_member_err(cs: Seq<char>, k: int, d: nat)
    requires
        0 <= k <= cs.len(),
    ensures
        err_within(member_at(cs, k, d), cs.len() as int),
    decreases cs.len() - k, 1int,
{
    lemma_lex_err(cs, k);
    if let Lexed::Tok(TokenView::Str(raw), s, e) = lex_at(cs, k) {
        lemma_lex_err(cs, e);
        if let Lexed::Tok(TokenView::Colon, s2, e2) = lex_at(cs, e) {
            if 0 <= k < e2 <= cs.len() {
                lemma_value_err(cs, e2, d, e2);
                lemma_value_progress(cs, e2, d, e2);
                if let Ok((v, k3)) = parse_value_at(cs, e2, d, e2) {
                    lemma_lex_err(cs, k3);
                }
            }
        }
    }
}

pub proof fn lemma_members_err(
    cs: Seq<char>,
    k: int,
    d: nat,
    acc: Seq<(Seq<char>, JsonView)>,
)
    requires
        0 <= k <= cs.len(),
    ensures
        err_within(parse_members_at(cs, k, d, acc), cs.len() as int),
    decreases cs.len() - k, 2int,
{
    lemma_member_err(cs, k, d);
    if let Ok((key, v, e, last)) = member_at(cs, k, d) {
        if !last && 0 <= k < e <= cs.len() {
            lemma_members_err(cs, e, d, acc.push((key, v)));
        }
    }
}

/// Every error is reported at a place in the text (or at its end), on a line and a
/// column counted from 1.
pub proof fn law_error_position(cs: Seq<char>)
    ensures
        parse_spec(cs) matches Err((_, o)) ==> {
            &&& 0 <= o <= cs.len()
            &&& 1 <= line_at(cs, o) <= o + 1
            &&& 1 <= col_at(cs, o) <= o + 1
        },
{
    lemma_value_err(cs, 0, 0, 0);
    lemma_value_progress(cs, 0, 0, 0);
    if let Ok((v, k)) = parse_value_at(cs, 0, 0, 0) {
        lemma_lex_err(cs, k);
    }
    if let Err((_, o)) = parse_spec(cs) {
        lemma_line_col_bound(cs, o);
    }
}

/// How many line feeds `s` holds.
pub open spec fn line_feeds(s: Seq<char>) -> nat {
    s.filter(|c: char| c == '\n').len()
}

/// Positions count lines by line feeds alone: the line of index `k` is one more than
/// the number of line feeds before it (a carriage return starts no line), and its
/// column is one more than the number of characters since the last line feed before
/// it, or since the start.
pub proof fn law_line_and_column(cs: Seq<char>, k: int)
    requires
        0 <= k <= cs.len(),
    ensures
        line_at(cs, k) == 1 + line_feeds(cs.take(k)),
        (forall|i: int| 0 <= i < k ==> cs[i] != '\n') ==> col_at(cs, k) == k + 1,
        forall|j: int|
            0 <= j < k && #[trigger] cs[j] == '\n' && (forall|i: int| j < i < k ==> cs[i] != '\n')
                ==> col_at(cs, k) == k - j,
    decreases k,
{
    if k == 0 {
        assert(cs.take(0) =~= Seq::<char>::empty());
        assert(cs.take(0).filter(|c: char| c == '\n') =~= Seq::<char>::empty());
    } else {
        law_line_and_column(cs, k - 1);
        assert(cs.take(k) =~= cs.take(k - 1).push(cs[k - 1]));
        cs.take(k - 1).lemma_filter_len_push(|c: char| c == '\n', cs[k - 1]);
        assert forall|j: int|
            0 <= j < k && #[trigger] cs[j] == '\n' && (forall|i: int| j < i < k ==> cs[i] != '\n')
            implies col_at(cs, k) == k - j by {
            if j < k - 1 {
                assert(cs[k - 1] != '\n');
            }
        }
    }
}

} // verus!
