//! Laws that relate the serializer to the parser.
//!
//! Parsing the text that [`crate::ser::to_string`] or [`crate::ser::to_string_pretty`]
//! writes for a value gives the value back, provided its numbers are JSON number
//! lexemes and it is not nested too deeply; every value the parser accepts meets
//! both conditions, so writing a parsed value and parsing it again changes nothing.
use vstd::prelude::*;
use crate::lexer::{
    digits_end, exp_end, frac_end, int_part_end, lemma_digits_end, lemma_lex_at, lemma_skip_ws,
    lex_at, number_end, scan_hex, scan_string, skip_ws, Lexed, TokenView,
};
use crate::parser::{
    item_at, member_at, parse_array_at, parse_elems_at, parse_members_at, parse_object_at,
    parse_spec, parse_value_at, MAX_DEPTH,
};
use crate::ser::{
    compact, compact_items, compact_member, compact_members, escape_char, escape_str, nesting,
    nesting_items, nesting_members, pretty, pretty_items, pretty_member, pretty_members, quoted,
    spaces,
};
use crate::string::{decode_unicode, hex4, prepend, simple_escape, unescape_from, unescape_spec};
use crate::text::{char_from_u32_spec, hex_char, hex_value, is_digit, is_hex, is_ws};
use crate::value::JsonView;

verus! {

broadcast use vstd::seq_lib::group_seq_properties;

// ---------------------------------------------------------------------------
// Well-formed values
// ---------------------------------------------------------------------------
/// `lx` is a JSON number lexeme: the number grammar reads it exactly.
pub open spec fn is_number_lexeme(lx: Seq<char>) -> bool {
    number_end(lx, 0) == Some(lx.len() as int)
}

/// Every number in `v` is a JSON number lexeme.
pub open spec fn well_formed(v: JsonView) -> bool
    decreases v,
{
    match v {
        JsonView::Number(lx) => is_number_lexeme(lx),
        JsonView::Array(items) => well_formed_items(items),
        JsonView::Object(members) => well_formed_members(members),
        _ => true,
    }
}

pub open spec fn well_formed_items(items: Seq<JsonView>) -> bool
    decreases items,
{
    items.len() == 0 || (well_formed(items[0]) && well_formed_items(
        items.subrange(1, items.len() as int),
    ))
}

pub open spec fn well_formed_members(members: Seq<(Seq<char>, JsonView)>) -> bool
    decreases members,
{
    members.len() == 0 || (well_formed(members[0].1) && well_formed_members(
        members.subrange(1, members.len() as int),
    ))
}

// ---------------------------------------------------------------------------
// Reading tokens back
// ---------------------------------------------------------------------------
/// All characters in `[a, b)` are whitespace.
pub open spec fn all_ws(cs: Seq<char>, a: int, b: int) -> bool {
    forall|i: int| a <= i < b ==> is_ws(#[trigger] cs[i])
}

/// A number lexeme that ends at `p` cannot be read any further.
pub open spec fn ends_number(cs: Seq<char>, p: int) -> bool {
    p >= cs.len() || !(is_digit(cs[p]) || cs[p] == '.' || cs[p] == 'e' || cs[p] == 'E')
}

proof fn lemma_skip_ws_to(cs: Seq<char>, k: int, j: int)
    requires
        0 <= k <= j <= cs.len(),
        all_ws(cs, k, j),
        j < cs.len() ==> !is_ws(cs[j]),
    ensures
        skip_ws(cs, k) == j,
    decreases j - k,
{
    if k < j {
        lemma_skip_ws_to(cs, k + 1, j);
    }
}

/// After the last value only whitespace is left.
proof fn lemma_lex_end(cs: Seq<char>, k: int)
    requires
        0 <= k <= cs.len(),
        all_ws(cs, k, cs.len() as int),
    ensures
        lex_at(cs, k) is End,
{
    reveal(lex_at);
    lemma_skip_ws_to(cs, k, cs.len() as int);
}

/// The token for a punctuation character.
pub open spec fn punct(c: char) -> TokenView {
    if c == '{' {
        TokenView::LBrace
    } else if c == '}' {
        TokenView::RBrace
    } else if c == '[' {
        TokenView::LBracket
    } else if c == ']' {
        TokenView::RBracket
    } else if c == ':' {
        TokenView::Colon
    } else {
        TokenView::Comma
    }
}

proof fn lemma_lex_punct(cs: Seq<char>, k: int, j: int)
    requires
        0 <= k <= j < cs.len(),
        all_ws(cs, k, j),
        cs[j] == '{' || cs[j] == '}' || cs[j] == '[' || cs[j] == ']' || cs[j] == ':' || cs[j]
            == ',',
    ensures
        lex_at(cs, k) == Lexed::Tok(punct(cs[j]), j, j + 1),
{
    reveal(lex_at);
    lemma_skip_ws_to(cs, k, j);
}

proof fn lemma_scan_keyword_match(cs: Seq<char>, at: int, kw: Seq<char>, i: int)
    requires
        0 <= at,
        0 <= i <= kw.len(),
        at + kw.len() <= cs.len(),
        cs.subrange(at, at + kw.len()) == kw,
    ensures
        crate::lexer::scan_keyword(cs, at, kw, i) is None,
    decreases kw.len() - i,
{
    if i < kw.len() {
        assert(cs[at + i] == cs.subrange(at, at + kw.len())[i]);
        lemma_scan_keyword_match(cs, at, kw, i + 1);
    }
}

proof fn lemma_lex_keyword(cs: Seq<char>, k: int, j: int, kw: Seq<char>)
    requires
        0 <= k <= j,
        j + kw.len() <= cs.len(),
        all_ws(cs, k, j),
        cs.subrange(j, j + kw.len()) == kw,
        kw == seq!['t', 'r', 'u', 'e'] || kw == seq!['f', 'a', 'l', 's', 'e'] || kw == seq![
            'n',
            'u',
            'l',
            'l',
        ],
    ensures
        lex_at(cs, k) == Lexed::Tok(
            if kw[0] == 't' {
                TokenView::True
            } else if kw[0] == 'f' {
                TokenView::False
            } else {
                TokenView::Null
            },
            j,
            j + kw.len(),
        ),
{
    reveal(lex_at);
    assert(cs[j] == cs.subrange(j, j + kw.len())[0]);
    lemma_skip_ws_to(cs, k, j);
    lemma_scan_keyword_match(cs, j, kw, 0);
}

// --- numbers ---------------------------------------------------------------
/// `cs` holds `lx` at `j`, and the lexeme cannot be read past its end.
pub open spec fn holds_number(cs: Seq<char>, j: int, lx: Seq<char>) -> bool {
    &&& 0 <= j
    &&& j + lx.len() <= cs.len()
    &&& cs.subrange(j, j + lx.len()) == lx
    &&& ends_number(cs, j + lx.len())
}

proof fn lemma_digits_end_shift(cs: Seq<char>, j: int, lx: Seq<char>, t: int)
    requires
        holds_number(cs, j, lx),
        0 <= t <= lx.len(),
    ensures
        digits_end(cs, j + t) == j + digits_end(lx, t),
    decreases lx.len() - t,
{
    if t < lx.len() {
        assert(cs[j + t] == cs.subrange(j, j + lx.len())[t]);
        lemma_digits_end_shift(cs, j, lx, t + 1);
    }
}

#[verifier::spinoff_prover]
proof fn lemma_lex_number_text(cs: Seq<char>, j: int, lx: Seq<char>)
    requires
        holds_number(cs, j, lx),
        is_number_lexeme(lx),
    ensures
        number_end(cs, j) == Some(j + lx.len()),
        lx.len() > 0,
        lx[0] == '-' || is_digit(lx[0]),
{
    let n = lx.len() as int;
    assert(forall|t: int| 0 <= t < n ==> cs[j + t] == #[trigger] lx[t]) by {
        assert forall|t: int| 0 <= t < n implies cs[j + t] == #[trigger] lx[t] by {
            assert(cs[j + t] == cs.subrange(j, j + n)[t]);
        }
    }
    // integer part
    let a = if 0 < n && lx[0] == '-' {
        1int
    } else {
        0int
    };
    assert(n > 0);
    assert(int_part_end(lx, 0) is Some);
    assert(a < n);
    if lx[a] != '0' {
        lemma_digits_end(lx, a + 1);
        lemma_digits_end_shift(cs, j, lx, a + 1);
    }
    let i1 = int_part_end(lx, 0)->0;
    assert(int_part_end(cs, j) == Some(j + i1));
    // fraction
    lemma_digits_end(lx, a + 1);
    assert(i1 <= n);
    assert(frac_end(lx, i1) is Some);
    if i1 < n && lx[i1] == '.' {
        lemma_digits_end(lx, i1 + 1);
        lemma_digits_end_shift(cs, j, lx, i1 + 1);
    }
    let i2 = frac_end(lx, i1)->0;
    assert(frac_end(cs, j + i1) == Some(j + i2));
    // exponent
    if i1 < n && lx[i1] == '.' {
        lemma_digits_end(lx, i1 + 1);
    }
    assert(i2 <= n);
    if i2 < n && (lx[i2] == 'e' || lx[i2] == 'E') {
        let s = if i2 + 1 < n && (lx[i2 + 1] == '+' || lx[i2 + 1] == '-') {
            i2 + 2
        } else {
            i2 + 1
        };
        lemma_digits_end(lx, s);
        lemma_digits_end_shift(cs, j, lx, s);
    }
    assert(exp_end(cs, j + i2) == Some(j + n));
}

proof fn lemma_lex_number(cs: Seq<char>, k: int, j: int, lx: Seq<char>)
    requires
        0 <= k <= j,
        all_ws(cs, k, j),
        holds_number(cs, j, lx),
        is_number_lexeme(lx),
    ensures
        lex_at(cs, k) == Lexed::Tok(TokenView::Num(lx), j, j + lx.len()),
{
    reveal(lex_at);
    lemma_lex_number_text(cs, j, lx);
    assert(cs[j] == cs.subrange(j, j + lx.len())[0]);
    lemma_skip_ws_to(cs, k, j);
    assert(cs.subrange(j, j + lx.len()) == lx);
}

// --- strings ---------------------------------------------------------------
pub proof fn lemma_hex_char(d: nat)
    requires
        d < 16,
    ensures
        is_hex(hex_char(d)),
        hex_value(hex_char(d)) == d,
        hex_char(d) != 'u',
{
}

/// The escaped text of the characters of `s` from `t` on.
pub open spec fn escaped_from(s: Seq<char>, t: int) -> Seq<char> {
    escape_str(s.subrange(t, s.len() as int))
}

proof fn lemma_escaped_from_step(s: Seq<char>, t: int)
    requires
        0 <= t < s.len(),
    ensures
        escaped_from(s, t) == escape_char(s[t]) + escaped_from(s, t + 1),
{
    let r = s.subrange(t, s.len() as int);
    assert(r.subrange(1, r.len() as int) =~= s.subrange(t + 1, s.len() as int));
    assert(r[0] == s[t]);
}

#[verifier::spinoff_prover]
proof fn lemma_scan_escaped(cs: Seq<char>, q: int, start: int, s: Seq<char>, t: int)
    requires
        0 <= start < q,
        0 <= t <= s.len(),
        q + escaped_from(s, t).len() < cs.len(),
        cs.subrange(q, q + escaped_from(s, t).len()) == escaped_from(s, t),
        cs[q + escaped_from(s, t).len()] == '"',
    ensures
        scan_string(cs, q, start) == Ok::<int, (crate::error::ErrorKind, int)>(
            q + escaped_from(s, t).len(),
        ),
    decreases s.len() - t,
{
    let e = escaped_from(s, t);
    if t == s.len() {
        assert(s.subrange(t, s.len() as int) =~= Seq::<char>::empty());
        assert(e.len() == 0);
    } else {
        lemma_escaped_from_step(s, t);
        let c = s[t];
        let u = escape_char(c);
        let rest = escaped_from(s, t + 1);
        assert(forall|i: int| 0 <= i < u.len() ==> cs[q + i] == #[trigger] u[i]) by {
            assert forall|i: int| 0 <= i < u.len() implies cs[q + i] == #[trigger] u[i] by {
                assert(cs[q + i] == cs.subrange(q, q + e.len())[i]);
            }
        }
        assert(cs.subrange(q + u.len(), q + u.len() + rest.len()) =~= rest) by {
            assert forall|i: int| 0 <= i < rest.len() implies #[trigger] cs.subrange(
                q + u.len(),
                q + u.len() + rest.len(),
            )[i] == rest[i] by {
                assert(cs[q + u.len() + i] == cs.subrange(q, q + e.len())[u.len() + i]);
            }
        }
        lemma_scan_escaped(cs, q + u.len(), start, s, t + 1);
        assert(e.len() == u.len() + rest.len());
        if c == '"' || c == '\\' || c == '\u{0008}' || c == '\u{000C}' || c == '\n' || c == '\r'
            || c == '\t' {
            assert(u.len() == 2 && u[0] == '\\' && u[1] != 'u');
            assert(cs[q] == '\\' && cs[q + 1] == u[1]);
            assert(scan_string(cs, q, start) == scan_string(cs, q + 2, start));
        } else if (c as u32) < 0x20 {
            lemma_hex_char((c as u32 / 16) as nat);
            lemma_hex_char((c as u32 % 16) as nat);
            assert(u.len() == 6 && u[0] == '\\' && u[1] == 'u');
            assert(cs[q] == '\\' && cs[q + 1] == 'u');
            assert(is_hex(cs[q + 2]) && is_hex(cs[q + 3]) && is_hex(cs[q + 4]) && is_hex(cs[q + 5]));
            reveal_with_fuel(scan_hex, 5);
            assert(scan_hex(cs, q + 2, 4) is None);
            assert(scan_string(cs, q, start) == scan_string(cs, q + 6, start));
        } else {
            assert(u =~= seq![c]);
            assert(u[0] == c);
            assert(cs[q] == c);
            assert(scan_string(cs, q, start) == scan_string(cs, q + 1, start));
        }
    }
}

proof fn lemma_lex_string(cs: Seq<char>, k: int, j: int, s: Seq<char>)
    requires
        0 <= k <= j,
        j + quoted(s).len() <= cs.len(),
        all_ws(cs, k, j),
        cs.subrange(j, j + quoted(s).len()) == quoted(s),
    ensures
        lex_at(cs, k) == Lexed::Tok(TokenView::Str(escape_str(s)), j, j + quoted(s).len()),
{
    reveal(lex_at);
    let q = quoted(s);
    let e = escape_str(s);
    assert(s.subrange(0, s.len() as int) =~= s);
    assert(escaped_from(s, 0) == e);
    assert(cs[j] == q[0]);
    assert(cs.subrange(j + 1, j + 1 + e.len()) =~= e) by {
        assert forall|i: int| 0 <= i < e.len() implies #[trigger] cs.subrange(
            j + 1,
            j + 1 + e.len(),
        )[i] == e[i] by {
            assert(cs[j + 1 + i] == cs.subrange(j, j + q.len())[1 + i]);
        }
    }
    assert(cs[j + 1 + e.len()] == cs.subrange(j, j + q.len())[1 + e.len() as int]);
    lemma_scan_escaped(cs, j + 1, j, s, 0);
    lemma_skip_ws_to(cs, k, j);
}

proof fn lemma_unescape_escaped(raw: Seq<char>, p: int, s: Seq<char>, t: int)
    requires
        0 <= p <= raw.len(),
        0 <= t <= s.len(),
        raw.subrange(p, raw.len() as int) == escaped_from(s, t),
    ensures
        unescape_from(raw, p) == Ok::<Seq<char>, crate::error::ErrorKind>(
            s.subrange(t, s.len() as int),
        ),
    decreases s.len() - t,
{
    let e = escaped_from(s, t);
    if t == s.len() {
        assert(s.subrange(t, s.len() as int) =~= Seq::<char>::empty());
        assert(p == raw.len());
    } else {
        lemma_escaped_from_step(s, t);
        let c = s[t];
        let u = escape_char(c);
        let rest = escaped_from(s, t + 1);
        assert(e.len() == u.len() + rest.len());
        assert(raw.subrange(p, raw.len() as int).len() == raw.len() - p);
        assert(forall|i: int| 0 <= i < u.len() ==> raw[p + i] == #[trigger] u[i]) by {
            assert forall|i: int| 0 <= i < u.len() implies raw[p + i] == #[trigger] u[i] by {
                assert(raw[p + i] == raw.subrange(p, raw.len() as int)[i]);
                assert(e[i] == u[i]);
            }
        }
        assert(raw.subrange(p + u.len(), raw.len() as int) =~= rest) by {
            assert forall|i: int| 0 <= i < rest.len() implies #[trigger] raw.subrange(
                p + u.len(),
                raw.len() as int,
            )[i] == rest[i] by {
                assert(raw[p + u.len() + i] == raw.subrange(p, raw.len() as int)[u.len() + i]);
                assert(e[u.len() + i] == rest[i]);
            }
        }
        lemma_unescape_escaped(raw, p + u.len(), s, t + 1);
        assert(seq![c] + s.subrange(t + 1, s.len() as int) =~= s.subrange(t, s.len() as int));
        if (c as u32) < 0x20 && c != '\u{0008}' && c != '\u{000C}' && c != '\n' && c != '\r' && c
            != '\t' {
            let hi = (c as u32 / 16) as nat;
            let lo = (c as u32 % 16) as nat;
            lemma_hex_char(hi);
            lemma_hex_char(lo);
            assert(hex4(raw, p + 2) == Some(c as u32));
            vstd::utf8::char_u32_cast(c, c as u32);
            vstd::utf8::char_is_scalar(c);
            assert(decode_unicode(raw, p + 2) == Ok::<(char, int), crate::error::ErrorKind>(
                (c, p + 6),
            ));
        }
    }
}

/// Decoding the escaped text of a string gives the string back.
pub proof fn law_unescape_escape(s: Seq<char>)
    ensures
        unescape_spec(escape_str(s)) == Ok::<Seq<char>, crate::error::ErrorKind>(s),
{
    assert(s.subrange(0, s.len() as int) =~= s);
    assert(escape_str(s).subrange(0, escape_str(s).len() as int) =~= escape_str(s));
    lemma_unescape_escaped(escape_str(s), 0, s, 0);
}


// ---------------------------------------------------------------------------
// Reading values back from compact text
// ---------------------------------------------------------------------------
/// `cs` holds `a` at index `p`.
pub open spec fn holds(cs: Seq<char>, p: int, a: Seq<char>) -> bool {
    0 <= p && p + a.len() <= cs.len() && cs.subrange(p, p + a.len()) == a
}

proof fn lemma_holds_split(cs: Seq<char>, p: int, a: Seq<char>, b: Seq<char>)
    requires
        holds(cs, p, a + b),
    ensures
        holds(cs, p, a),
        holds(cs, p + a.len(), b),
{
    let ab = a + b;
    assert(cs.subrange(p, p + a.len()) =~= a) by {
        assert forall|i: int| 0 <= i < a.len() implies #[trigger] cs.subrange(p, p + a.len())[i]
            == a[i] by {
            assert(cs[p + i] == cs.subrange(p, p + ab.len())[i]);
            assert(ab[i] == a[i]);
        }
    }
    assert(cs.subrange(p + a.len(), p + a.len() + b.len()) =~= b) by {
        assert forall|i: int| 0 <= i < b.len() implies #[trigger] cs.subrange(
            p + a.len(),
            p + a.len() + b.len(),
        )[i] == b[i] by {
            assert(cs[p + a.len() + i] == cs.subrange(p, p + ab.len())[a.len() + i]);
            assert(ab[a.len() + i] == b[i]);
        }
    }
}

proof fn lemma_holds_char(cs: Seq<char>, p: int, a: Seq<char>, i: int)
    requires
        holds(cs, p, a),
        0 <= i < a.len(),
    ensures
        cs[p + i] == a[i],
{
    assert(cs[p + i] == cs.subrange(p, p + a.len())[i]);
}

proof fn lemma_all_ws_empty(cs: Seq<char>, p: int)
    ensures
        all_ws(cs, p, p),
{
}

/// A value is read from a token that can begin a value.
proof fn lemma_value_lex(cs: Seq<char>, k: int, d: nat, dpos: int)
    ensures
        parse_value_at(cs, k, d, dpos) is Ok ==> (lex_at(cs, k) matches Lexed::Tok(t, _, _) && !(
        t is RBracket) && !(t is RBrace)),
{
}

proof fn lemma_nesting_items_first(items: Seq<JsonView>)
    requires
        items.len() > 0,
    ensures
        nesting(items[0]) <= nesting_items(items),
        nesting_items(items.subrange(1, items.len() as int)) <= nesting_items(items),
{
}

proof fn lemma_nesting_members_first(members: Seq<(Seq<char>, JsonView)>)
    requires
        members.len() > 0,
    ensures
        nesting(members[0].1) <= nesting_members(members),
        nesting_members(members.subrange(1, members.len() as int)) <= nesting_members(members),
{
}

/// A well-formed value written in compact form at `j`, after whitespace from `k`,
/// is parsed back from `k`, ending just after its text.
#[verifier::spinoff_prover]
pub proof fn lemma_parse_compact(cs: Seq<char>, k: int, j: int, d: nat, dpos: int, v: JsonView)
    requires
        0 <= k <= j,
        all_ws(cs, k, j),
        holds(cs, j, compact(v)),
        ends_number(cs, j + compact(v).len()),
        well_formed(v),
        d + 1 + nesting(v) <= MAX_DEPTH,
    ensures
        parse_value_at(cs, k, d, dpos) == Ok::<(JsonView, int), (crate::error::ErrorKind, int)>(
            (v, j + compact(v).len()),
        ),
    decreases v, 0int,
{
    let c = compact(v);
    match v {
        JsonView::Null => {
            lemma_lex_keyword(cs, k, j, c);
        },
        JsonView::Bool(b) => {
            lemma_lex_keyword(cs, k, j, c);
        },
        JsonView::Number(lx) => {
            lemma_lex_number(cs, k, j, lx);
        },
        JsonView::Str(s) => {
            lemma_lex_string(cs, k, j, s);
            law_unescape_escape(s);
        },
        JsonView::Array(items) => {
            lemma_parse_compact_array(cs, k, j, d, dpos, items);
        },
        JsonView::Object(members) => {
            lemma_parse_compact_object(cs, k, j, d, dpos, members);
        },
    }
}

#[verifier::spinoff_prover]
proof fn lemma_parse_compact_array(
    cs: Seq<char>,
    k: int,
    j: int,
    d: nat,
    dpos: int,
    items: Seq<JsonView>,
)
    requires
        0 <= k <= j,
        all_ws(cs, k, j),
        holds(cs, j, compact(JsonView::Array(items))),
        well_formed(JsonView::Array(items)),
        d + 1 + nesting(JsonView::Array(items)) <= MAX_DEPTH,
    ensures
        parse_value_at(cs, k, d, dpos) == Ok::<(JsonView, int), (crate::error::ErrorKind, int)>(
            (JsonView::Array(items), j + compact(JsonView::Array(items)).len()),
        ),
    decreases items, 2int,
{
    let c = compact(JsonView::Array(items));
    let inner = compact_items(items);
    assert(c =~= seq!['['] + (inner + seq![']']));
    lemma_holds_split(cs, j, seq!['['], inner + seq![']']);
    lemma_holds_split(cs, j + 1, inner, seq![']']);
    lemma_holds_char(cs, j, seq!['['], 0);
    lemma_holds_char(cs, j + 1 + inner.len(), seq![']'], 0);
    lemma_lex_punct(cs, k, j);
    if items.len() == 0 {
        lemma_all_ws_empty(cs, j + 1);
        lemma_lex_punct(cs, j + 1, j + 1);
        assert(items =~= seq![]);
    } else {
        lemma_holds_split(cs, j + 1, inner, seq![']']);
        lemma_nesting_items_first(items);
        lemma_all_ws_empty(cs, j + 1);
        if items.len() == 1 {
            assert(inner =~= compact(items[0]) + seq![]);
            lemma_holds_split(cs, j + 1, compact(items[0]), seq![]);
        } else {
            assert(inner =~= compact(items[0]) + (seq![','] + compact_items(
                items.subrange(1, items.len() as int),
            )));
            lemma_holds_split(
                cs,
                j + 1,
                compact(items[0]),
                seq![','] + compact_items(items.subrange(1, items.len() as int)),
            );
            lemma_holds_char(
                cs,
                j + 1 + compact(items[0]).len(),
                seq![','] + compact_items(items.subrange(1, items.len() as int)),
                0,
            );
        }
        lemma_parse_compact(cs, j + 1, j + 1, d + 1, 0, items[0]);
        lemma_value_lex(cs, j + 1, d + 1, 0);
        lemma_parse_compact_items(cs, j + 1, d + 1, seq![], items);
        assert(seq![] + items =~= items);
        let e = match lex_at(cs, j + 1) {
            Lexed::Tok(_, _, e) => e,
            _ => 0,
        };
        assert(parse_array_at(cs, j + 1, d + 1) == parse_elems_at(cs, j + 1, d + 1, seq![], e));
        assert(parse_value_at(cs, k, d, dpos) == parse_array_at(cs, j + 1, d + 1));
    }
}

#[verifier::spinoff_prover]
proof fn lemma_parse_compact_object(
    cs: Seq<char>,
    k: int,
    j: int,
    d: nat,
    dpos: int,
    members: Seq<(Seq<char>, JsonView)>,
)
    requires
        0 <= k <= j,
        all_ws(cs, k, j),
        holds(cs, j, compact(JsonView::Object(members))),
        well_formed(JsonView::Object(members)),
        d + 1 + nesting(JsonView::Object(members)) <= MAX_DEPTH,
    ensures
        parse_value_at(cs, k, d, dpos) == Ok::<(JsonView, int), (crate::error::ErrorKind, int)>(
            (JsonView::Object(members), j + compact(JsonView::Object(members)).len()),
        ),
    decreases members, 2int,
{
    let c = compact(JsonView::Object(members));
    let inner = compact_members(members);
    assert(c =~= seq!['{'] + (inner + seq!['}']));
    lemma_holds_split(cs, j, seq!['{'], inner + seq!['}']);
    lemma_holds_split(cs, j + 1, inner, seq!['}']);
    lemma_holds_char(cs, j, seq!['{'], 0);
    lemma_holds_char(cs, j + 1 + inner.len(), seq!['}'], 0);
    lemma_lex_punct(cs, k, j);
    if members.len() == 0 {
        lemma_all_ws_empty(cs, j + 1);
        lemma_lex_punct(cs, j + 1, j + 1);
        assert(members =~= seq![]);
    } else {
        lemma_holds_split(cs, j + 1, inner, seq!['}']);
        lemma_nesting_members_first(members);
        lemma_all_ws_empty(cs, j + 1);
        let m0 = compact_member(members[0]);
        if members.len() == 1 {
            assert(inner =~= m0 + seq![]);
            lemma_holds_split(cs, j + 1, m0, seq![]);
        } else {
            assert(inner =~= m0 + (seq![','] + compact_members(
                members.subrange(1, members.len() as int),
            )));
            lemma_holds_split(
                cs,
                j + 1,
                m0,
                seq![','] + compact_members(members.subrange(1, members.len() as int)),
            );
        }
        assert(m0 =~= quoted(members[0].0) + (seq![':'] + compact(members[0].1)));
        lemma_holds_split(cs, j + 1, quoted(members[0].0), seq![':'] + compact(members[0].1));
        lemma_lex_string(cs, j + 1, j + 1, members[0].0);
        lemma_parse_compact_members(cs, j + 1, d + 1, seq![], members);
        assert(seq![] + members =~= members);
    }
}

/// The compact items `rest`, followed by `]`, are parsed back after the items `acc`.
#[verifier::spinoff_prover]
pub proof fn lemma_parse_compact_items(
    cs: Seq<char>,
    p: int,
    d: nat,
    acc: Seq<JsonView>,
    rest: Seq<JsonView>,
)
    requires
        rest.len() > 0,
        holds(cs, p, compact_items(rest) + seq![']']),
        well_formed_items(rest),
        d + 1 + nesting_items(rest) <= MAX_DEPTH,
    ensures
        forall|dpos: int|
            parse_elems_at(cs, p, d, acc, dpos) == Ok::<(JsonView, int), (crate::error::ErrorKind, int)>(
                (JsonView::Array(acc + rest), p + compact_items(rest).len() + 1),
            ),
    decreases rest, 1int,
{
    let c0 = compact(rest[0]);
    let tail = rest.subrange(1, rest.len() as int);
    let n = compact_items(rest).len();
    lemma_nesting_items_first(rest);
    lemma_holds_split(cs, p, compact_items(rest), seq![']']);
    lemma_holds_char(cs, p + n, seq![']'], 0);
    lemma_all_ws_empty(cs, p);
    if rest.len() == 1 {
        assert(compact_items(rest) == c0);
        lemma_parse_compact(cs, p, p, d, 0, rest[0]);
        assert forall|dpos: int|
            parse_elems_at(cs, p, d, acc, dpos) == Ok::<
                (JsonView, int),
                (crate::error::ErrorKind, int),
            >((JsonView::Array(acc + rest), p + n + 1)) by {
            lemma_parse_compact(cs, p, p, d, dpos, rest[0]);
            lemma_all_ws_empty(cs, p + n);
            lemma_lex_punct(cs, p + n, p + n);
            assert(item_at(cs, p, d, dpos) == Ok::<
                (JsonView, int, bool),
                (crate::error::ErrorKind, int),
            >((rest[0], p + n + 1, true)));
            assert(acc.push(rest[0]) =~= acc + rest);
        }
    } else {
        let t = compact_items(tail);
        assert(compact_items(rest) =~= c0 + (seq![','] + t));
        lemma_holds_split(cs, p, c0, seq![','] + t);
        lemma_holds_split(cs, p + c0.len(), seq![','], t);
        lemma_holds_char(cs, p + c0.len(), seq![','], 0);
        assert(cs.subrange(p + c0.len() + 1, p + c0.len() + 1 + t.len() + 1) =~= t + seq![']']) by {
            lemma_holds_split(cs, p, compact_items(rest), seq![']']);
            assert forall|i: int| 0 <= i < t.len() + 1 implies #[trigger] cs.subrange(
                p + c0.len() + 1,
                p + c0.len() + 1 + t.len() + 1,
            )[i] == (t + seq![']'])[i] by {
                if i < t.len() {
                    lemma_holds_char(cs, p + c0.len() + 1, t, i);
                } else {
                    assert(p + c0.len() + 1 + i == p + n);
                }
            }
        }
        lemma_parse_compact_items(cs, p + c0.len() + 1, d, acc.push(rest[0]), tail);
        assert forall|dpos: int|
            parse_elems_at(cs, p, d, acc, dpos) == Ok::<
                (JsonView, int),
                (crate::error::ErrorKind, int),
            >((JsonView::Array(acc + rest), p + n + 1)) by {
            lemma_parse_compact(cs, p, p, d, dpos, rest[0]);
            lemma_all_ws_empty(cs, p + c0.len());
            lemma_lex_punct(cs, p + c0.len(), p + c0.len());
            assert(item_at(cs, p, d, dpos) == Ok::<
                (JsonView, int, bool),
                (crate::error::ErrorKind, int),
            >((rest[0], p + c0.len() + 1, false)));
            assert(parse_elems_at(cs, p + c0.len() + 1, d, acc.push(rest[0]), p + c0.len() + 1)
                == Ok::<(JsonView, int), (crate::error::ErrorKind, int)>(
                (JsonView::Array(acc.push(rest[0]) + tail), p + c0.len() + 1 + t.len() + 1),
            ));
            assert(acc.push(rest[0]) + tail =~= acc + rest);
        }
    }
}

/// The compact members `rest`, followed by `}`, are parsed back after the members `acc`.
#[verifier::spinoff_prover]
pub proof fn lemma_parse_compact_members(
    cs: Seq<char>,
    p: int,
    d: nat,
    acc: Seq<(Seq<char>, JsonView)>,
    rest: Seq<(Seq<char>, JsonView)>,
)
    requires
        rest.len() > 0,
        holds(cs, p, compact_members(rest) + seq!['}']),
        well_formed_members(rest),
        d + 1 + nesting_members(rest) <= MAX_DEPTH,
    ensures
        parse_members_at(cs, p, d, acc) == Ok::<(JsonView, int), (crate::error::ErrorKind, int)>(
            (JsonView::Object(acc + rest), p + compact_members(rest).len() + 1),
        ),
    decreases rest, 1int,
{
    let m0 = rest[0];
    let c0 = compact_member(m0);
    let q = quoted(m0.0);
    let cv = compact(m0.1);
    let tail = rest.subrange(1, rest.len() as int);
    let n = compact_members(rest).len();
    lemma_nesting_members_first(rest);
    lemma_holds_split(cs, p, compact_members(rest), seq!['}']);
    lemma_holds_char(cs, p + n, seq!['}'], 0);
    if rest.len() == 1 {
        assert(compact_members(rest) == c0);
    } else {
        assert(compact_members(rest) =~= c0 + (seq![','] + compact_members(tail)));
        lemma_holds_split(cs, p, c0, seq![','] + compact_members(tail));
    }
    assert(holds(cs, p, c0));
    assert(c0 =~= q + (seq![':'] + cv));
    lemma_holds_split(cs, p, q, seq![':'] + cv);
    lemma_holds_split(cs, p + q.len(), seq![':'], cv);
    lemma_holds_char(cs, p + q.len(), seq![':'], 0);
    lemma_all_ws_empty(cs, p);
    lemma_all_ws_empty(cs, p + q.len());
    lemma_all_ws_empty(cs, p + q.len() + 1);
    lemma_lex_string(cs, p, p, m0.0);
    law_unescape_escape(m0.0);
    lemma_lex_punct(cs, p + q.len(), p + q.len());
    let e2 = p + q.len() + 1;
    let k3 = e2 + cv.len();
    assert(k3 == p + c0.len());
    if rest.len() == 1 {
        lemma_parse_compact(cs, e2, e2, d, e2, m0.1);
        lemma_lex_punct(cs, k3, k3);
        assert(member_at(cs, p, d) == Ok::<
            (Seq<char>, JsonView, int, bool),
            (crate::error::ErrorKind, int),
        >((m0.0, m0.1, k3 + 1, true)));
        assert(acc.push((m0.0, m0.1)) =~= acc + rest);
    } else {
        let t = compact_members(tail);
        lemma_holds_split(cs, p + c0.len(), seq![','], t);
        lemma_holds_char(cs, p + c0.len(), seq![','], 0);
        lemma_parse_compact(cs, e2, e2, d, e2, m0.1);
        lemma_lex_punct(cs, k3, k3);
        assert(member_at(cs, p, d) == Ok::<
            (Seq<char>, JsonView, int, bool),
            (crate::error::ErrorKind, int),
        >((m0.0, m0.1, k3 + 1, false)));
        assert(cs.subrange(k3 + 1, k3 + 1 + t.len() + 1) =~= t + seq!['}']) by {
            assert forall|i: int| 0 <= i < t.len() + 1 implies #[trigger] cs.subrange(
                k3 + 1,
                k3 + 1 + t.len() + 1,
            )[i] == (t + seq!['}'])[i] by {
                if i < t.len() {
                    lemma_holds_char(cs, k3 + 1, t, i);
                } else {
                    assert(k3 + 1 + i == p + n);
                }
            }
        }
        lemma_parse_compact_members(cs, k3 + 1, d, acc.push((m0.0, m0.1)), tail);
        assert(acc.push((m0.0, m0.1)) + tail =~= acc + rest);
    }
}

/// Parsing the compact text of a well-formed value that is not nested too deeply
/// gives the value back.
pub proof fn law_parse_to_string(v: JsonView)
    requires
        well_formed(v),
        nesting(v) < MAX_DEPTH,
    ensures
        parse_spec(compact(v)) == Ok::<JsonView, (crate::error::ErrorKind, int)>(v),
{
    let cs = compact(v);
    assert(cs.subrange(0, cs.len() as int) =~= cs);
    lemma_parse_compact(cs, 0, 0, 0, 0, v);
    lemma_lex_end(cs, cs.len() as int);
}

// ---------------------------------------------------------------------------
// Reading values back from indented text
// ---------------------------------------------------------------------------
proof fn lemma_spaces_ws(cs: Seq<char>, p: int, n: nat)
    requires
        holds(cs, p, spaces(n)),
    ensures
        all_ws(cs, p, p + n),
{
    assert forall|i: int| p <= i < p + n implies is_ws(#[trigger] cs[i]) by {
        lemma_holds_char(cs, p, spaces(n), i - p);
    }
}

proof fn lemma_all_ws_join(cs: Seq<char>, a: int, b: int, c: int)
    requires
        a <= b <= c,
        all_ws(cs, a, b),
        all_ws(cs, b, c),
    ensures
        all_ws(cs, a, c),
{
    assert forall|i: int| a <= i < c implies is_ws(#[trigger] cs[i]) by {
        if i < b {
        } else {
        }
    }
}

/// A line break and `n` spaces, then `c`.
pub open spec fn closing(n: nat, c: char) -> Seq<char> {
    seq!['\n'] + spaces(n) + seq![c]
}

proof fn lemma_lex_closing(cs: Seq<char>, p: int, n: nat, c: char)
    requires
        holds(cs, p, closing(n, c)),
        c == ']' || c == '}',
    ensures
        lex_at(cs, p) == Lexed::Tok(punct(c), p + 1 + n, p + 2 + n),
{
    assert(closing(n, c) =~= seq!['\n'] + (spaces(n) + seq![c]));
    lemma_holds_split(cs, p, seq!['\n'], spaces(n) + seq![c]);
    lemma_holds_split(cs, p + 1, spaces(n), seq![c]);
    lemma_holds_char(cs, p, seq!['\n'], 0);
    lemma_holds_char(cs, p + 1 + n, seq![c], 0);
    lemma_spaces_ws(cs, p + 1, n);
    lemma_all_ws_join(cs, p, p + 1, p + 1 + n);
    lemma_lex_punct(cs, p, p + 1 + n);
}

/// A well-formed value written in indented form at `j`, after whitespace from `k`,
/// is parsed back from `k`, ending just after its text.
#[verifier::spinoff_prover]
pub proof fn lemma_parse_pretty(
    cs: Seq<char>,
    k: int,
    j: int,
    d: nat,
    dpos: int,
    v: JsonView,
    indent: nat,
    level: nat,
)
    requires
        0 <= k <= j,
        all_ws(cs, k, j),
        holds(cs, j, pretty(v, indent, level)),
        ends_number(cs, j + pretty(v, indent, level).len()),
        well_formed(v),
        d + 1 + nesting(v) <= MAX_DEPTH,
    ensures
        parse_value_at(cs, k, d, dpos) == Ok::<(JsonView, int), (crate::error::ErrorKind, int)>(
            (v, j + pretty(v, indent, level).len()),
        ),
    decreases v, 0int,
{
    match v {
        JsonView::Array(items) => {
            if items.len() == 0 {
                lemma_parse_compact(cs, k, j, d, dpos, v);
            } else {
                lemma_parse_pretty_array(cs, k, j, d, dpos, items, indent, level);
            }
        },
        JsonView::Object(members) => {
            if members.len() == 0 {
                lemma_parse_compact(cs, k, j, d, dpos, v);
            } else {
                lemma_parse_pretty_object(cs, k, j, d, dpos, members, indent, level);
            }
        },
        _ => {
            lemma_parse_compact(cs, k, j, d, dpos, v);
        },
    }
}

#[verifier::spinoff_prover]
proof fn lemma_parse_pretty_array(
    cs: Seq<char>,
    k: int,
    j: int,
    d: nat,
    dpos: int,
    items: Seq<JsonView>,
    indent: nat,
    level: nat,
)
    requires
        0 <= k <= j,
        items.len() > 0,
        all_ws(cs, k, j),
        holds(cs, j, pretty(JsonView::Array(items), indent, level)),
        well_formed(JsonView::Array(items)),
        d + 1 + nesting(JsonView::Array(items)) <= MAX_DEPTH,
    ensures
        parse_value_at(cs, k, d, dpos) == Ok::<(JsonView, int), (crate::error::ErrorKind, int)>(
            (JsonView::Array(items), j + pretty(JsonView::Array(items), indent, level).len()),
        ),
    decreases items, 2int,
{
    let t = pretty(JsonView::Array(items), indent, level);
    let inner = pretty_items(items, indent, level + 1);
    let close = closing(indent * level, ']');
    assert(t =~= seq!['['] + (seq!['\n'] + inner + close));
    lemma_holds_split(cs, j, seq!['['], seq!['\n'] + inner + close);
    lemma_holds_char(cs, j, seq!['['], 0);
    lemma_lex_punct(cs, k, j);
    lemma_nesting_items_first(items);
    lemma_parse_pretty_items(cs, j + 1, d + 1, seq![], items, indent, level + 1, indent * level, true);
    assert(seq![] + items =~= items);
    let e = match lex_at(cs, j + 1) {
        Lexed::Tok(_, _, e) => e,
        _ => 0,
    };
    assert(parse_array_at(cs, j + 1, d + 1) == parse_elems_at(cs, j + 1, d + 1, seq![], e));
    assert(parse_value_at(cs, k, d, dpos) == parse_array_at(cs, j + 1, d + 1));
}

/// The indented items `rest`, each on its own line, then the closing line, are parsed
/// back after the items `acc`. With `first`, the first item's token is also read
/// from `p` (as an array's first item is, right after the bracket).
#[verifier::spinoff_prover]
pub proof fn lemma_parse_pretty_items(
    cs: Seq<char>,
    p: int,
    d: nat,
    acc: Seq<JsonView>,
    rest: Seq<JsonView>,
    indent: nat,
    level: nat,
    m: nat,
    first: bool,
)
    requires
        0 <= p,
        rest.len() > 0,
        holds(cs, p, seq!['\n'] + pretty_items(rest, indent, level) + closing(m, ']')),
        well_formed_items(rest),
        d + 1 + nesting_items(rest) <= MAX_DEPTH,
    ensures
        forall|dpos: int|
            parse_elems_at(cs, p, d, acc, dpos) == Ok::<(JsonView, int), (crate::error::ErrorKind, int)>(
                (
                    JsonView::Array(acc + rest),
                    p + 1 + pretty_items(rest, indent, level).len() + closing(m, ']').len(),
                ),
            ),
        first ==> (lex_at(cs, p) matches Lexed::Tok(t, _, _) && !(t is RBracket)),
    decreases rest, 1int,
{
    let sp = spaces(indent * level);
    let v0 = pretty(rest[0], indent, level);
    let tail = rest.subrange(1, rest.len() as int);
    let close = closing(m, ']');
    let body = pretty_items(rest, indent, level);
    let total = p + 1 + body.len() + close.len();
    lemma_nesting_items_first(rest);
    let after = if rest.len() == 1 {
        close
    } else {
        seq![',', '\n'] + pretty_items(tail, indent, level) + close
    };
    assert(seq!['\n'] + body + close =~= seq!['\n'] + sp + v0 + after);
    assert(seq!['\n'] + sp + v0 + after =~= seq!['\n'] + (sp + (v0 + after)));
    lemma_holds_split(cs, p, seq!['\n'], sp + (v0 + after));
    lemma_holds_split(cs, p + 1, sp, v0 + after);
    lemma_holds_split(cs, p + 1 + sp.len(), v0, after);
    lemma_holds_char(cs, p, seq!['\n'], 0);
    lemma_spaces_ws(cs, p + 1, indent * level);
    lemma_all_ws_join(cs, p, p + 1, p + 1 + sp.len());
    let j = p + 1 + sp.len();
    let k3 = j + v0.len();
    if rest.len() == 1 {
        assert(close =~= seq!['\n'] + (spaces(m) + seq![']']));
        lemma_holds_char(cs, k3, close, 0);
        lemma_lex_closing(cs, k3, m, ']');
        assert(k3 + 2 + m == total);
        assert forall|dpos: int|
            parse_elems_at(cs, p, d, acc, dpos) == Ok::<
                (JsonView, int),
                (crate::error::ErrorKind, int),
            >((JsonView::Array(acc + rest), total)) by {
            lemma_parse_pretty(cs, p, j, d, dpos, rest[0], indent, level);
            assert(item_at(cs, p, d, dpos) == Ok::<
                (JsonView, int, bool),
                (crate::error::ErrorKind, int),
            >((rest[0], total, true)));
            assert(acc.push(rest[0]) =~= acc + rest);
        }
        if first {
            lemma_parse_pretty(cs, p, j, d, 0, rest[0], indent, level);
            lemma_value_lex(cs, p, d, 0);
        }
    } else {
        let tb = pretty_items(tail, indent, level);
        assert(after =~= seq![','] + (seq!['\n'] + tb + close));
        lemma_holds_split(cs, k3, seq![','], seq!['\n'] + tb + close);
        lemma_holds_char(cs, k3, seq![','], 0);
        lemma_all_ws_empty(cs, k3);
        lemma_lex_punct(cs, k3, k3);
        lemma_parse_pretty_items(cs, k3 + 1, d, acc.push(rest[0]), tail, indent, level, m, false);
        assert(k3 + 1 + 1 + tb.len() + close.len() == total);
        assert forall|dpos: int|
            parse_elems_at(cs, p, d, acc, dpos) == Ok::<
                (JsonView, int),
                (crate::error::ErrorKind, int),
            >((JsonView::Array(acc + rest), total)) by {
            lemma_parse_pretty(cs, p, j, d, dpos, rest[0], indent, level);
            assert(item_at(cs, p, d, dpos) == Ok::<
                (JsonView, int, bool),
                (crate::error::ErrorKind, int),
            >((rest[0], k3 + 1, false)));
            assert(parse_elems_at(cs, k3 + 1, d, acc.push(rest[0]), k3 + 1) == Ok::<
                (JsonView, int),
                (crate::error::ErrorKind, int),
            >((JsonView::Array(acc.push(rest[0]) + tail), total)));
            assert(acc.push(rest[0]) + tail =~= acc + rest);
        }
        if first {
            lemma_parse_pretty(cs, p, j, d, 0, rest[0], indent, level);
            lemma_value_lex(cs, p, d, 0);
        }
    }
}

#[verifier::spinoff_prover]
proof fn lemma_parse_pretty_object(
    cs: Seq<char>,
    k: int,
    j: int,
    d: nat,
    dpos: int,
    members: Seq<(Seq<char>, JsonView)>,
    indent: nat,
    level: nat,
)
    requires
        0 <= k <= j,
        members.len() > 0,
        all_ws(cs, k, j),
        holds(cs, j, pretty(JsonView::Object(members), indent, level)),
        well_formed(JsonView::Object(members)),
        d + 1 + nesting(JsonView::Object(members)) <= MAX_DEPTH,
    ensures
        parse_value_at(cs, k, d, dpos) == Ok::<(JsonView, int), (crate::error::ErrorKind, int)>(
            (JsonView::Object(members), j + pretty(JsonView::Object(members), indent, level).len()),
        ),
    decreases members, 2int,
{
    let t = pretty(JsonView::Object(members), indent, level);
    let inner = pretty_members(members, indent, level + 1);
    let close = closing(indent * level, '}');
    assert(t =~= seq!['{'] + (seq!['\n'] + inner + close));
    lemma_holds_split(cs, j, seq!['{'], seq!['\n'] + inner + close);
    lemma_holds_char(cs, j, seq!['{'], 0);
    lemma_lex_punct(cs, k, j);
    lemma_nesting_members_first(members);
    lemma_parse_pretty_members(cs, j + 1, d + 1, seq![], members, indent, level + 1, indent * level);
    assert(seq![] + members =~= members);
    assert(parse_object_at(cs, j + 1, d + 1) == parse_members_at(cs, j + 1, d + 1, seq![]));
    assert(parse_value_at(cs, k, d, dpos) == parse_object_at(cs, j + 1, d + 1));
}

/// One member line after a line break at `p` is read back as its key and value; what
/// `member_at` returns then turns on the token after the value.
#[verifier::spinoff_prover]
proof fn lemma_read_pretty_member(
    cs: Seq<char>,
    p: int,
    d: nat,
    m0: (Seq<char>, JsonView),
    indent: nat,
    level: nat,
)
    requires
        0 <= p,
        holds(cs, p, seq!['\n'] + pretty_member(m0, indent, level)),
        ends_number(cs, p + 1 + pretty_member(m0, indent, level).len()),
        well_formed(m0.1),
        d + 1 + nesting(m0.1) <= MAX_DEPTH,
    ensures
        lex_at(cs, p) matches Lexed::Tok(TokenView::Str(_), _, _),
        ({
            let k3 = p + 1 + pretty_member(m0, indent, level).len();
            &&& (lex_at(cs, k3) matches Lexed::Tok(TokenView::Comma, _, e4) ==> member_at(cs, p, d)
                == Ok::<(Seq<char>, JsonView, int, bool), (crate::error::ErrorKind, int)>(
                (m0.0, m0.1, e4, false),
            ))
            &&& (lex_at(cs, k3) matches Lexed::Tok(TokenView::RBrace, _, e4) ==> member_at(cs, p, d)
                == Ok::<(Seq<char>, JsonView, int, bool), (crate::error::ErrorKind, int)>(
                (m0.0, m0.1, e4, true),
            ))
        }),
    decreases m0, 0int,
{
    let sp = spaces(indent * level);
    let q = quoted(m0.0);
    let v0 = pretty(m0.1, indent, level);
    assert(seq!['\n'] + pretty_member(m0, indent, level) =~= seq!['\n'] + (sp + (q + (seq![
        ':',
        ' ',
    ] + v0))));
    lemma_holds_split(cs, p, seq!['\n'], sp + (q + (seq![':', ' '] + v0)));
    lemma_holds_split(cs, p + 1, sp, q + (seq![':', ' '] + v0));
    let qs = p + 1 + sp.len();
    lemma_holds_split(cs, qs, q, seq![':', ' '] + v0);
    let cp = qs + q.len();
    lemma_holds_split(cs, cp, seq![':', ' '], v0);
    let j = cp + 2;
    lemma_holds_char(cs, p, seq!['\n'], 0);
    lemma_holds_char(cs, cp, seq![':', ' '], 0);
    lemma_holds_char(cs, cp, seq![':', ' '], 1);
    lemma_spaces_ws(cs, p + 1, indent * level);
    lemma_all_ws_join(cs, p, p + 1, qs);
    lemma_lex_string(cs, p, qs, m0.0);
    law_unescape_escape(m0.0);
    lemma_all_ws_empty(cs, cp);
    lemma_lex_punct(cs, cp, cp);
    lemma_parse_pretty(cs, cp + 1, j, d, cp + 1, m0.1, indent, level);
}

/// The indented members `rest`, each on its own line, then the closing line, are
/// parsed back after the members `acc`; the first member's key is read from `p`.
#[verifier::spinoff_prover]
pub proof fn lemma_parse_pretty_members(
    cs: Seq<char>,
    p: int,
    d: nat,
    acc: Seq<(Seq<char>, JsonView)>,
    rest: Seq<(Seq<char>, JsonView)>,
    indent: nat,
    level: nat,
    m: nat,
)
    requires
        0 <= p,
        rest.len() > 0,
        holds(cs, p, seq!['\n'] + pretty_members(rest, indent, level) + closing(m, '}')),
        well_formed_members(rest),
        d + 1 + nesting_members(rest) <= MAX_DEPTH,
    ensures
        parse_members_at(cs, p, d, acc) == Ok::<(JsonView, int), (crate::error::ErrorKind, int)>(
            (
                JsonView::Object(acc + rest),
                p + 1 + pretty_members(rest, indent, level).len() + closing(m, '}').len(),
            ),
        ),
        !(lex_at(cs, p) matches Lexed::Tok(TokenView::RBrace, _, _)),
    decreases rest, 1int,
{
    let m0 = rest[0];
    let line = pretty_member(m0, indent, level);
    let tail = rest.subrange(1, rest.len() as int);
    let close = closing(m, '}');
    let body = pretty_members(rest, indent, level);
    let total = p + 1 + body.len() + close.len();
    lemma_nesting_members_first(rest);
    let after = if rest.len() == 1 {
        close
    } else {
        seq![',', '\n'] + pretty_members(tail, indent, level) + close
    };
    if rest.len() == 1 {
        assert(body == line);
    } else {
        assert(body == line + seq![',', '\n'] + pretty_members(tail, indent, level));
    }
    assert(seq!['\n'] + body + close =~= (seq!['\n'] + line) + after);
    lemma_holds_split(cs, p, seq!['\n'] + line, after);
    let k3 = p + 1 + line.len();
    if rest.len() == 1 {
        assert(close =~= seq!['\n'] + (spaces(m) + seq!['}']));
        lemma_holds_char(cs, k3, close, 0);
        lemma_read_pretty_member(cs, p, d, m0, indent, level);
        lemma_lex_closing(cs, k3, m, '}');
        assert(k3 + 2 + m == total);
        assert(acc.push((m0.0, m0.1)) =~= acc + rest);
    } else {
        let tb = pretty_members(tail, indent, level);
        assert(after =~= seq![','] + (seq!['\n'] + tb + close));
        lemma_holds_split(cs, k3, seq![','], seq!['\n'] + tb + close);
        lemma_holds_char(cs, k3, seq![','], 0);
        lemma_read_pretty_member(cs, p, d, m0, indent, level);
        lemma_all_ws_empty(cs, k3);
        lemma_lex_punct(cs, k3, k3);
        lemma_parse_pretty_members(cs, k3 + 1, d, acc.push((m0.0, m0.1)), tail, indent, level, m);
        assert(k3 + 1 + 1 + tb.len() + close.len() == total);
        assert(acc.push((m0.0, m0.1)) + tail =~= acc + rest);
    }
}

/// Parsing the indented text of a well-formed value that is not nested too deeply
/// gives the value back, whatever the indentation width.
pub proof fn law_parse_to_string_pretty(v: JsonView, indent: nat)
    requires
        well_formed(v),
        nesting(v) < MAX_DEPTH,
    ensures
        parse_spec(pretty(v, indent, 0)) == Ok::<JsonView, (crate::error::ErrorKind, int)>(v),
{
    let cs = pretty(v, indent, 0);
    assert(cs.subrange(0, cs.len() as int) =~= cs);
    lemma_parse_pretty(cs, 0, 0, 0, 0, v, indent, 0);
    lemma_lex_end(cs, cs.len() as int);
}

// ---------------------------------------------------------------------------
// What the parser gives back
// ---------------------------------------------------------------------------
proof fn lemma_digits_end_sub(cs: Seq<char>, s: int, e: int, t: int)
    requires
        0 <= s,
        0 <= t,
        s + t <= e <= cs.len(),
        digits_end(cs, s + t) <= e,
    ensures
        digits_end(cs.subrange(s, e), t) == digits_end(cs, s + t) - s,
    decreases e - s - t,
{
    let sub = cs.subrange(s, e);
    lemma_digits_end(cs, s + t);
    if s + t < e {
        assert(sub[t] == cs[s + t]);
        if is_digit(cs[s + t]) {
            lemma_digits_end_sub(cs, s, e, t + 1);
        }
    }
}

/// The text of a number token is a number lexeme.
#[verifier::spinoff_prover]
proof fn lemma_number_text_lexeme(cs: Seq<char>, s: int)
    requires
        0 <= s < cs.len(),
        number_end(cs, s) is Some,
    ensures
        is_number_lexeme(cs.subrange(s, number_end(cs, s)->0)),
{
    let e = number_end(cs, s)->0;
    let sub = cs.subrange(s, e);
    let j = if cs[s] == '-' {
        s + 1
    } else {
        s
    };
    lemma_digits_end(cs, j + 1);
    let j1 = int_part_end(cs, s)->0;
    let j2 = frac_end(cs, j1)->0;
    if j1 < cs.len() {
        lemma_digits_end(cs, j1 + 1);
    }
    let t = if j2 + 1 < cs.len() && (cs[j2 + 1] == '+' || cs[j2 + 1] == '-') {
        j2 + 2
    } else {
        j2 + 1
    };
    if t <= cs.len() {
        lemma_digits_end(cs, t);
    }
    assert(s < j1 <= j2 <= e);
    assert(sub[0] == cs[s]);
    assert(sub[j - s] == cs[j]);
    if cs[j] != '0' {
        lemma_digits_end_sub(cs, s, e, j + 1 - s);
    }
    assert(int_part_end(sub, 0) == Some(j1 - s));
    if j1 < e {
        assert(sub[j1 - s] == cs[j1]);
        if cs[j1] == '.' {
            lemma_digits_end_sub(cs, s, e, j1 + 1 - s);
        }
    }
    assert(frac_end(sub, j1 - s) == Some(j2 - s));
    if j2 < e {
        assert(sub[j2 - s] == cs[j2]);
        if cs[j2] == 'e' || cs[j2] == 'E' {
            assert(j2 + 1 < e);
            assert(sub[j2 + 1 - s] == cs[j2 + 1]);
            lemma_digits_end_sub(cs, s, e, t - s);
        }
    }
    assert(exp_end(sub, j2 - s) == Some(e - s));
}

/// Every number token that the lexer reads holds a JSON number lexeme.
pub proof fn law_number_token_is_lexeme(cs: Seq<char>, k: int)
    requires
        0 <= k <= cs.len(),
    ensures
        lex_at(cs, k) matches Lexed::Tok(TokenView::Num(lx), _, _) ==> is_number_lexeme(lx),
{
    reveal(lex_at);
    lemma_skip_ws(cs, k);
    let s = skip_ws(cs, k);
    if s < cs.len() && number_end(cs, s) is Some {
        lemma_number_text_lexeme(cs, s);
    }
}

/// `lx` is the exact text of a number token of `cs`: the token read at some index
/// `s` of `cs` is the number `lx`, and `cs` holds `lx` from `s` on.
pub open spec fn is_number_token_text(cs: Seq<char>, lx: Seq<char>) -> bool {
    exists|s: int|
        0 <= s && s + lx.len() <= cs.len() && cs.subrange(s, s + lx.len()) == lx && #[trigger] lex_at(
            cs,
            s,
        ) == Lexed::Tok(TokenView::Num(lx), s, s + lx.len())
}

/// Every number in `v` is the exact text of a number token of `cs`.
pub open spec fn numbers_from_text(cs: Seq<char>, v: JsonView) -> bool
    decreases v,
{
    match v {
        JsonView::Number(lx) => is_number_token_text(cs, lx),
        JsonView::Array(items) => numbers_from_text_items(cs, items),
        JsonView::Object(members) => numbers_from_text_members(cs, members),
        _ => true,
    }
}

pub open spec fn numbers_from_text_items(cs: Seq<char>, items: Seq<JsonView>) -> bool
    decreases items,
{
    items.len() == 0 || (numbers_from_text(cs, items[0]) && numbers_from_text_items(
        cs,
        items.subrange(1, items.len() as int),
    ))
}

pub open spec fn numbers_from_text_members(
    cs: Seq<char>,
    members: Seq<(Seq<char>, JsonView)>,
) -> bool
    decreases members,
{
    members.len() == 0 || (numbers_from_text(cs, members[0].1) && numbers_from_text_members(
        cs,
        members.subrange(1, members.len() as int),
    ))
}

/// A token is read again, the same, from the index where it starts.
proof fn lemma_lex_from_start(cs: Seq<char>, k: int)
    requires
        0 <= k <= cs.len(),
    ensures
        lex_at(cs, k) matches Lexed::Tok(t, s, e) ==> lex_at(cs, s) == lex_at(cs, k),
        lex_at(cs, k) matches Lexed::Tok(TokenView::Num(lx), s, e) ==> e == s + lx.len()
            && cs.subrange(s, e) == lx,
{
    reveal(lex_at);
    lemma_skip_ws(cs, k);
    lemma_lex_at(cs, k);
    let s = skip_ws(cs, k);
    if s < cs.len() {
        assert(skip_ws(cs, s) == s);
    }
}

/// `v`, parsed from `cs` inside `d` enclosing containers, is well formed, takes its
/// numbers from the text, and is within the depth limit.
pub open spec fn fits(cs: Seq<char>, v: JsonView, d: nat) -> bool {
    well_formed(v) && numbers_from_text(cs, v) && d + 1 + nesting(v) <= MAX_DEPTH
}

proof fn lemma_fits_items(cs: Seq<char>, items: Seq<JsonView>, d: nat)
    requires
        forall|i: int| 0 <= i < items.len() ==> #[trigger] fits(cs, items[i], d),
    ensures
        well_formed_items(items),
        numbers_from_text_items(cs, items),
        items.len() > 0 ==> d + 1 + nesting_items(items) <= MAX_DEPTH,
    decreases items.len(),
{
    if items.len() > 0 {
        let rest = items.subrange(1, items.len() as int);
        assert(fits(cs, items[0], d));
        assert forall|i: int| 0 <= i < rest.len() implies #[trigger] fits(cs, rest[i], d) by {
            assert(rest[i] == items[i + 1]);
            assert(fits(cs, items[i + 1], d));
        }
        lemma_fits_items(cs, rest, d);
        if rest.len() == 0 {
            assert(nesting_items(rest) == 0);
        }
        assert(nesting(items[0]) <= nesting_items(items));
    }
}

proof fn lemma_fits_members(cs: Seq<char>, members: Seq<(Seq<char>, JsonView)>, d: nat)
    requires
        forall|i: int| 0 <= i < members.len() ==> #[trigger] fits(cs, members[i].1, d),
    ensures
        well_formed_members(members),
        numbers_from_text_members(cs, members),
        members.len() > 0 ==> d + 1 + nesting_members(members) <= MAX_DEPTH,
    decreases members.len(),
{
    if members.len() > 0 {
        let rest = members.subrange(1, members.len() as int);
        assert(fits(cs, members[0].1, d));
        assert forall|i: int| 0 <= i < rest.len() implies #[trigger] fits(cs, rest[i].1, d) by {
            assert(rest[i] == members[i + 1]);
            assert(fits(cs, members[i + 1].1, d));
        }
        lemma_fits_members(cs, rest, d);
        if rest.len() == 0 {
            assert(nesting_members(rest) == 0);
        }
        assert(nesting(members[0].1) <= nesting_members(members));
    }
}

pub proof fn lemma_value_fits(cs: Seq<char>, k: int, d: nat, dpos: int)
    requires
        0 <= k <= cs.len(),
    ensures
        parse_value_at(cs, k, d, dpos) matches Ok((v, _)) ==> fits(cs, v, d),
    decreases cs.len() - k, 0int,
{
    lemma_lex_at(cs, k);
    law_number_token_is_lexeme(cs, k);
    lemma_lex_from_start(cs, k);
    if let Lexed::Tok(TokenView::Num(lx), s, e) = lex_at(cs, k) {
        assert(lex_at(cs, s) == Lexed::Tok(TokenView::Num(lx), s, s + lx.len()));
        assert(is_number_token_text(cs, lx));
    }
    if d + 1 <= MAX_DEPTH {
        if let Lexed::Tok(t, s, e) = lex_at(cs, k) {
            if t is LBracket {
                lemma_array_fits(cs, e, d + 1);
                if let Ok((JsonView::Array(items), _)) = parse_array_at(cs, e, d + 1) {
                    lemma_fits_items(cs, items, d + 1);
                }
            } else if t is LBrace {
                lemma_object_fits(cs, e, d + 1);
                if let Ok((JsonView::Object(members), _)) = parse_object_at(cs, e, d + 1) {
                    lemma_fits_members(cs, members, d + 1);
                }
            }
        }
    }
}

pub proof fn lemma_array_fits(cs: Seq<char>, k: int, d: nat)
    requires
        0 <= k <= cs.len(),
        1 <= d <= MAX_DEPTH,
    ensures
        parse_array_at(cs, k, d) matches Ok((v, _)) ==> (v matches JsonView::Array(items) && forall|
            i: int,
        | 0 <= i < items.len() ==> #[trigger] fits(cs, items[i], d)),
    decreases cs.len() - k, 3int,
{
    lemma_lex_at(cs, k);
    if let Lexed::Tok(t, _, e) = lex_at(cs, k) {
        if !(t is RBracket) {
            lemma_elems_fits(cs, k, d, seq![], e);
        }
    }
}

pub proof fn lemma_item_fits(cs: Seq<char>, k: int, d: nat, dpos: int)
    requires
        0 <= k <= cs.len(),
    ensures
        item_at(cs, k, d, dpos) matches Ok((v, _, _)) ==> fits(cs, v, d),
    decreases cs.len() - k, 1int,
{
    lemma_value_fits(cs, k, d, dpos);
}

pub proof fn lemma_elems_fits(cs: Seq<char>, k: int, d: nat, acc: Seq<JsonView>, dpos: int)
    requires
        0 <= k <= cs.len(),
        forall|i: int| 0 <= i < acc.len() ==> #[trigger] fits(cs, acc[i], d),
    ensures
        parse_elems_at(cs, k, d, acc, dpos) matches Ok((v, _)) ==> (v matches JsonView::Array(
            items,
        ) && forall|i: int| 0 <= i < items.len() ==> #[trigger] fits(cs, items[i], d)),
    decreases cs.len() - k, 2int,
{
    lemma_item_fits(cs, k, d, dpos);
    if let Ok((v, e, last)) = item_at(cs, k, d, dpos) {
        let acc2 = acc.push(v);
        assert forall|i: int| 0 <= i < acc2.len() implies #[trigger] fits(cs, acc2[i], d) by {
            if i < acc.len() {
                assert(acc2[i] == acc[i]);
            }
        }
        if !last && 0 <= k < e <= cs.len() {
            lemma_elems_fits(cs, e, d, acc2, e);
        }
    }
}

pub proof fn lemma_object_fits(cs: Seq<char>, k: int, d: nat)
    requires
        0 <= k <= cs.len(),
        1 <= d <= MAX_DEPTH,
    ensures
        parse_object_at(cs, k, d) matches Ok((v, _)) ==> (v matches JsonView::Object(members)
            && forall|i: int| 0 <= i < members.len() ==> #[trigger] fits(cs, members[i].1, d)),
    decreases cs.len() - k, 3int,
{
    lemma_lex_at(cs, k);
    if let Lexed::Tok(t, _, _) = lex_at(cs, k) {
        if !(t is RBrace) {
            lemma_members_fits(cs, k, d, seq![]);
        }
    }
}

pub proof fn lemma_member_fits(cs: Seq<char>, k: int, d: nat)
    requires
        0 <= k <= cs.len(),
    ensures
        member_at(cs, k, d) matches Ok((_, v, _, _)) ==> fits(cs, v, d),
    decreases cs.len() - k, 1int,
{
    lemma_lex_at(cs, k);
    if let Lexed::Tok(TokenView::Str(raw), s, e) = lex_at(cs, k) {
        lemma_lex_at(cs, e);
        if let Lexed::Tok(TokenView::Colon, s2, e2) = lex_at(cs, e) {
            if 0 <= k < e2 <= cs.len() {
                lemma_value_fits(cs, e2, d, e2);
            }
        }
    }
}

pub proof fn lemma_members_fits(
    cs: Seq<char>,
    k: int,
    d: nat,
    acc: Seq<(Seq<char>, JsonView)>,
)
    requires
        0 <= k <= cs.len(),
        forall|i: int| 0 <= i < acc.len() ==> #[trigger] fits(cs, acc[i].1, d),
    ensures
        parse_members_at(cs, k, d, acc) matches Ok((v, _)) ==> (v matches JsonView::Object(members)
            && forall|i: int| 0 <= i < members.len() ==> #[trigger] fits(cs, members[i].1, d)),
    decreases cs.len() - k, 2int,
{
    lemma_member_fits(cs, k, d);
    if let Ok((key, v, e, last)) = member_at(cs, k, d) {
        let acc2 = acc.push((key, v));
        assert forall|i: int| 0 <= i < acc2.len() implies #[trigger] fits(cs, acc2[i].1, d) by {
            if i < acc.len() {
                assert(acc2[i] == acc[i]);
            }
        }
        if !last && 0 <= k < e <= cs.len() {
            lemma_members_fits(cs, e, d, acc2);
        }
    }
}

/// Every value that the parser accepts has JSON number lexemes for its numbers and
/// lies within the depth limit.
pub proof fn law_parsed_is_well_formed(cs: Seq<char>)
    ensures
        parse_spec(cs) matches Ok(v) ==> well_formed(v) && nesting(v) < MAX_DEPTH,
{
    lemma_value_fits(cs, 0, 0, 0);
}

/// Every number in a value that the parser accepts is, unchanged, the text of a
/// number token of the input.
pub proof fn law_parsed_numbers_are_source_text(cs: Seq<char>)
    ensures
        parse_spec(cs) matches Ok(v) ==> numbers_from_text(cs, v),
{
    lemma_value_fits(cs, 0, 0, 0);
}

/// Writing a parsed value back, compactly or indented with any width, and parsing the
/// text again gives the same value.
pub proof fn law_reparse(cs: Seq<char>, indent: nat)
    requires
        parse_spec(cs) is Ok,
    ensures
        parse_spec(compact(parse_spec(cs)->Ok_0)) == parse_spec(cs),
        parse_spec(pretty(parse_spec(cs)->Ok_0, indent, 0)) == parse_spec(cs),
{
    let v = parse_spec(cs)->Ok_0;
    law_parsed_is_well_formed(cs);
    law_parse_to_string(v);
    law_parse_to_string_pretty(v, indent);
}

/// JSON numbers have no leading zeros: in a number lexeme, a `0` that begins the
/// integer part (after an optional `-`) is never followed by another digit.
pub proof fn law_no_leading_zero(lx: Seq<char>)
    requires
        is_number_lexeme(lx),
    ensures
        lx.len() >= 2 && lx[0] == '0' ==> !is_digit(lx[1]),
        lx.len() >= 3 && lx[0] == '-' && lx[1] == '0' ==> !is_digit(lx[2]),
{
}

} // verus!
