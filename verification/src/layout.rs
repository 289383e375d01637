//! The indented text is the compact text with layout added: deleting the line feeds
//! and the spaces outside string literals from [`pretty`] gives [`compact`]; and one
//! level deeper, every line of the indented text moves right by one indentation step.
use vstd::prelude::*;
use crate::laws::{is_number_lexeme, lemma_hex_char, well_formed, well_formed_items, well_formed_members};
use crate::lexer::{exp_end, frac_end, int_part_end, lemma_digits_end};
use crate::ser::{
    compact, compact_items, compact_member, compact_members, escape_char, escape_str,
    pretty, pretty_items, pretty_member, pretty_members, quoted, spaces,
};
use crate::text::{hex_char, is_digit};
use crate::value::JsonView;

verus! {

// ---------------------------------------------------------------------------
// Deleting layout
// ---------------------------------------------------------------------------
/// Where a reader of JSON text stands: `0` outside string literals, `1` inside one,
/// `2` inside one just after a backslash.
pub open spec fn next_state(st: nat, c: char) -> nat {
    if st == 0 {
        if c == '"' {
            1
        } else {
            0
        }
    } else if st == 2 {
        1
    } else if c == '\\' {
        2
    } else if c == '"' {
        0
    } else {
        1
    }
}

/// `cs` read from state `st`, without the line feeds and spaces that stand outside
/// string literals.
pub open spec fn strip_from(cs: Seq<char>, st: nat) -> Seq<char>
    decreases cs.len(),
{
    if cs.len() == 0 {
        seq![]
    } else {
        let c = cs[0];
        let r = cs.subrange(1, cs.len() as int);
        if st == 0 && (c == ' ' || c == '\n') {
            strip_from(r, 0)
        } else {
            seq![c] + strip_from(r, next_state(st, c))
        }
    }
}

/// The state after reading `cs` from state `st`.
pub open spec fn state_after(cs: Seq<char>, st: nat) -> nat
    decreases cs.len(),
{
    if cs.len() == 0 {
        st
    } else {
        state_after(cs.subrange(1, cs.len() as int), next_state(st, cs[0]))
    }
}

/// JSON text without the line feeds and spaces outside its string literals.
pub open spec fn strip_layout(cs: Seq<char>) -> Seq<char> {
    strip_from(cs, 0)
}

/// Reading `cs` from `st` keeps `out` and ends in `st2`.
pub open spec fn strips_to(cs: Seq<char>, st: nat, out: Seq<char>, st2: nat) -> bool {
    strip_from(cs, st) == out && state_after(cs, st) == st2
}

proof fn lemma_strip_cons(c: char, r: Seq<char>, st: nat)
    ensures
        strip_from(seq![c] + r, st) == if st == 0 && (c == ' ' || c == '\n') {
            strip_from(r, 0)
        } else {
            seq![c] + strip_from(r, next_state(st, c))
        },
        state_after(seq![c] + r, st) == state_after(r, next_state(st, c)),
{
    let cs = seq![c] + r;
    assert(cs[0] == c);
    assert(cs.subrange(1, cs.len() as int) =~= r);
}

proof fn lemma_strip_one(c: char, st: nat)
    ensures
        strips_to(
            seq![c],
            st,
            if st == 0 && (c == ' ' || c == '\n') {
                seq![]
            } else {
                seq![c]
            },
            next_state(st, c),
        ),
{
    lemma_strip_cons(c, seq![], st);
    assert(seq![c] + Seq::<char>::empty() =~= seq![c]);
    assert(seq![c] + Seq::<char>::empty() =~= seq![c]);
}

/// Reading two texts one after the other.
proof fn lemma_strip_join(
    a: Seq<char>,
    b: Seq<char>,
    st: nat,
    oa: Seq<char>,
    s1: nat,
    ob: Seq<char>,
    s2: nat,
)
    requires
        strips_to(a, st, oa, s1),
        strips_to(b, s1, ob, s2),
    ensures
        strips_to(a + b, st, oa + ob, s2),
    decreases a.len(),
{
    if a.len() == 0 {
        assert(a + b =~= b);
        assert(oa + ob =~= ob);
    } else {
        let c = a[0];
        let r = a.subrange(1, a.len() as int);
        assert(a =~= seq![c] + r);
        lemma_strip_cons(c, r, st);
        lemma_strip_cons(c, r + b, st);
        assert(a + b =~= seq![c] + (r + b));
        let st1 = next_state(st, c);
        if st == 0 && (c == ' ' || c == '\n') {
            lemma_strip_join(r, b, 0, oa, s1, ob, s2);
        } else {
            lemma_strip_join(r, b, st1, strip_from(r, st1), s1, ob, s2);
            assert(oa + ob =~= seq![c] + (strip_from(r, st1) + ob));
        }
    }
}

/// Characters that change nothing about the state: kept as they are.
proof fn lemma_strip_plain(cs: Seq<char>, st: nat)
    requires
        st == 0 || st == 1,
        forall|i: int|
            0 <= i < cs.len() ==> #[trigger] cs[i] != '"' && cs[i] != '\\' && (st == 0 ==> cs[i]
                != ' ' && cs[i] != '\n'),
    ensures
        strips_to(cs, st, cs, st),
    decreases cs.len(),
{
    if cs.len() > 0 {
        let r = cs.subrange(1, cs.len() as int);
        assert(cs =~= seq![cs[0]] + r);
        lemma_strip_cons(cs[0], r, st);
        assert forall|i: int| 0 <= i < r.len() implies #[trigger] r[i] != '"' && r[i] != '\\'
            && (st == 0 ==> r[i] != ' ' && r[i] != '\n') by {
            assert(r[i] == cs[i + 1]);
        }
        lemma_strip_plain(r, st);
        assert(cs[0] != '"' && cs[0] != '\\');
        assert(next_state(st, cs[0]) == st);
        assert(strip_from(seq![cs[0]] + r, st) == seq![cs[0]] + strip_from(r, st));
    } else {
        assert(strip_from(cs, st) =~= cs);
    }
}

/// Spaces outside string literals are deleted.
proof fn lemma_strip_spaces(n: nat)
    ensures
        strips_to(spaces(n), 0, seq![], 0),
    decreases n,
{
    if n > 0 {
        let r = spaces((n - 1) as nat);
        assert(spaces(n) =~= seq![' '] + r);
        lemma_strip_cons(' ', r, 0);
        lemma_strip_spaces((n - 1) as nat);
    }
}

// ---------------------------------------------------------------------------
// String literals are kept whole
// ---------------------------------------------------------------------------
proof fn lemma_strip_escape_char(c: char)
    ensures
        strips_to(escape_char(c), 1, escape_char(c), 1),
{
    let e = escape_char(c);
    if e.len() == 1 {
        assert(e =~= seq![c]);
        lemma_strip_one(c, 1);
    } else {
        let tail = e.subrange(1, e.len() as int);
        assert(e =~= seq!['\\'] + tail);
        lemma_strip_one('\\', 1);
        let x = tail[0];
        let rest = tail.subrange(1, tail.len() as int);
        assert(tail =~= seq![x] + rest);
        lemma_strip_one(x, 2);
        assert forall|i: int| 0 <= i < rest.len() implies #[trigger] rest[i] != '"' && rest[i]
            != '\\' by {
            if e.len() == 6 {
                assert(rest[i] == e[i + 2]);
            }
        }
        lemma_strip_plain(rest, 1);
        lemma_strip_join(seq![x], rest, 2, seq![x], 1, rest, 1);
        lemma_strip_join(seq!['\\'], tail, 1, seq!['\\'], 2, tail, 1);
    }
}

proof fn lemma_strip_escape_str(s: Seq<char>)
    ensures
        strips_to(escape_str(s), 1, escape_str(s), 1),
    decreases s.len(),
{
    if s.len() == 0 {
        assert(escape_str(s) =~= Seq::<char>::empty());
    } else {
        let r = s.subrange(1, s.len() as int);
        lemma_strip_escape_char(s[0]);
        lemma_strip_escape_str(r);
        lemma_strip_join(escape_char(s[0]), escape_str(r), 1, escape_char(s[0]), 1, escape_str(r), 1);
    }
}

proof fn lemma_strip_quoted(s: Seq<char>)
    ensures
        strips_to(quoted(s), 0, quoted(s), 0),
{
    lemma_strip_one('"', 0);
    lemma_strip_escape_str(s);
    lemma_strip_one('"', 1);
    lemma_strip_join(seq!['"'], escape_str(s), 0, seq!['"'], 1, escape_str(s), 1);
    lemma_strip_join(seq!['"'] + escape_str(s), seq!['"'], 0, seq!['"'] + escape_str(s), 1, seq!['"'], 0);
}

// ---------------------------------------------------------------------------
// Numbers, compact text, indented text
// ---------------------------------------------------------------------------
/// A character that a number lexeme can hold.
pub open spec fn number_char(c: char) -> bool {
    is_digit(c) || c == '-' || c == '+' || c == '.' || c == 'e' || c == 'E'
}

proof fn lemma_lexeme_chars(lx: Seq<char>)
    requires
        is_number_lexeme(lx),
    ensures
        forall|i: int| 0 <= i < lx.len() ==> number_char(#[trigger] lx[i]),
{
    let n = lx.len() as int;
    let j = if 0 < n && lx[0] == '-' {
        1int
    } else {
        0int
    };
    assert(j < n);
    lemma_digits_end(lx, j + 1);
    let j1 = int_part_end(lx, 0)->0;
    assert(j < j1 <= n);
    if j1 < n {
        lemma_digits_end(lx, j1 + 1);
    }
    let j2 = frac_end(lx, j1)->0;
    assert(j1 <= j2 <= n);
    let t = if j2 + 1 < n && (lx[j2 + 1] == '+' || lx[j2 + 1] == '-') {
        j2 + 2
    } else {
        j2 + 1
    };
    if t <= n {
        lemma_digits_end(lx, t);
    }
    assert(exp_end(lx, j2) == Some(n));
    assert forall|i: int| 0 <= i < n implies number_char(#[trigger] lx[i]) by {
        if i < j {
        } else if i == j {
        } else if i < j1 {
        } else if i == j1 {
            if j1 < j2 {
            } else {
                assert(j2 < n);
            }
        } else if i < j2 {
        } else if i == j2 {
        } else if i < t {
        } else {
        }
    }
}

proof fn lemma_strip_number(lx: Seq<char>)
    requires
        is_number_lexeme(lx),
    ensures
        strips_to(lx, 0, lx, 0),
{
    lemma_lexeme_chars(lx);
    assert forall|i: int| 0 <= i < lx.len() implies #[trigger] lx[i] != '"' && lx[i] != '\\'
        && lx[i] != ' ' && lx[i] != '\n' by {
        assert(number_char(lx[i]));
    }
    lemma_strip_plain(lx, 0);
}

proof fn lemma_strip_word(w: Seq<char>)
    requires
        w == seq!['n', 'u', 'l', 'l'] || w == seq!['t', 'r', 'u', 'e'] || w == seq![
            'f',
            'a',
            'l',
            's',
            'e',
        ],
    ensures
        strips_to(w, 0, w, 0),
{
    assert forall|i: int| 0 <= i < w.len() implies #[trigger] w[i] != '"' && w[i] != '\\'
        && w[i] != ' ' && w[i] != '\n' by {
    }
    lemma_strip_plain(w, 0);
}

/// The compact text of a well-formed value has no layout to delete.
pub proof fn lemma_strip_compact(v: JsonView)
    requires
        well_formed(v),
    ensures
        strips_to(compact(v), 0, compact(v), 0),
    decreases v, 1int,
{
    match v {
        JsonView::Null => lemma_strip_word(compact(v)),
        JsonView::Bool(b) => lemma_strip_word(compact(v)),
        JsonView::Number(lx) => lemma_strip_number(lx),
        JsonView::Str(s) => lemma_strip_quoted(s),
        JsonView::Array(items) => {
            let ci = compact_items(items);
            lemma_strip_one('[', 0);
            lemma_strip_compact_items(items);
            lemma_strip_one(']', 0);
            lemma_strip_join(seq!['['], ci, 0, seq!['['], 0, ci, 0);
            lemma_strip_join(seq!['['] + ci, seq![']'], 0, seq!['['] + ci, 0, seq![']'], 0);
        },
        JsonView::Object(members) => {
            let cm = compact_members(members);
            lemma_strip_one('{', 0);
            lemma_strip_compact_members(members);
            lemma_strip_one('}', 0);
            lemma_strip_join(seq!['{'], cm, 0, seq!['{'], 0, cm, 0);
            lemma_strip_join(seq!['{'] + cm, seq!['}'], 0, seq!['{'] + cm, 0, seq!['}'], 0);
        },
    }
}

proof fn lemma_strip_compact_items(items: Seq<JsonView>)
    requires
        well_formed_items(items),
    ensures
        strips_to(compact_items(items), 0, compact_items(items), 0),
    decreases items, 0int,
{
    if items.len() == 0 {
        assert(compact_items(items) =~= Seq::<char>::empty());
    } else {
        let c0 = compact(items[0]);
        lemma_strip_compact(items[0]);
        if items.len() > 1 {
            let rest = items.subrange(1, items.len() as int);
            let cr = compact_items(rest);
            lemma_strip_one(',', 0);
            lemma_strip_compact_items(rest);
            lemma_strip_join(c0, seq![','], 0, c0, 0, seq![','], 0);
            lemma_strip_join(c0 + seq![','], cr, 0, c0 + seq![','], 0, cr, 0);
        }
    }
}

proof fn lemma_strip_compact_member(m: (Seq<char>, JsonView))
    requires
        well_formed(m.1),
    ensures
        strips_to(compact_member(m), 0, compact_member(m), 0),
    decreases m, 0int,
{
    let q = quoted(m.0);
    let c = compact(m.1);
    lemma_strip_quoted(m.0);
    lemma_strip_one(':', 0);
    lemma_strip_compact(m.1);
    lemma_strip_join(q, seq![':'], 0, q, 0, seq![':'], 0);
    lemma_strip_join(q + seq![':'], c, 0, q + seq![':'], 0, c, 0);
}

proof fn lemma_strip_compact_members(members: Seq<(Seq<char>, JsonView)>)
    requires
        well_formed_members(members),
    ensures
        strips_to(compact_members(members), 0, compact_members(members), 0),
    decreases members, 1int,
{
    if members.len() == 0 {
        assert(compact_members(members) =~= Seq::<char>::empty());
    } else {
        let c0 = compact_member(members[0]);
        lemma_strip_compact_member(members[0]);
        if members.len() > 1 {
            let rest = members.subrange(1, members.len() as int);
            let cr = compact_members(rest);
            lemma_strip_one(',', 0);
            lemma_strip_compact_members(rest);
            lemma_strip_join(c0, seq![','], 0, c0, 0, seq![','], 0);
            lemma_strip_join(c0 + seq![','], cr, 0, c0 + seq![','], 0, cr, 0);
        }
    }
}

proof fn lemma_strip_punct_ws(a: char, b: char)
    requires
        a != '"' && a != '\\' && a != ' ' && a != '\n',
        b == ' ' || b == '\n',
    ensures
        strips_to(seq![a, b], 0, seq![a], 0),
{
    lemma_strip_one(a, 0);
    lemma_strip_one(b, 0);
    lemma_strip_join(seq![a], seq![b], 0, seq![a], 0, seq![], 0);
    assert(seq![a] + seq![b] =~= seq![a, b]);
    assert(seq![a] + Seq::<char>::empty() =~= seq![a]);
}

/// Deleting the layout from the indented text of a well-formed value gives its
/// compact text.
pub proof fn lemma_strip_pretty(v: JsonView, indent: nat, level: nat)
    requires
        well_formed(v),
    ensures
        strips_to(pretty(v, indent, level), 0, compact(v), 0),
    decreases v, 1int,
{
    match v {
        JsonView::Array(items) => {
            if items.len() == 0 {
                lemma_strip_compact(v);
            } else {
                let a = seq!['[', '\n'];
                let b = pretty_items(items, indent, level + 1);
                let ci = compact_items(items);
                let sp = spaces(indent * level);
                lemma_strip_punct_ws('[', '\n');
                lemma_strip_pretty_items(items, indent, level + 1);
                lemma_strip_one('\n', 0);
                lemma_strip_spaces(indent * level);
                lemma_strip_one(']', 0);
                lemma_strip_join(a, b, 0, seq!['['], 0, ci, 0);
                lemma_strip_join(a + b, seq!['\n'], 0, seq!['['] + ci, 0, seq![], 0);
                lemma_strip_join(a + b + seq!['\n'], sp, 0, seq!['['] + ci + seq![], 0, seq![], 0);
                lemma_strip_join(
                    a + b + seq!['\n'] + sp,
                    seq![']'],
                    0,
                    seq!['['] + ci + seq![] + seq![],
                    0,
                    seq![']'],
                    0,
                );
                assert(seq!['['] + ci + seq![] + seq![] + seq![']'] =~= compact(v));
            }
        },
        JsonView::Object(members) => {
            if members.len() == 0 {
                lemma_strip_compact(v);
            } else {
                let a = seq!['{', '\n'];
                let b = pretty_members(members, indent, level + 1);
                let cm = compact_members(members);
                let sp = spaces(indent * level);
                lemma_strip_punct_ws('{', '\n');
                lemma_strip_pretty_members(members, indent, level + 1);
                lemma_strip_one('\n', 0);
                lemma_strip_spaces(indent * level);
                lemma_strip_one('}', 0);
                lemma_strip_join(a, b, 0, seq!['{'], 0, cm, 0);
                lemma_strip_join(a + b, seq!['\n'], 0, seq!['{'] + cm, 0, seq![], 0);
                lemma_strip_join(a + b + seq!['\n'], sp, 0, seq!['{'] + cm + seq![], 0, seq![], 0);
                lemma_strip_join(
                    a + b + seq!['\n'] + sp,
                    seq!['}'],
                    0,
                    seq!['{'] + cm + seq![] + seq![],
                    0,
                    seq!['}'],
                    0,
                );
                assert(seq!['{'] + cm + seq![] + seq![] + seq!['}'] =~= compact(v));
            }
        },
        _ => lemma_strip_compact(v),
    }
}

proof fn lemma_strip_pretty_items(items: Seq<JsonView>, indent: nat, level: nat)
    requires
        items.len() > 0,
        well_formed_items(items),
    ensures
        strips_to(pretty_items(items, indent, level), 0, compact_items(items), 0),
    decreases items, 0int,
{
    let sp = spaces(indent * level);
    let p0 = pretty(items[0], indent, level);
    let c0 = compact(items[0]);
    lemma_strip_spaces(indent * level);
    lemma_strip_pretty(items[0], indent, level);
    lemma_strip_join(sp, p0, 0, seq![], 0, c0, 0);
    assert(Seq::<char>::empty() + c0 =~= c0);
    if items.len() > 1 {
        let rest = items.subrange(1, items.len() as int);
        let pr = pretty_items(rest, indent, level);
        let cr = compact_items(rest);
        lemma_strip_punct_ws(',', '\n');
        lemma_strip_pretty_items(rest, indent, level);
        lemma_strip_join(sp + p0, seq![',', '\n'], 0, c0, 0, seq![','], 0);
        lemma_strip_join(sp + p0 + seq![',', '\n'], pr, 0, c0 + seq![','], 0, cr, 0);
    }
}

proof fn lemma_strip_pretty_member(m: (Seq<char>, JsonView), indent: nat, level: nat)
    requires
        well_formed(m.1),
    ensures
        strips_to(pretty_member(m, indent, level), 0, compact_member(m), 0),
    decreases m, 0int,
{
    let sp = spaces(indent * level);
    let q = quoted(m.0);
    let p = pretty(m.1, indent, level);
    let c = compact(m.1);
    lemma_strip_spaces(indent * level);
    lemma_strip_quoted(m.0);
    lemma_strip_punct_ws(':', ' ');
    lemma_strip_pretty(m.1, indent, level);
    lemma_strip_join(sp, q, 0, seq![], 0, q, 0);
    lemma_strip_join(sp + q, seq![':', ' '], 0, seq![] + q, 0, seq![':'], 0);
    lemma_strip_join(sp + q + seq![':', ' '], p, 0, seq![] + q + seq![':'], 0, c, 0);
    assert(Seq::<char>::empty() + q + seq![':'] + c =~= compact_member(m));
}

proof fn lemma_strip_pretty_members(
    members: Seq<(Seq<char>, JsonView)>,
    indent: nat,
    level: nat,
)
    requires
        members.len() > 0,
        well_formed_members(members),
    ensures
        strips_to(pretty_members(members, indent, level), 0, compact_members(members), 0),
    decreases members, 1int,
{
    let p0 = pretty_member(members[0], indent, level);
    let c0 = compact_member(members[0]);
    lemma_strip_pretty_member(members[0], indent, level);
    if members.len() > 1 {
        let rest = members.subrange(1, members.len() as int);
        let pr = pretty_members(rest, indent, level);
        let cr = compact_members(rest);
        lemma_strip_punct_ws(',', '\n');
        lemma_strip_pretty_members(rest, indent, level);
        lemma_strip_join(p0, seq![',', '\n'], 0, c0, 0, seq![','], 0);
        lemma_strip_join(p0 + seq![',', '\n'], pr, 0, c0 + seq![','], 0, cr, 0);
    }
}

/// Deleting the line feeds, and the spaces outside string literals, from the indented
/// text of a value whose numbers are JSON number lexemes gives its compact text, at
/// any indentation width and level.
pub proof fn law_pretty_strips_to_compact(v: JsonView, indent: nat, level: nat)
    requires
        well_formed(v),
    ensures
        strip_layout(pretty(v, indent, level)) == compact(v),
{
    lemma_strip_pretty(v, indent, level);
}

// ---------------------------------------------------------------------------
// One level deeper
// ---------------------------------------------------------------------------
/// `cs` with `n` spaces added after every line feed.
pub open spec fn indent_by(cs: Seq<char>, n: nat) -> Seq<char>
    decreases cs.len(),
{
    if cs.len() == 0 {
        seq![]
    } else {
        (if cs[0] == '\n' {
            seq!['\n'] + spaces(n)
        } else {
            seq![cs[0]]
        }) + indent_by(cs.subrange(1, cs.len() as int), n)
    }
}

proof fn lemma_indent_join(a: Seq<char>, b: Seq<char>, n: nat)
    ensures
        indent_by(a + b, n) == indent_by(a, n) + indent_by(b, n),
    decreases a.len(),
{
    if a.len() == 0 {
        assert(a + b =~= b);
        assert(indent_by(a, n) + indent_by(b, n) =~= indent_by(b, n));
    } else {
        let r = a.subrange(1, a.len() as int);
        assert((a + b)[0] == a[0]);
        assert((a + b).subrange(1, (a + b).len() as int) =~= r + b);
        lemma_indent_join(r, b, n);
        let h = if a[0] == '\n' {
            seq!['\n'] + spaces(n)
        } else {
            seq![a[0]]
        };
        assert(h + (indent_by(r, n) + indent_by(b, n)) =~= (h + indent_by(r, n)) + indent_by(b, n));
    }
}

/// Text without line feeds is left as it is.
proof fn lemma_indent_flat(a: Seq<char>, n: nat)
    requires
        forall|i: int| 0 <= i < a.len() ==> #[trigger] a[i] != '\n',
    ensures
        indent_by(a, n) == a,
    decreases a.len(),
{
    if a.len() > 0 {
        let r = a.subrange(1, a.len() as int);
        assert forall|i: int| 0 <= i < r.len() implies #[trigger] r[i] != '\n' by {
            assert(r[i] == a[i + 1]);
        }
        lemma_indent_flat(r, n);
        assert(a[0] != '\n');
        assert(seq![a[0]] + r =~= a);
    } else {
        assert(indent_by(a, n) =~= a);
    }
}

proof fn lemma_indent_line_feed(n: nat)
    ensures
        indent_by(seq!['\n'], n) == seq!['\n'] + spaces(n),
{
    let a = seq!['\n'];
    assert(a[0] == '\n');
    assert(a.subrange(1, 1) =~= Seq::<char>::empty());
    assert(indent_by(a.subrange(1, 1), n) =~= Seq::<char>::empty());
    assert(indent_by(a, n) == (seq!['\n'] + spaces(n)) + indent_by(a.subrange(1, 1), n));
    assert(seq!['\n'] + spaces(n) + Seq::<char>::empty() =~= seq!['\n'] + spaces(n));
}

proof fn lemma_spaces_add(a: nat, b: nat)
    ensures
        spaces(a) + spaces(b) == spaces(a + b),
{
    assert(spaces(a) + spaces(b) =~= spaces(a + b));
}

proof fn lemma_indent_quoted(s: Seq<char>, n: nat)
    ensures
        indent_by(quoted(s), n) == quoted(s),
    decreases s.len(),
{
    lemma_indent_escape_str(s, n);
    lemma_indent_flat(seq!['"'], n);
    lemma_indent_join(seq!['"'], escape_str(s), n);
    lemma_indent_join(seq!['"'] + escape_str(s), seq!['"'], n);
}

proof fn lemma_indent_escape_str(s: Seq<char>, n: nat)
    ensures
        indent_by(escape_str(s), n) == escape_str(s),
    decreases s.len(),
{
    if s.len() == 0 {
        assert(escape_str(s) =~= Seq::<char>::empty());
    } else {
        let r = s.subrange(1, s.len() as int);
        let e = escape_char(s[0]);
        let c = s[0];
        if (c as u32) < 0x20 {
            lemma_hex_char((c as u32 / 16) as nat);
            lemma_hex_char((c as u32 % 16) as nat);
        }
        assert forall|i: int| 0 <= i < e.len() implies #[trigger] e[i] != '\n' by {
        }
        lemma_indent_flat(e, n);
        lemma_indent_escape_str(r, n);
        lemma_indent_join(e, escape_str(r), n);
    }
}

proof fn lemma_indent_compact(v: JsonView, n: nat)
    requires
        well_formed(v),
    ensures
        indent_by(compact(v), n) == compact(v),
    decreases v, 1int,
{
    match v {
        JsonView::Number(lx) => {
            lemma_lexeme_chars(lx);
            assert forall|i: int| 0 <= i < lx.len() implies #[trigger] lx[i] != '\n' by {
                assert(number_char(lx[i]));
            }
            lemma_indent_flat(lx, n);
        },
        JsonView::Str(s) => lemma_indent_quoted(s, n),
        JsonView::Array(items) => {
            let ci = compact_items(items);
            lemma_indent_compact_items(items, n);
            lemma_indent_flat(seq!['['], n);
            lemma_indent_flat(seq![']'], n);
            lemma_indent_join(seq!['['], ci, n);
            lemma_indent_join(seq!['['] + ci, seq![']'], n);
        },
        JsonView::Object(members) => {
            let cm = compact_members(members);
            lemma_indent_compact_members(members, n);
            lemma_indent_flat(seq!['{'], n);
            lemma_indent_flat(seq!['}'], n);
            lemma_indent_join(seq!['{'], cm, n);
            lemma_indent_join(seq!['{'] + cm, seq!['}'], n);
        },
        _ => {
            let c = compact(v);
            assert forall|i: int| 0 <= i < c.len() implies #[trigger] c[i] != '\n' by {
            }
            lemma_indent_flat(c, n);
        },
    }
}

proof fn lemma_indent_compact_items(items: Seq<JsonView>, n: nat)
    requires
        well_formed_items(items),
    ensures
        indent_by(compact_items(items), n) == compact_items(items),
    decreases items, 0int,
{
    if items.len() == 0 {
        assert(compact_items(items) =~= Seq::<char>::empty());
    } else {
        let c0 = compact(items[0]);
        lemma_indent_compact(items[0], n);
        if items.len() > 1 {
            let rest = items.subrange(1, items.len() as int);
            lemma_indent_compact_items(rest, n);
            lemma_indent_flat(seq![','], n);
            lemma_indent_join(c0, seq![','], n);
            lemma_indent_join(c0 + seq![','], compact_items(rest), n);
        }
    }
}

proof fn lemma_indent_compact_members(members: Seq<(Seq<char>, JsonView)>, n: nat)
    requires
        well_formed_members(members),
    ensures
        indent_by(compact_members(members), n) == compact_members(members),
    decreases members, 0int,
{
    if members.len() == 0 {
        assert(compact_members(members) =~= Seq::<char>::empty());
    } else {
        let m = members[0];
        let q = quoted(m.0);
        let c = compact(m.1);
        lemma_indent_quoted(m.0, n);
        lemma_indent_compact(m.1, n);
        lemma_indent_flat(seq![':'], n);
        lemma_indent_join(q, seq![':'], n);
        lemma_indent_join(q + seq![':'], c, n);
        let c0 = compact_member(m);
        if members.len() > 1 {
            let rest = members.subrange(1, members.len() as int);
            lemma_indent_compact_members(rest, n);
            lemma_indent_flat(seq![','], n);
            lemma_indent_join(c0, seq![','], n);
            lemma_indent_join(c0 + seq![','], compact_members(rest), n);
        }
    }
}

proof fn lemma_step(indent: nat, level: nat)
    ensures
        indent + indent * level == indent * (level + 1),
{
    assert(indent + indent * level == indent * (level + 1)) by (nonlinear_arith);
}

/// One level deeper, the indented text of a well-formed value is the same text with
/// `indent` more spaces after every line feed: each line, the closing line of every
/// array and object included, moves right by one indentation step.
pub proof fn law_pretty_one_level_deeper(v: JsonView, indent: nat, level: nat)
    requires
        well_formed(v),
    ensures
        pretty(v, indent, level + 1) == indent_by(pretty(v, indent, level), indent),
    decreases v, 1int,
{
    match v {
        JsonView::Array(items) => {
            if items.len() == 0 {
                lemma_indent_compact(v, indent);
            } else {
                let a = seq!['[', '\n'];
                let b = pretty_items(items, indent, level + 1);
                let sp = spaces(indent * level);
                lemma_indent_flat(seq!['['], indent);
                lemma_indent_line_feed(indent);
                lemma_indent_join(seq!['['], seq!['\n'], indent);
                assert(seq!['['] + seq!['\n'] =~= a);
                lemma_indent_items_deeper(items, indent, level + 1);
                lemma_indent_flat(sp, indent);
                lemma_indent_flat(seq![']'], indent);
                lemma_indent_join(a, b, indent);
                lemma_indent_join(a + b, seq!['\n'], indent);
                lemma_indent_join(a + b + seq!['\n'], sp, indent);
                lemma_indent_join(a + b + seq!['\n'] + sp, seq![']'], indent);
                lemma_step(indent, level);
                lemma_spaces_add(indent, indent * level);
                let b2 = pretty_items(items, indent, level + 2);
                assert(indent_by(pretty(v, indent, level), indent) =~= (seq!['['] + (seq!['\n']
                    + spaces(indent))) + indent_by(b, indent) + (seq!['\n'] + spaces(indent)) + sp
                    + seq![']']);
                assert(pretty(v, indent, level + 1) =~= a + b2 + seq!['\n'] + spaces(
                    indent * (level + 1),
                ) + seq![']']);
                assert(b2 == spaces(indent) + indent_by(b, indent));
                assert(indent_by(pretty(v, indent, level), indent) =~= a + (spaces(indent)
                    + indent_by(b, indent)) + seq!['\n'] + (spaces(indent) + sp) + seq![']']);
            }
        },
        JsonView::Object(members) => {
            if members.len() == 0 {
                lemma_indent_compact(v, indent);
            } else {
                let a = seq!['{', '\n'];
                let b = pretty_members(members, indent, level + 1);
                let sp = spaces(indent * level);
                lemma_indent_flat(seq!['{'], indent);
                lemma_indent_line_feed(indent);
                lemma_indent_join(seq!['{'], seq!['\n'], indent);
                assert(seq!['{'] + seq!['\n'] =~= a);
                lemma_indent_members_deeper(members, indent, level + 1);
                lemma_indent_flat(sp, indent);
                lemma_indent_flat(seq!['}'], indent);
                lemma_indent_join(a, b, indent);
                lemma_indent_join(a + b, seq!['\n'], indent);
                lemma_indent_join(a + b + seq!['\n'], sp, indent);
                lemma_indent_join(a + b + seq!['\n'] + sp, seq!['}'], indent);
                lemma_step(indent, level);
                lemma_spaces_add(indent, indent * level);
                let b2 = pretty_members(members, indent, level + 2);
                assert(indent_by(pretty(v, indent, level), indent) =~= (seq!['{'] + (seq!['\n']
                    + spaces(indent))) + indent_by(b, indent) + (seq!['\n'] + spaces(indent)) + sp
                    + seq!['}']);
                assert(pretty(v, indent, level + 1) =~= a + b2 + seq!['\n'] + spaces(
                    indent * (level + 1),
                ) + seq!['}']);
                assert(b2 == spaces(indent) + indent_by(b, indent));
                assert(indent_by(pretty(v, indent, level), indent) =~= a + (spaces(indent)
                    + indent_by(b, indent)) + seq!['\n'] + (spaces(indent) + sp) + seq!['}']);
            }
        },
        _ => lemma_indent_compact(v, indent),
    }
}

proof fn lemma_indent_items_deeper(items: Seq<JsonView>, indent: nat, level: nat)
    requires
        items.len() > 0,
        well_formed_items(items),
    ensures
        pretty_items(items, indent, level + 1) == spaces(indent) + indent_by(
            pretty_items(items, indent, level),
            indent,
        ),
    decreases items, 0int,
{
    let sp = spaces(indent * level);
    let p0 = pretty(items[0], indent, level);
    lemma_indent_flat(sp, indent);
    law_pretty_one_level_deeper(items[0], indent, level);
    lemma_indent_join(sp, p0, indent);
    lemma_step(indent, level);
    lemma_spaces_add(indent, indent * level);
    if items.len() == 1 {
        assert(pretty_items(items, indent, level + 1) =~= spaces(indent) + (sp + indent_by(
            p0,
            indent,
        )));
    } else {
        let rest = items.subrange(1, items.len() as int);
        let pr = pretty_items(rest, indent, level);
        lemma_indent_items_deeper(rest, indent, level);
        lemma_indent_flat(seq![','], indent);
        lemma_indent_line_feed(indent);
        lemma_indent_join(seq![','], seq!['\n'], indent);
        assert(seq![','] + seq!['\n'] =~= seq![',', '\n']);
        lemma_indent_join(sp + p0, seq![',', '\n'], indent);
        lemma_indent_join(sp + p0 + seq![',', '\n'], pr, indent);
        assert(pretty_items(items, indent, level + 1) =~= spaces(indent) + ((sp + indent_by(
            p0,
            indent,
        )) + (seq![','] + (seq!['\n'] + spaces(indent))) + indent_by(pr, indent)));
    }
}

proof fn lemma_indent_members_deeper(
    members: Seq<(Seq<char>, JsonView)>,
    indent: nat,
    level: nat,
)
    requires
        members.len() > 0,
        well_formed_members(members),
    ensures
        pretty_members(members, indent, level + 1) == spaces(indent) + indent_by(
            pretty_members(members, indent, level),
            indent,
        ),
    decreases members, 0int,
{
    let m = members[0];
    let sp = spaces(indent * level);
    let q = quoted(m.0);
    let p0 = pretty(m.1, indent, level);
    lemma_indent_flat(sp, indent);
    lemma_indent_quoted(m.0, indent);
    lemma_indent_flat(seq![':', ' '], indent);
    law_pretty_one_level_deeper(m.1, indent, level);
    lemma_indent_join(sp, q, indent);
    lemma_indent_join(sp + q, seq![':', ' '], indent);
    lemma_indent_join(sp + q + seq![':', ' '], p0, indent);
    lemma_step(indent, level);
    lemma_spaces_add(indent, indent * level);
    let line = pretty_member(m, indent, level);
    let line2 = pretty_member(m, indent, level + 1);
    assert(line2 =~= spaces(indent) + indent_by(line, indent));
    if members.len() > 1 {
        let rest = members.subrange(1, members.len() as int);
        let pr = pretty_members(rest, indent, level);
        lemma_indent_members_deeper(rest, indent, level);
        lemma_indent_flat(seq![','], indent);
        lemma_indent_line_feed(indent);
        lemma_indent_join(seq![','], seq!['\n'], indent);
        assert(seq![','] + seq!['\n'] =~= seq![',', '\n']);
        lemma_indent_join(line, seq![',', '\n'], indent);
        lemma_indent_join(line + seq![',', '\n'], pr, indent);
        assert(pretty_members(members, indent, level + 1) =~= spaces(indent) + (indent_by(
            line,
            indent,
        ) + (seq![','] + (seq!['\n'] + spaces(indent))) + indent_by(pr, indent)));
    }
}

/// The indented text of a nonempty array or object nested `level` deep opens with its
/// bracket and a line feed, and closes with a line of its own: `indent * level` spaces
/// and the closing bracket, the same for arrays and objects.
pub proof fn law_pretty_closing_line(v: JsonView, indent: nat, level: nat)
    ensures
        match v {
            JsonView::Array(items) => items.len() > 0 ==> {
                let p = pretty(v, indent, level);
                let n = indent * level;
                &&& p.len() >= n + 4
                &&& p.subrange(0, 2) == seq!['[', '\n']
                &&& p.subrange(p.len() - (n + 2), p.len() as int) == seq!['\n'] + spaces(n) + seq![']']
            },
            JsonView::Object(members) => members.len() > 0 ==> {
                let p = pretty(v, indent, level);
                let n = indent * level;
                &&& p.len() >= n + 4
                &&& p.subrange(0, 2) == seq!['{', '\n']
                &&& p.subrange(p.len() - (n + 2), p.len() as int) == seq!['\n'] + spaces(n) + seq!['}']
            },
            _ => true,
        },
{
    let p = pretty(v, indent, level);
    let n = indent * level;
    match v {
        JsonView::Array(items) => {
            if items.len() > 0 {
                let mid = pretty_items(items, indent, level + 1);
                let tail = seq!['\n'] + spaces(n) + seq![']'];
                assert(p =~= seq!['[', '\n'] + mid + tail);
                assert(p.subrange(0, 2) =~= seq!['[', '\n']);
                assert(p.subrange(p.len() - (n + 2), p.len() as int) =~= tail);
            }
        },
        JsonView::Object(members) => {
            if members.len() > 0 {
                let mid = pretty_members(members, indent, level + 1);
                let tail = seq!['\n'] + spaces(n) + seq!['}'];
                assert(p =~= seq!['{', '\n'] + mid + tail);
                assert(p.subrange(0, 2) =~= seq!['{', '\n']);
                assert(p.subrange(p.len() - (n + 2), p.len() as int) =~= tail);
            }
        },
        _ => {},
    }
}

} // verus!
