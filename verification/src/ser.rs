//! Serialization of [`JsonValue`] to compact and to indented JSON text.
use vstd::prelude::*;
use vstd::string::StringExecFns;
use crate::text::{chars_of, hex_char, hex_char_exec, push_char};
use crate::value::{lemma_view_items, lemma_view_members, JsonValue, JsonView};

verus! {

broadcast use vstd::seq_lib::group_seq_properties;

// ---------------------------------------------------------------------------
// Strings
// ---------------------------------------------------------------------------
/// How one character is written inside a string literal.
pub open spec fn escape_char(c: char) -> Seq<char> {
    if c == '"' {
        seq!['\\', '"']
    } else if c == '\\' {
        seq!['\\', '\\']
    } else if c == '\u{0008}' {
        seq!['\\', 'b']
    } else if c == '\u{000C}' {
        seq!['\\', 'f']
    } else if c == '\n' {
        seq!['\\', 'n']
    } else if c == '\r' {
        seq!['\\', 'r']
    } else if c == '\t' {
        seq!['\\', 't']
    } else if (c as u32) < 0x20 {
        seq!['\\', 'u', '0', '0', hex_char((c as u32 / 16) as nat), hex_char((c as u32 % 16) as nat)]
    } else {
        seq![c]
    }
}

/// The escaped form of a string's characters.
pub open spec fn escape_str(s: Seq<char>) -> Seq<char>
    decreases s.len(),
{
    if s.len() == 0 {
        seq![]
    } else {
        escape_char(s[0]) + escape_str(s.subrange(1, s.len() as int))
    }
}

/// A string literal: the escaped characters between double quotes.
pub open spec fn quoted(s: Seq<char>) -> Seq<char> {
    seq!['"'] + escape_str(s) + seq!['"']
}

pub proof fn lemma_escape_str_push(s: Seq<char>, c: char)
    ensures
        escape_str(s.push(c)) == escape_str(s) + escape_char(c),
    decreases s.len(),
{
    if s.len() == 0 {
        assert(s.push(c).subrange(1, 1) =~= Seq::<char>::empty());
        assert(escape_str(s.push(c)) =~= escape_str(s) + escape_char(c));
    } else {
        let rest = s.subrange(1, s.len() as int);
        lemma_escape_str_push(rest, c);
        assert(s.push(c).subrange(1, s.len() as int + 1) =~= rest.push(c));
        assert(escape_str(s.push(c)) =~= escape_str(s) + escape_char(c));
    }
}

// ---------------------------------------------------------------------------
// Compact form
// ---------------------------------------------------------------------------
/// The compact text of a value: no whitespace, members in order.
pub open spec fn compact(v: JsonView) -> Seq<char>
    decreases v,
{
    match v {
        JsonView::Null => seq!['n', 'u', 'l', 'l'],
        JsonView::Bool(b) => if b {
            seq!['t', 'r', 'u', 'e']
        } else {
            seq!['f', 'a', 'l', 's', 'e']
        },
        JsonView::Number(lx) => lx,
        JsonView::Str(s) => quoted(s),
        JsonView::Array(items) => seq!['['] + compact_items(items) + seq![']'],
        JsonView::Object(members) => seq!['{'] + compact_members(members) + seq!['}'],
    }
}

/// The compact texts of `items`, separated by commas.
pub open spec fn compact_items(items: Seq<JsonView>) -> Seq<char>
    decreases items,
{
    if items.len() == 0 {
        seq![]
    } else if items.len() == 1 {
        compact(items[0])
    } else {
        compact(items[0]) + seq![','] + compact_items(items.subrange(1, items.len() as int))
    }
}

/// One member in compact form: the quoted key, a colon, the value.
pub open spec fn compact_member(m: (Seq<char>, JsonView)) -> Seq<char>
    decreases m,
{
    quoted(m.0) + seq![':'] + compact(m.1)
}

/// The compact texts of `members`, separated by commas.
pub open spec fn compact_members(members: Seq<(Seq<char>, JsonView)>) -> Seq<char>
    decreases members,
{
    if members.len() == 0 {
        seq![]
    } else if members.len() == 1 {
        compact_member(members[0])
    } else {
        compact_member(members[0]) + seq![','] + compact_members(
            members.subrange(1, members.len() as int),
        )
    }
}

pub proof fn lemma_compact_items_push(items: Seq<JsonView>, v: JsonView)
    ensures
        compact_items(items.push(v)) == if items.len() == 0 {
            compact(v)
        } else {
            compact_items(items) + seq![','] + compact(v)
        },
    decreases items.len(),
{
    if items.len() == 0 {
    } else if items.len() == 1 {
        assert(items.push(v).subrange(1, 2) =~= seq![v]);
        assert(compact_items(seq![v]) == compact(v));
    } else {
        let rest = items.subrange(1, items.len() as int);
        lemma_compact_items_push(rest, v);
        assert(items.push(v).subrange(1, items.len() as int + 1) =~= rest.push(v));
        assert(compact_items(items.push(v)) =~= compact_items(items) + seq![','] + compact(v));
    }
}

pub proof fn lemma_compact_members_push(members: Seq<(Seq<char>, JsonView)>, m: (Seq<char>, JsonView))
    ensures
        compact_members(members.push(m)) == if members.len() == 0 {
            compact_member(m)
        } else {
            compact_members(members) + seq![','] + compact_member(m)
        },
    decreases members.len(),
{
    if members.len() == 0 {
    } else if members.len() == 1 {
        assert(members.push(m).subrange(1, 2) =~= seq![m]);
        assert(compact_members(seq![m]) == compact_member(m));
    } else {
        let rest = members.subrange(1, members.len() as int);
        lemma_compact_members_push(rest, m);
        assert(members.push(m).subrange(1, members.len() as int + 1) =~= rest.push(m));
        assert(compact_members(members.push(m)) =~= compact_members(members) + seq![',']
            + compact_member(m));
    }
}

// ---------------------------------------------------------------------------
// Indented form
// ---------------------------------------------------------------------------
/// `n` spaces.
pub open spec fn spaces(n: nat) -> Seq<char> {
    Seq::new(n, |i: int| ' ')
}

/// The indented text of a value nested `level` deep, with `indent` spaces per level:
/// a nonempty array or object puts each item on a line of its own; everything else is
/// written as in the compact form.
pub open spec fn pretty(v: JsonView, indent: nat, level: nat) -> Seq<char>
    decreases v,
{
    match v {
        JsonView::Array(items) => if items.len() == 0 {
            compact(v)
        } else {
            seq!['[', '\n'] + pretty_items(items, indent, level + 1) + seq!['\n'] + spaces(
                indent * level,
            ) + seq![']']
        },
        JsonView::Object(members) => if members.len() == 0 {
            compact(v)
        } else {
            seq!['{', '\n'] + pretty_members(members, indent, level + 1) + seq!['\n'] + spaces(
                indent * level,
            ) + seq!['}']
        },
        _ => compact(v),
    }
}

/// The lines of `items` nested `level` deep, separated by a comma and a line feed.
pub open spec fn pretty_items(items: Seq<JsonView>, indent: nat, level: nat) -> Seq<char>
    decreases items,
{
    if items.len() == 0 {
        seq![]
    } else if items.len() == 1 {
        spaces(indent * level) + pretty(items[0], indent, level)
    } else {
        spaces(indent * level) + pretty(items[0], indent, level) + seq![',', '\n'] + pretty_items(
            items.subrange(1, items.len() as int),
            indent,
            level,
        )
    }
}

/// One member line: the indentation, the quoted key, `": "`, the value.
pub open spec fn pretty_member(m: (Seq<char>, JsonView), indent: nat, level: nat) -> Seq<char>
    decreases m,
{
    spaces(indent * level) + quoted(m.0) + seq![':', ' '] + pretty(m.1, indent, level)
}

/// The lines of `members` nested `level` deep, separated by a comma and a line feed.
pub open spec fn pretty_members(members: Seq<(Seq<char>, JsonView)>, indent: nat, level: nat) -> Seq<
    char,
>
    decreases members,
{
    if members.len() == 0 {
        seq![]
    } else if members.len() == 1 {
        pretty_member(members[0], indent, level)
    } else {
        pretty_member(members[0], indent, level) + seq![',', '\n'] + pretty_members(
            members.subrange(1, members.len() as int),
            indent,
            level,
        )
    }
}

pub proof fn lemma_pretty_items_push(items: Seq<JsonView>, v: JsonView, indent: nat, level: nat)
    ensures
        pretty_items(items.push(v), indent, level) == if items.len() == 0 {
            spaces(indent * level) + pretty(v, indent, level)
        } else {
            pretty_items(items, indent, level) + seq![',', '\n'] + spaces(indent * level) + pretty(
                v,
                indent,
                level,
            )
        },
    decreases items.len(),
{
    if items.len() == 0 {
    } else if items.len() == 1 {
        assert(items.push(v).subrange(1, 2) =~= seq![v]);
        assert(seq![v][0] == v);
        assert(pretty_items(seq![v], indent, level) == spaces(indent * level) + pretty(
            v,
            indent,
            level,
        ));
        assert(pretty_items(items.push(v), indent, level) =~= pretty_items(items, indent, level)
            + seq![',', '\n'] + spaces(indent * level) + pretty(v, indent, level));
    } else {
        let rest = items.subrange(1, items.len() as int);
        lemma_pretty_items_push(rest, v, indent, level);
        assert(items.push(v).subrange(1, items.len() as int + 1) =~= rest.push(v));
        assert(pretty_items(items.push(v), indent, level) =~= pretty_items(items, indent, level)
            + seq![',', '\n'] + spaces(indent * level) + pretty(v, indent, level));
    }
}

pub proof fn lemma_pretty_members_push(
    members: Seq<(Seq<char>, JsonView)>,
    m: (Seq<char>, JsonView),
    indent: nat,
    level: nat,
)
    ensures
        pretty_members(members.push(m), indent, level) == if members.len() == 0 {
            pretty_member(m, indent, level)
        } else {
            pretty_members(members, indent, level) + seq![',', '\n'] + pretty_member(
                m,
                indent,
                level,
            )
        },
    decreases members.len(),
{
    if members.len() == 0 {
    } else if members.len() == 1 {
        assert(members.push(m).subrange(1, 2) =~= seq![m]);
        assert(seq![m][0] == m);
        assert(pretty_members(seq![m], indent, level) == pretty_member(m, indent, level));
        assert(pretty_members(members.push(m), indent, level) =~= pretty_members(
            members,
            indent,
            level,
        ) + seq![',', '\n'] + pretty_member(m, indent, level));
    } else {
        let rest = members.subrange(1, members.len() as int);
        lemma_pretty_members_push(rest, m, indent, level);
        assert(members.push(m).subrange(1, members.len() as int + 1) =~= rest.push(m));
        assert(pretty_members(members.push(m), indent, level) =~= pretty_members(
            members,
            indent,
            level,
        ) + seq![',', '\n'] + pretty_member(m, indent, level));
    }
}

/// How many nonempty arrays and objects are nested inside each other in `v`
/// (the deepest indentation level the indented form reaches).
pub open spec fn nesting(v: JsonView) -> nat
    decreases v,
{
    match v {
        JsonView::Array(items) => if items.len() == 0 {
            0
        } else {
            1 + nesting_items(items)
        },
        JsonView::Object(members) => if members.len() == 0 {
            0
        } else {
            1 + nesting_members(members)
        },
        _ => 0,
    }
}

pub open spec fn nesting_items(items: Seq<JsonView>) -> nat
    decreases items,
{
    if items.len() == 0 {
        0
    } else {
        let a = nesting(items[0]);
        let b = nesting_items(items.subrange(1, items.len() as int));
        if a >= b {
            a
        } else {
            b
        }
    }
}

pub open spec fn nesting_members(members: Seq<(Seq<char>, JsonView)>) -> nat
    decreases members,
{
    if members.len() == 0 {
        0
    } else {
        let a = nesting(members[0].1);
        let b = nesting_members(members.subrange(1, members.len() as int));
        if a >= b {
            a
        } else {
            b
        }
    }
}

pub proof fn lemma_nesting_items(items: Seq<JsonView>, i: int)
    requires
        0 <= i < items.len(),
    ensures
        nesting(items[i]) <= nesting_items(items),
    decreases items.len(),
{
    if i > 0 {
        let rest = items.subrange(1, items.len() as int);
        lemma_nesting_items(rest, i - 1);
        assert(rest[i - 1] == items[i]);
    }
}

pub proof fn lemma_nesting_members(members: Seq<(Seq<char>, JsonView)>, i: int)
    requires
        0 <= i < members.len(),
    ensures
        nesting(members[i].1) <= nesting_members(members),
    decreases members.len(),
{
    if i > 0 {
        let rest = members.subrange(1, members.len() as int);
        lemma_nesting_members(rest, i - 1);
        assert(rest[i - 1] == members[i]);
    }
}

proof fn lemma_mul_mono(a: int, b: int, c: int)
    requires
        0 <= a,
        b <= c,
    ensures
        a * b <= a * c,
{
    assert(a * b <= a * c) by (nonlinear_arith)
        requires
            0 <= a,
            b <= c,
    ;
}

// ---------------------------------------------------------------------------
// Writers
// ---------------------------------------------------------------------------
pub fn to_string(value: &JsonValue) -> (s: String)
    ensures
        s@ == compact(value@),
{
    let mut out = String::new();
    write_compact(&mut out, value);
    out
}

pub fn to_string_pretty(value: &JsonValue, indent: usize) -> (s: String)
    requires
        nesting(value@) <= usize::MAX,
        indent * nesting(value@) <= usize::MAX,
    ensures
        s@ == pretty(value@, indent as nat, 0),
{
    let mut out = String::new();
    write_pretty(&mut out, value, indent, 0);
    out
}

/// Appends the compact text of `value` to `out`, leaving what `out` held before it.
pub fn write_compact(out: &mut String, value: &JsonValue)
    ensures
        final(out)@ == old(out)@ + compact(value@),
    decreases value,
{
    let ghost start = out@;
    match value {
        JsonValue::Null => {
            out.append("null");
            proof {
                reveal_strlit("null");
            }
        },
        JsonValue::Bool(b) => {
            if *b {
                out.append("true");
                proof {
                    reveal_strlit("true");
                }
            } else {
                out.append("false");
                proof {
                    reveal_strlit("false");
                }
            }
        },
        JsonValue::Number(n) => out.append(n.as_str()),
        JsonValue::String(s) => write_escaped(out, s.as_str()),
        JsonValue::Array(items) => {
            push_char(out, '[');
            let ghost views = value@->Array_0;
            proof {
                lemma_view_items(items@);
            }
            let mut i: usize = 0;
            while i < items.len()
                invariant
                    *value == JsonValue::Array(*items),
                    views == value@->Array_0,
                    views.len() == items@.len(),
                    forall|j: int| 0 <= j < items@.len() ==> #[trigger] views[j] == items@[j]@,
                    i <= items@.len(),
                    out@ == start + seq!['['] + compact_items(views.take(i as int)),
                decreases items@.len() - i,
            {
                proof {
                    assert(decreases_to!(*value => (*value)->Array_0));
                    assert(decreases_to!(items => items@));
                    assert(decreases_to!(items@ => items@[i as int]));
                    lemma_compact_items_push(views.take(i as int), views[i as int]);
                    assert(views.take(i as int).push(views[i as int]) =~= views.take(i + 1));
                }
                if i > 0 {
                    push_char(out, ',');
                }
                write_compact(out, &items[i]);
                i += 1;
            }
            push_char(out, ']');
            assert(views.take(i as int) =~= views);
        },
        JsonValue::Object(members) => {
            push_char(out, '{');
            let ghost views = value@->Object_0;
            proof {
                lemma_view_members(members@);
            }
            let mut i: usize = 0;
            while i < members.len()
                invariant
                    *value == JsonValue::Object(*members),
                    views == value@->Object_0,
                    views.len() == members@.len(),
                    forall|j: int|
                        0 <= j < members@.len() ==> #[trigger] views[j] == (
                            members@[j].0@,
                            members@[j].1@,
                        ),
                    i <= members@.len(),
                    out@ == start + seq!['{'] + compact_members(views.take(i as int)),
                decreases members@.len() - i,
            {
                proof {
                    assert(decreases_to!(*value => (*value)->Object_0));
                    assert(decreases_to!(members => members@));
                    assert(decreases_to!(members@ => members@[i as int]));
                    assert(decreases_to!(members@[i as int] => members@[i as int].1));
                    lemma_compact_members_push(views.take(i as int), views[i as int]);
                    assert(views.take(i as int).push(views[i as int]) =~= views.take(i + 1));
                }
                if i > 0 {
                    push_char(out, ',');
                }
                let (k, v) = &members[i];
                write_escaped(out, k.as_str());
                push_char(out, ':');
                write_compact(out, v);
                i += 1;
            }
            push_char(out, '}');
            assert(views.take(i as int) =~= views);
        },
    }
}

/// Appends the indented text of `value`, nested `level` deep, to `out`, leaving what
/// `out` held before it.
pub fn write_pretty(out: &mut String, value: &JsonValue, indent: usize, level: usize)
    requires
        level + nesting(value@) <= usize::MAX,
        indent * (level + nesting(value@)) <= usize::MAX,
    ensures
        final(out)@ == old(out)@ + pretty(value@, indent as nat, level as nat),
    decreases value,
{
    let ghost start = out@;
    match value {
        JsonValue::Array(items) => {
            if items.len() == 0 {
                write_compact(out, value);
                return ;
            }
            push_char(out, '[');
            push_char(out, '\n');
            let ghost views = value@->Array_0;
            proof {
                lemma_view_items(items@);
                lemma_mul_mono(indent as int, level + 1, level + nesting(value@));
                lemma_mul_mono(indent as int, level as int, level + nesting(value@));
            }
            let mut i: usize = 0;
            while i < items.len()
                invariant
                    *value == JsonValue::Array(*items),
                    views == value@->Array_0,
                    views.len() == items@.len(),
                    views.len() > 0,
                    forall|j: int| 0 <= j < items@.len() ==> #[trigger] views[j] == items@[j]@,
                    level + nesting(value@) <= usize::MAX,
                    indent * (level + nesting(value@)) <= usize::MAX,
                    nesting(value@) == 1 + nesting_items(views),
                    i <= items@.len(),
                    out@ == start + seq!['[', '\n'] + pretty_items(
                        views.take(i as int),
                        indent as nat,
                        (level + 1) as nat,
                    ),
                decreases items@.len() - i,
            {
                proof {
                    assert(decreases_to!(*value => (*value)->Array_0));
                    assert(decreases_to!(items => items@));
                    assert(decreases_to!(items@ => items@[i as int]));
                    lemma_pretty_items_push(
                        views.take(i as int),
                        views[i as int],
                        indent as nat,
                        (level + 1) as nat,
                    );
                    assert(views.take(i as int).push(views[i as int]) =~= views.take(i + 1));
                    lemma_nesting_items(views, i as int);
                    lemma_mul_mono(
                        indent as int,
                        level + 1 + nesting(views[i as int]),
                        level + nesting(value@),
                    );
                    lemma_mul_mono(indent as int, level + 1, level + nesting(value@));
                }
                if i > 0 {
                    push_char(out, ',');
                    push_char(out, '\n');
                }
                push_indent(out, indent, level + 1);
                write_pretty(out, &items[i], indent, level + 1);
                i += 1;
            }
            push_char(out, '\n');
            push_indent(out, indent, level);
            push_char(out, ']');
            assert(views.take(i as int) =~= views);
        },
        JsonValue::Object(members) => {
            if members.len() == 0 {
                write_compact(out, value);
                return ;
            }
            push_char(out, '{');
            push_char(out, '\n');
            let ghost views = value@->Object_0;
            proof {
                lemma_view_members(members@);
                lemma_mul_mono(indent as int, level + 1, level + nesting(value@));
                lemma_mul_mono(indent as int, level as int, level + nesting(value@));
            }
            let mut i: usize = 0;
            while i < members.len()
                invariant
                    *value == JsonValue::Object(*members),
                    views == value@->Object_0,
                    views.len() == members@.len(),
                    views.len() > 0,
                    forall|j: int|
                        0 <= j < members@.len() ==> #[trigger] views[j] == (
                            members@[j].0@,
                            members@[j].1@,
                        ),
                    level + nesting(value@) <= usize::MAX,
                    indent * (level + nesting(value@)) <= usize::MAX,
                    nesting(value@) == 1 + nesting_members(views),
                    i <= members@.len(),
                    out@ == start + seq!['{', '\n'] + pretty_members(
                        views.take(i as int),
                        indent as nat,
                        (level + 1) as nat,
                    ),
                decreases members@.len() - i,
            {
                proof {
                    assert(decreases_to!(*value => (*value)->Object_0));
                    assert(decreases_to!(members => members@));
                    assert(decreases_to!(members@ => members@[i as int]));
                    assert(decreases_to!(members@[i as int] => members@[i as int].1));
                    lemma_pretty_members_push(
                        views.take(i as int),
                        views[i as int],
                        indent as nat,
                        (level + 1) as nat,
                    );
                    assert(views.take(i as int).push(views[i as int]) =~= views.take(i + 1));
                    lemma_nesting_members(views, i as int);
                    lemma_mul_mono(
                        indent as int,
                        level + 1 + nesting(views[i as int].1),
                        level + nesting(value@),
                    );
                    lemma_mul_mono(indent as int, level + 1, level + nesting(value@));
                }
                if i > 0 {
                    push_char(out, ',');
                    push_char(out, '\n');
                }
                let (k, v) = &members[i];
                push_indent(out, indent, level + 1);
                write_escaped(out, k.as_str());
                push_char(out, ':');
                push_char(out, ' ');
                write_pretty(out, v, indent, level + 1);
                i += 1;
            }
            push_char(out, '\n');
            push_indent(out, indent, level);
            push_char(out, '}');
            assert(views.take(i as int) =~= views);
        },
        _ => write_compact(out, value),
    }
}

fn push_indent(out: &mut String, indent: usize, level: usize)
    requires
        indent * level <= usize::MAX,
    ensures
        final(out)@ == old(out)@ + spaces((indent * level) as nat),
{
    let ghost start = out@;
    let n = indent * level;
    let mut i: usize = 0;
    while i < n
        invariant
            i <= n,
            out@ == start + spaces(i as nat),
        decreases n - i,
    {
        push_char(out, ' ');
        i += 1;
        assert(out@ =~= start + spaces(i as nat));
    }
}

fn write_escaped(out: &mut String, s: &str)
    ensures
        final(out)@ == old(out)@ + quoted(s@),
{
    let ghost start = out@;
    let chars = chars_of(s);
    push_char(out, '"');
    let mut i: usize = 0;
    while i < chars.len()
        invariant
            chars@ == s@,
            i <= chars@.len(),
            out@ == start + seq!['"'] + escape_str(chars@.take(i as int)),
        decreases chars@.len() - i,
    {
        let c = chars[i];
        proof {
            lemma_escape_str_push(chars@.take(i as int), c);
            assert(chars@.take(i as int).push(c) =~= chars@.take(i + 1));
        }
        let ghost before = out@;
        if c == '"' {
            push_char(out, '\\');
            push_char(out, '"');
        } else if c == '\\' {
            push_char(out, '\\');
            push_char(out, '\\');
        } else if c == '\u{0008}' {
            push_char(out, '\\');
            push_char(out, 'b');
        } else if c == '\u{000C}' {
            push_char(out, '\\');
            push_char(out, 'f');
        } else if c == '\n' {
            push_char(out, '\\');
            push_char(out, 'n');
        } else if c == '\r' {
            push_char(out, '\\');
            push_char(out, 'r');
        } else if c == '\t' {
            push_char(out, '\\');
            push_char(out, 't');
        } else if (c as u32) < 0x20 {
            let u = c as u32;
            push_char(out, '\\');
            push_char(out, 'u');
            push_char(out, '0');
            push_char(out, '0');
            push_char(out, hex_char_exec(u / 16));
            push_char(out, hex_char_exec(u % 16));
        } else {
            push_char(out, c);
        }
        assert(out@ =~= before + escape_char(c));
        i += 1;
    }
    push_char(out, '"');
    assert(chars@.take(i as int) =~= chars@);
}

} // verus!
