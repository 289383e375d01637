//! What `\u` escapes decode to: a code unit outside the surrogate range is the
//! character with that scalar value, and a high surrogate followed by a low one is
//! the supplementary character that the pair encodes in UTF-16.
use vstd::prelude::*;
use crate::error::ErrorKind;
use crate::laws::lemma_hex_char;
use crate::string::{decode_unicode, hex4, simple_escape, unescape_from, unescape_spec};
use crate::text::hex_char;

verus! {

/// The escape `\uXXXX` that writes the code unit `n` with four lowercase hexadecimal
/// digits.
pub open spec fn u_escape(n: u32) -> Seq<char> {
    seq![
        '\\',
        'u',
        hex_char((n / 4096 % 16) as nat),
        hex_char((n / 256 % 16) as nat),
        hex_char((n / 16 % 16) as nat),
        hex_char((n % 16) as nat),
    ]
}

proof fn lemma_digits_of(n: u32)
    requires
        n < 0x10000,
    ensures
        (n / 4096 % 16) * 4096 + (n / 256 % 16) * 256 + (n / 16 % 16) * 16 + n % 16 == n,
{
    assert((n / 4096 % 16) * 4096 + (n / 256 % 16) * 256 + (n / 16 % 16) * 16 + n % 16 == n)
        by (bit_vector)
        requires
            n < 0x10000,
    ;
}

/// The four digits of `u_escape(n)` read back as `n`, wherever the escape stands.
proof fn lemma_hex4_u_escape(t: Seq<char>, p: int, n: u32)
    requires
        n < 0x10000,
        0 <= p,
        p + 6 <= t.len(),
        t.subrange(p, p + 6) == u_escape(n),
    ensures
        t[p] == '\\',
        t[p + 1] == 'u',
        hex4(t, p + 2) == Some(n),
{
    let e = u_escape(n);
    assert forall|i: int| 0 <= i < 6 implies t[p + i] == #[trigger] e[i] by {
        assert(t.subrange(p, p + 6)[i] == t[p + i]);
    }
    assert(t[p] == e[0]);
    assert(t[p + 1] == e[1]);
    assert(t[p + 2] == e[2]);
    assert(t[p + 3] == e[3]);
    assert(t[p + 4] == e[4]);
    assert(t[p + 5] == e[5]);
    lemma_hex_char((n / 4096 % 16) as nat);
    lemma_hex_char((n / 256 % 16) as nat);
    lemma_hex_char((n / 16 % 16) as nat);
    lemma_hex_char((n % 16) as nat);
    lemma_digits_of(n);
}

/// A `\u` escape of a code unit outside the surrogate range decodes to the character
/// with that scalar value.
pub proof fn law_unicode_escape(n: u32)
    requires
        n < 0xD800 || 0xE000 <= n < 0x10000,
    ensures
        unescape_spec(u_escape(n)) == Ok::<Seq<char>, ErrorKind>(seq![n as char]),
{
    let t = u_escape(n);
    assert(t.subrange(0, 6) =~= t);
    lemma_hex4_u_escape(t, 0, n);
    assert(simple_escape('u') is None);
    assert(decode_unicode(t, 2) == Ok::<(char, int), ErrorKind>((n as char, 6)));
    assert(unescape_from(t, 6) == Ok::<Seq<char>, ErrorKind>(seq![]));
    assert(seq![n as char] + Seq::<char>::empty() =~= seq![n as char]);
}

/// A `\u` escape of a high surrogate followed by one of a low surrogate decodes to
/// the one character whose scalar value the pair encodes:
/// `0x10000 + (hi - 0xD800) * 0x400 + (lo - 0xDC00)`.
pub proof fn law_surrogate_pair(hi: u32, lo: u32)
    requires
        0xD800 <= hi <= 0xDBFF,
        0xDC00 <= lo <= 0xDFFF,
    ensures
        unescape_spec(u_escape(hi) + u_escape(lo)) == Ok::<Seq<char>, ErrorKind>(
            seq![(0x10000 + (hi - 0xD800) * 0x400 + (lo - 0xDC00)) as char],
        ),
        0x10000 <= 0x10000 + (hi - 0xD800) * 0x400 + (lo - 0xDC00) <= 0x10FFFF,
{
    let t = u_escape(hi) + u_escape(lo);
    assert(t.subrange(0, 6) =~= u_escape(hi));
    assert(t.subrange(6, 12) =~= u_escape(lo));
    lemma_hex4_u_escape(t, 0, hi);
    lemma_hex4_u_escape(t, 6, lo);
    let code = 0x10000 + (hi - 0xD800) * 0x400 + (lo - 0xDC00);
    assert(0x10000 <= code <= 0x10FFFF) by (nonlinear_arith)
        requires
            0xD800 <= hi <= 0xDBFF,
            0xDC00 <= lo <= 0xDFFF,
            code == 0x10000 + (hi - 0xD800) * 0x400 + (lo - 0xDC00),
    ;
    assert(simple_escape('u') is None);
    assert(decode_unicode(t, 2) == Ok::<(char, int), ErrorKind>((code as char, 12)));
    assert(unescape_from(t, 12) == Ok::<Seq<char>, ErrorKind>(seq![]));
    assert(seq![code as char] + Seq::<char>::empty() =~= seq![code as char]);
}

/// A `\u` escape of a high surrogate with nothing after it is refused as a lone
/// surrogate; so is a `\u` escape of a low surrogate, whatever follows it.
pub proof fn law_lone_surrogate(hi: u32, lo: u32)
    requires
        0xD800 <= hi <= 0xDBFF,
        0xDC00 <= lo <= 0xDFFF,
    ensures
        unescape_spec(u_escape(hi)) == Err::<Seq<char>, ErrorKind>(ErrorKind::LoneSurrogate),
        unescape_spec(u_escape(lo)) == Err::<Seq<char>, ErrorKind>(ErrorKind::LoneSurrogate),
{
    let t = u_escape(hi);
    assert(t.subrange(0, 6) =~= t);
    lemma_hex4_u_escape(t, 0, hi);
    let w = u_escape(lo);
    assert(w.subrange(0, 6) =~= w);
    lemma_hex4_u_escape(w, 0, lo);
    assert(simple_escape('u') is None);
}

} // verus!
