//! Character-level helpers shared by the lexer, the string decoder and the
//! serializer: building `String`s, UTF-8 widths, and small character classes.
use vstd::prelude::*;
use vstd::std_specs::iter::IteratorSpec;
use vstd::utf8::*;

verus! {

broadcast use vstd::string::group_string_axioms;

/// Appends one character to a `String` (std's `String::push`).
/// The contract claims that the string afterwards is the old one with `c` added at the end.
#[verifier::external_body]
pub(crate) fn push_char(s: &mut String, c: char)
    ensures
        final(s)@ == old(s)@.push(c),
{
    s.push(c);
}

/// The `char` with scalar value `u`, if `u` is a Unicode scalar value.
pub open spec fn char_from_u32_spec(u: u32) -> Option<char> {
    if is_scalar(u) {
        Some(u as char)
    } else {
        None
    }
}

/// std's `char::from_u32`: the contract claims that it returns the character whose
/// scalar value is `u` exactly when `u` is a Unicode scalar value, and `None` otherwise.
#[verifier::external_body]
pub(crate) fn char_from_u32(u: u32) -> (r: Option<char>)
    ensures
        r == char_from_u32_spec(u),
{
    char::from_u32(u)
}

/// Collects the characters of `s`, in order.
pub fn chars_of(s: &str) -> (out: Vec<char>)
    ensures
        out@ == s@,
{
    let mut out: Vec<char> = Vec::new();
    for c in it: s.chars()
        invariant
            it.seq() == s@,
            out@ == it.seq().take(it.index() as int),
    {
        out.push(c);
    }
    out
}

/// A `String` holding the characters `chars[from..to]`.
pub fn string_from_range(chars: &Vec<char>, from: usize, to: usize) -> (s: String)
    requires
        from <= to <= chars@.len(),
    ensures
        s@ == chars@.subrange(from as int, to as int),
{
    let mut s = String::new();
    let mut i = from;
    while i < to
        invariant
            from <= i <= to <= chars@.len(),
            s@ == chars@.subrange(from as int, i as int),
        decreases to - i,
    {
        push_char(&mut s, chars[i]);
        i += 1;
        assert(s@ =~= chars@.subrange(from as int, i as int));
    }
    s
}

/// The number of bytes of the UTF-8 encoding of `c`.
pub open spec fn char_width(c: char) -> nat {
    if (c as u32) < 0x80 {
        1
    } else if (c as u32) < 0x800 {
        2
    } else if (c as u32) < 0x10000 {
        3
    } else {
        4
    }
}

/// The number of bytes of the UTF-8 encoding of `c`, computed.
pub fn char_width_exec(c: char) -> (w: usize)
    ensures
        w == char_width(c),
{
    let u = c as u32;
    if u < 0x80 {
        1
    } else if u < 0x800 {
        2
    } else if u < 0x10000 {
        3
    } else {
        4
    }
}

/// The first byte of the UTF-8 encoding of `c`, read as a Latin-1 character
/// (that is how a byte is turned into a `char` when a byte is reported).
pub open spec fn lead_char(c: char) -> char {
    (encode_scalar(c as u32)[0]) as char
}

/// Computes [`lead_char`].
pub fn lead_char_exec(c: char) -> (r: char)
    ensures
        r == lead_char(c),
{
    proof {
        char_is_scalar(c);
    }
    let u = c as u32;
    let b: u8 = if u <= 0x7F {
        (u & 0x7F) as u8
    } else if u <= 0x7FF {
        0xC0 | ((u >> 6) & 0x1F) as u8
    } else if u <= 0xFFFF {
        0xE0 | ((u >> 12) & 0x0F) as u8
    } else {
        0xF0 | ((u >> 18) & 0x7) as u8
    };
    b as char
}

/// The UTF-8 encoding of one character has [`char_width`] bytes.
pub proof fn lemma_encode_scalar_len(c: char)
    ensures
        encode_scalar(c as u32).len() == char_width(c),
{
    char_is_scalar(c);
}

/// Encoding a sequence with one more character appends that character's encoding.
pub proof fn lemma_encode_utf8_push(cs: Seq<char>, c: char)
    ensures
        encode_utf8(cs.push(c)) == encode_utf8(cs) + encode_scalar(c as u32),
    decreases cs.len(),
{
    if cs.len() == 0 {
        assert(cs.push(c).drop_first() =~= Seq::<char>::empty());
        assert(encode_utf8(Seq::<char>::empty()) =~= Seq::<u8>::empty());
        assert(encode_utf8(cs) =~= Seq::<u8>::empty());
        assert(encode_utf8(cs.push(c)) =~= encode_scalar(c as u32));
    } else {
        lemma_encode_utf8_push(cs.drop_first(), c);
        assert(cs.push(c).drop_first() =~= cs.drop_first().push(c));
        assert(encode_utf8(cs.push(c)) =~= encode_utf8(cs) + encode_scalar(c as u32));
    }
}

/// A prefix is never encoded into more bytes than the whole sequence.
pub proof fn lemma_encode_utf8_prefix_len(cs: Seq<char>, k: int)
    requires
        0 <= k <= cs.len(),
    ensures
        encode_utf8(cs.take(k)).len() <= encode_utf8(cs).len(),
    decreases cs.len() - k,
{
    if k < cs.len() {
        lemma_encode_utf8_prefix_len(cs, k + 1);
        assert(cs.take(k + 1) =~= cs.take(k).push(cs[k]));
        lemma_encode_utf8_push(cs.take(k), cs[k]);
    } else {
        assert(cs.take(k) =~= cs);
    }
}

/// JSON whitespace: space, tab, line feed, carriage return.
pub open spec fn is_ws(c: char) -> bool {
    c == ' ' || c == '\t' || c == '\n' || c == '\r'
}

/// An ASCII decimal digit.
pub open spec fn is_digit(c: char) -> bool {
    '0' <= c && c <= '9'
}

/// An ASCII hexadecimal digit, in either case.
pub open spec fn is_hex(c: char) -> bool {
    ('0' <= c && c <= '9') || ('a' <= c && c <= 'f') || ('A' <= c && c <= 'F')
}

/// The value of a hexadecimal digit.
pub open spec fn hex_value(c: char) -> u32 {
    if '0' <= c && c <= '9' {
        (c as u32 - '0' as u32) as u32
    } else if 'a' <= c && c <= 'f' {
        (c as u32 - 'a' as u32 + 10) as u32
    } else {
        (c as u32 - 'A' as u32 + 10) as u32
    }
}

/// The character of a decimal digit `d < 10`.
pub open spec fn digit_char(d: nat) -> char {
    ((d + 48) as u8) as char
}

/// The lowercase hexadecimal digit for `d < 16`.
pub open spec fn hex_char(d: nat) -> char {
    if d < 10 {
        ((d + 48) as u8) as char
    } else {
        ((d + 87) as u8) as char
    }
}

/// Computes [`digit_char`].
pub fn digit_char_exec(d: usize) -> (c: char)
    requires
        d < 10,
    ensures
        c == digit_char(d as nat),
{
    ((d as u8) + 48u8) as char
}

/// Computes [`hex_char`].
pub fn hex_char_exec(d: u32) -> (c: char)
    requires
        d < 16,
    ensures
        c == hex_char(d as nat),
{
    if d < 10 {
        ((d as u8) + 48u8) as char
    } else {
        ((d as u8) + 87u8) as char
    }
}

/// Decimal digits of `n`, most significant first, without leading zeros.
pub open spec fn decimal(n: nat) -> Seq<char>
    decreases n,
{
    if n < 10 {
        seq![digit_char(n)]
    } else {
        decimal(n / 10).push(digit_char(n % 10))
    }
}

/// Appends the decimal digits of `n` to `out`.
pub fn push_decimal(out: &mut String, n: usize)
    ensures
        final(out)@ == old(out)@ + decimal(n as nat),
    decreases n,
{
    if n >= 10 {
        push_decimal(out, n / 10);
    }
    push_char(out, digit_char_exec(n % 10));
    assert(final(out)@ =~= old(out)@ + decimal(n as nat));
}

} // verus!
