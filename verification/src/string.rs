//! Decoding of the raw content of JSON string literals.
use vstd::prelude::*;
use crate::error::{ErrorKind, ParseError};
use crate::lexer::Position;
use crate::text::{
    char_from_u32, char_from_u32_spec, chars_of, hex_value, is_hex, lead_char, lead_char_exec,
    push_char,
};

verus! {

broadcast use vstd::seq_lib::group_seq_properties;

/// The character that the two-character escape `\c` stands for, if `c` names one.
pub open spec fn simple_escape(c: char) -> Option<char> {
    if c == '"' {
        Some('"')
    } else if c == '\\' {
        Some('\\')
    } else if c == '/' {
        Some('/')
    } else if c == 'b' {
        Some('\u{0008}')
    } else if c == 'f' {
        Some('\u{000C}')
    } else if c == 'n' {
        Some('\n')
    } else if c == 'r' {
        Some('\r')
    } else if c == 't' {
        Some('\t')
    } else {
        None
    }
}

/// The value of the four hexadecimal digits starting at index `i`, if there are four.
pub open spec fn hex4(raw: Seq<char>, i: int) -> Option<u32> {
    if 0 <= i && i + 4 <= raw.len() && is_hex(raw[i]) && is_hex(raw[i + 1]) && is_hex(raw[i + 2])
        && is_hex(raw[i + 3]) {
        Some(
            (hex_value(raw[i]) * 4096 + hex_value(raw[i + 1]) * 256 + hex_value(raw[i + 2]) * 16
                + hex_value(raw[i + 3])) as u32,
        )
    } else {
        None
    }
}

/// The value of the `t` hexadecimal digits starting at index `i`.
pub open spec fn hex_prefix(raw: Seq<char>, i: int, t: nat) -> int
    decreases t,
{
    if t == 0 {
        0
    } else {
        hex_prefix(raw, i, (t - 1) as nat) * 16 + hex_value(raw[i + t - 1])
    }
}

/// Decodes the `\u` escape whose four digits start at index `i` (and, for a high
/// surrogate, the `\u` escape of the low surrogate that must follow it).
/// `Ok` gives the character and the index just after the escape.
pub open spec fn decode_unicode(raw: Seq<char>, i: int) -> Result<(char, int), ErrorKind> {
    match hex4(raw, i) {
        None => Err(ErrorKind::InvalidUnicodeEscape),
        Some(cu) => {
            if 0xD800 <= cu <= 0xDBFF {
                let j = i + 4;
                if j + 2 > raw.len() || raw[j] != '\\' || raw[j + 1] != 'u' {
                    Err(ErrorKind::LoneSurrogate)
                } else {
                    match hex4(raw, j + 2) {
                        None => Err(ErrorKind::InvalidUnicodeEscape),
                        Some(low) => {
                            if !(0xDC00 <= low <= 0xDFFF) {
                                Err(ErrorKind::LoneSurrogate)
                            } else {
                                let code = (0x10000 + (cu - 0xD800) * 0x400 + (low
                                    - 0xDC00)) as u32;
                                match char_from_u32_spec(code) {
                                    Some(c) => Ok((c, j + 6)),
                                    None => Err(ErrorKind::InvalidUnicodeEscape),
                                }
                            }
                        },
                    }
                }
            } else if 0xDC00 <= cu <= 0xDFFF {
                Err(ErrorKind::LoneSurrogate)
            } else {
                match char_from_u32_spec(cu) {
                    Some(c) => Ok((c, i + 4)),
                    None => Err(ErrorKind::InvalidUnicodeEscape),
                }
            }
        },
    }
}

pub proof fn lemma_decode_unicode(raw: Seq<char>, i: int)
    ensures
        decode_unicode(raw, i) matches Ok((_, j)) ==> i + 4 <= j <= raw.len(),
{
}

/// `c` followed by the decoded rest, or the rest's error.
pub open spec fn prepend(c: char, r: Result<Seq<char>, ErrorKind>) -> Result<Seq<char>, ErrorKind> {
    match r {
        Ok(s) => Ok(seq![c] + s),
        Err(e) => Err(e),
    }
}

/// `p` followed by the decoded rest, or the rest's error.
pub open spec fn prefixed(p: Seq<char>, r: Result<Seq<char>, ErrorKind>) -> Result<
    Seq<char>,
    ErrorKind,
> {
    match r {
        Ok(s) => Ok(p + s),
        Err(e) => Err(e),
    }
}

pub proof fn lemma_prefixed_prepend(p: Seq<char>, c: char, r: Result<Seq<char>, ErrorKind>)
    ensures
        prefixed(p, prepend(c, r)) == prefixed(p.push(c), r),
{
    if let Ok(s) = r {
        assert(p + (seq![c] + s) =~= p.push(c) + s);
    }
}

/// Decodes `raw` from index `i` to its end: escapes are replaced by the characters
/// they stand for; an unescaped control character, a bad escape or a lone surrogate
/// is an error.
pub open spec fn unescape_from(raw: Seq<char>, i: int) -> Result<Seq<char>, ErrorKind>
    decreases raw.len() - i,
{
    if i < 0 || i >= raw.len() {
        Ok(seq![])
    } else if raw[i] == '\\' {
        if i + 1 >= raw.len() {
            Err(ErrorKind::UnexpectedEof)
        } else {
            match simple_escape(raw[i + 1]) {
                Some(c) => prepend(c, unescape_from(raw, i + 2)),
                None => {
                    if raw[i + 1] == 'u' {
                        match decode_unicode(raw, i + 2) {
                            Ok((c, j)) => {
                                proof {
                                    lemma_decode_unicode(raw, i + 2);
                                }
                                prepend(c, unescape_from(raw, j))
                            },
                            Err(kind) => Err(kind),
                        }
                    } else {
                        Err(ErrorKind::InvalidEscape(lead_char(raw[i + 1])))
                    }
                },
            }
        }
    } else if (raw[i] as u32) < 0x20 {
        Err(ErrorKind::ControlCharInString)
    } else {
        prepend(raw[i], unescape_from(raw, i + 1))
    }
}

/// The decoded content of a string literal.
pub open spec fn unescape_spec(raw: Seq<char>) -> Result<Seq<char>, ErrorKind> {
    unescape_from(raw, 0)
}

/// The error `kind`, reported at `pos`.
pub open spec fn error_at_position(kind: ErrorKind, pos: Position) -> ParseError {
    ParseError { kind, line: pos.line, col: pos.col, byte_offset: pos.byte_offset }
}

/// Decode the raw content of a JSON string literal (the characters between the
/// opening and closing `"`, with escapes still encoded).
///
/// `start` is the position of the string's opening quote and is used for
/// error reporting; finer-grained positions inside the string are not
/// tracked.
pub fn unescape(raw: &str, start: Position) -> (r: Result<String, ParseError>)
    ensures
        match unescape_spec(raw@) {
            Ok(s) => r matches Ok(out) && out@ == s,
            Err(kind) => r == Err::<String, ParseError>(error_at_position(kind, start)),
        },
{
    let chars = chars_of(raw);
    let mut out = String::new();
    let mut i: usize = 0;
    while i < chars.len()
        invariant
            chars@ == raw@,
            chars@.len() == chars.len(),
            i <= chars@.len(),
            unescape_spec(raw@) == prefixed(out@, unescape_from(raw@, i as int)),
        decreases chars@.len() - i,
    {
        let ghost before = out@;
        let ghost i0 = i as int;
        let c = chars[i];
        if c == '\\' {
            i += 1;
            if i >= chars.len() {
                return Err(err(ErrorKind::UnexpectedEof, start));
            }
            let e = chars[i];
            if e == 'u' {
                i += 1;
                match push_unicode(&chars, i, &mut out) {
                    Ok(next) => {
                        proof {
                            lemma_decode_unicode(raw@, i as int);
                            lemma_prefixed_prepend(before, out@.last(), unescape_from(raw@, next as int));
                        }
                        i = next;
                    },
                    Err(kind) => {
                        return Err(err(kind, start));
                    },
                }
            } else {
                let d = if e == '"' {
                    '"'
                } else if e == '\\' {
                    '\\'
                } else if e == '/' {
                    '/'
                } else if e == 'b' {
                    '\u{0008}'
                } else if e == 'f' {
                    '\u{000C}'
                } else if e == 'n' {
                    '\n'
                } else if e == 'r' {
                    '\r'
                } else if e == 't' {
                    '\t'
                } else {
                    return Err(err(ErrorKind::InvalidEscape(lead_char_exec(e)), start));
                };
                push_char(&mut out, d);
                i += 1;
                proof {
                    lemma_prefixed_prepend(before, d, unescape_from(raw@, i as int));
                }
            }
        } else if (c as u32) < 0x20 {
            return Err(err(ErrorKind::ControlCharInString, start));
        } else {
            push_char(&mut out, c);
            i += 1;
            proof {
                lemma_prefixed_prepend(before, c, unescape_from(raw@, i as int));
            }
        }
    }
    Ok(out)
}

/// Decodes the `\u` escape whose digits start at index `i` and appends the
/// character; returns the index just after the escape.
fn push_unicode(chars: &Vec<char>, i: usize, out: &mut String) -> (r: Result<usize, ErrorKind>)
    requires
        i <= chars@.len(),
    ensures
        match decode_unicode(chars@, i as int) {
            Ok((c, j)) => r == Ok::<usize, ErrorKind>(j as usize) && final(out)@ == old(out)@.push(
                c,
            ),
            Err(kind) => r == Err::<usize, ErrorKind>(kind),
        },
{
    let n = chars.len();
    let cu = match parse_hex4(chars, i) {
        Some(v) => v,
        None => {
            return Err(ErrorKind::InvalidUnicodeEscape);
        },
    };
    if 0xD800 <= cu && cu <= 0xDBFF {
        let j = i + 4;
        if j > chars.len() || chars.len() - j < 2 || chars[j] != '\\' || chars[j + 1] != 'u' {
            return Err(ErrorKind::LoneSurrogate);
        }
        let low = match parse_hex4(chars, j + 2) {
            Some(v) => v,
            None => {
                return Err(ErrorKind::InvalidUnicodeEscape);
            },
        };
        if !(0xDC00 <= low && low <= 0xDFFF) {
            return Err(ErrorKind::LoneSurrogate);
        }
        let code = 0x10000 + (cu - 0xD800) * 0x400 + (low - 0xDC00);
        match char_from_u32(code) {
            Some(c) => {
                push_char(out, c);
                Ok(j + 6)
            },
            None => Err(ErrorKind::InvalidUnicodeEscape),
        }
    } else if 0xDC00 <= cu && cu <= 0xDFFF {
        Err(ErrorKind::LoneSurrogate)
    } else {
        match char_from_u32(cu) {
            Some(c) => {
                push_char(out, c);
                Ok(i + 4)
            },
            None => Err(ErrorKind::InvalidUnicodeEscape),
        }
    }
}

/// Reads four hexadecimal digits starting at index `i`.
fn parse_hex4(chars: &Vec<char>, i: usize) -> (r: Option<u32>)
    ensures
        r == hex4(chars@, i as int),
{
    if i > chars.len() || chars.len() - i < 4 {
        return None;
    }
    let mut val: u32 = 0;
    let mut t: usize = 0;
    while t < 4
        invariant
            i + 4 <= chars@.len(),
            chars@.len() == chars.len(),
            t <= 4,
            t == 0 ==> val == 0,
            t == 1 ==> val < 16,
            t == 2 ==> val < 256,
            t == 3 ==> val < 4096,
            forall|k: int| i <= k < i + t ==> is_hex(#[trigger] chars@[k]),
            val == hex_prefix(chars@, i as int, t as nat),
        decreases 4 - t,
    {
        let b = chars[i + t];
        let d: u32 = if '0' <= b && b <= '9' {
            (b as u32) - ('0' as u32)
        } else if 'a' <= b && b <= 'f' {
            (b as u32) - ('a' as u32) + 10
        } else if 'A' <= b && b <= 'F' {
            (b as u32) - ('A' as u32) + 10
        } else {
            return None;
        };
        val = val * 16 + d;
        t += 1;
    }
    proof {
        reveal_with_fuel(hex_prefix, 5);
    }
    Some(val)
}

fn err(kind: ErrorKind, pos: Position) -> (e: ParseError)
    ensures
        e == error_at_position(kind, pos),
{
    ParseError::new(kind, pos.line, pos.col, pos.byte_offset)
}

} // verus!
