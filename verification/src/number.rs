//! JSON numbers, kept as their original lexeme.
use vstd::prelude::*;
use crate::text::{chars_of, decimal, digit_char, is_digit};

verus! {

broadcast use vstd::seq_lib::group_seq_properties;

/// A JSON number, stored as its original lexeme to preserve full precision.
///
/// Conversions to `i64`/`u64` are performed lazily on demand. The lexer only
/// builds `Number`s from syntactically valid JSON number lexemes.
#[derive(Debug, PartialEq, Eq, Hash)]
pub struct Number(String);

impl Clone for Number {
    fn clone(&self) -> (r: Self)
        ensures
            r@ == self@,
    {
        Number(self.0.clone())
    }
}

impl View for Number {
    type V = Seq<char>;

    open spec fn view(&self) -> Seq<char> {
        self.lexeme()
    }
}

/// The value of a nonempty run of decimal digits.
pub open spec fn digits_value(ds: Seq<char>) -> nat
    decreases ds.len(),
{
    if ds.len() == 0 {
        0
    } else {
        digits_value(ds.drop_last()) * 10 + ((ds.last() as u32) - ('0' as u32)) as nat
    }
}

/// Every character is a decimal digit.
pub open spec fn all_digits(ds: Seq<char>) -> bool {
    forall|i: int| 0 <= i < ds.len() ==> is_digit(#[trigger] ds[i])
}

/// The integer written by `s`: an optional `+` or `-` sign followed by at least one
/// decimal digit (the syntax std accepts when parsing integers).
pub open spec fn integer_value(s: Seq<char>) -> Option<int> {
    if s.len() == 0 {
        None
    } else {
        let neg = s[0] == '-';
        let ds = if s[0] == '-' || s[0] == '+' {
            s.subrange(1, s.len() as int)
        } else {
            s
        };
        if ds.len() == 0 || !all_digits(ds) {
            None
        } else if neg {
            Some(-(digits_value(ds) as int))
        } else {
            Some(digits_value(ds) as int)
        }
    }
}

/// The lexeme has no fraction and no exponent.
pub open spec fn is_integer_lexeme(s: Seq<char>) -> bool {
    forall|i: int| 0 <= i < s.len() ==> #[trigger] s[i] != '.' && s[i] != 'e' && s[i] != 'E'
}

/// What `as_i64` returns for a lexeme.
pub open spec fn as_i64_spec(s: Seq<char>) -> Option<i64> {
    if is_integer_lexeme(s) {
        match integer_value(s) {
            Some(v) => if i64::MIN <= v <= i64::MAX {
                Some(v as i64)
            } else {
                None
            },
            None => None,
        }
    } else {
        None
    }
}

/// What `as_u64` returns for a lexeme.
pub open spec fn as_u64_spec(s: Seq<char>) -> Option<u64> {
    if is_integer_lexeme(s) && !(s.len() > 0 && s[0] == '-') {
        match integer_value(s) {
            Some(v) => if 0 <= v <= u64::MAX {
                Some(v as u64)
            } else {
                None
            },
            None => None,
        }
    } else {
        None
    }
}

proof fn lemma_digits_value_prefix(ds: Seq<char>, k: int)
    requires
        0 <= k <= ds.len(),
        all_digits(ds),
    ensures
        digits_value(ds.take(k)) <= digits_value(ds),
    decreases ds.len() - k,
{
    if k < ds.len() {
        lemma_digits_value_prefix(ds, k + 1);
        assert(ds.take(k + 1).drop_last() =~= ds.take(k));
        assert(is_digit(ds[k]));
    } else {
        assert(ds.take(k) =~= ds);
    }
}

proof fn lemma_digit_char(d: nat)
    requires
        d < 10,
    ensures
        is_digit(digit_char(d)),
        (digit_char(d) as u32) - ('0' as u32) == d,
        digit_char(d) != '.' && digit_char(d) != 'e' && digit_char(d) != 'E' && digit_char(d)
            != '-' && digit_char(d) != '+',
{
    assert(((d + 48) as u8) as char as u32 == d + 48);
}

/// The decimal digits of `n` are digits, and read back as `n`.
proof fn lemma_decimal_value(n: nat)
    ensures
        decimal(n).len() > 0,
        all_digits(decimal(n)),
        is_integer_lexeme(decimal(n)),
        digits_value(decimal(n)) == n,
        decimal(n)[0] != '-' && decimal(n)[0] != '+',
    decreases n,
{
    lemma_digit_char(n % 10);
    if n >= 10 {
        lemma_decimal_value(n / 10);
        let ds = decimal(n);
        assert(ds.drop_last() =~= decimal(n / 10));
        assert(ds.last() == digit_char(n % 10));
        assert forall|i: int| 0 <= i < ds.len() implies is_digit(#[trigger] ds[i]) by {
            if i < ds.len() - 1 {
                assert(ds[i] == decimal(n / 10)[i]);
            }
        }
        assert(ds[0] == decimal(n / 10)[0]);
        assert(digits_value(ds) == digits_value(ds.drop_last()) * 10 + ((ds.last() as u32) - (
        '0' as u32)) as nat);
        assert((n / 10) * 10 + n % 10 == n);
    } else {
        let ds = decimal(n);
        assert(ds.drop_last() =~= Seq::<char>::empty());
        assert(digits_value(ds.drop_last()) == 0);
        assert(ds.last() == digit_char(n));
    }
}

/// The decimal text of an integer: a `-` for a negative one, then its digits.
pub open spec fn signed_decimal(n: int) -> Seq<char> {
    if n < 0 {
        seq!['-'] + decimal((-n) as nat)
    } else {
        decimal(n as nat)
    }
}

/// `as_i64` reads back every `i64` from its decimal text, and `as_u64` every `u64`;
/// neither reads a negative decimal text as a `u64`.
pub proof fn law_integers_read_back(n: i64, m: u64)
    ensures
        as_i64_spec(signed_decimal(n as int)) == Some(n),
        as_u64_spec(signed_decimal(m as int)) == Some(m),
        n < 0 ==> as_u64_spec(signed_decimal(n as int)) is None,
{
    lemma_decimal_value(m as nat);
    if n < 0 {
        let ds = decimal((-n) as nat);
        lemma_decimal_value((-n) as nat);
        let t = seq!['-'] + ds;
        assert(t.subrange(1, t.len() as int) =~= ds);
        assert forall|i: int| 0 <= i < t.len() implies #[trigger] t[i] != '.' && t[i] != 'e'
            && t[i] != 'E' by {
            if i > 0 {
                assert(t[i] == ds[i - 1]);
            }
        }
    } else {
        lemma_decimal_value(n as nat);
    }
}

/// Reads the digits `chars[from..]` as a `u64`; `None` when one is not a digit or the
/// value does not fit.
fn digits_to_u64(chars: &Vec<char>, from: usize) -> (r: Option<u64>)
    requires
        from <= chars@.len(),
    ensures
        all_digits(chars@.subrange(from as int, chars@.len() as int)) && digits_value(
            chars@.subrange(from as int, chars@.len() as int),
        ) <= u64::MAX ==> r == Some(
            digits_value(chars@.subrange(from as int, chars@.len() as int)) as u64,
        ),
        !(all_digits(chars@.subrange(from as int, chars@.len() as int)) && digits_value(
            chars@.subrange(from as int, chars@.len() as int),
        ) <= u64::MAX) ==> r is None,
{
    let ghost ds = chars@.subrange(from as int, chars@.len() as int);
    let mut acc: u64 = 0;
    let mut i = from;
    while i < chars.len()
        invariant
            from <= i <= chars@.len(),
            ds == chars@.subrange(from as int, chars@.len() as int),
            all_digits(ds.take(i - from)),
            acc == digits_value(ds.take(i - from)),
        decreases chars@.len() - i,
    {
        let c = chars[i];
        if !('0' <= c && c <= '9') {
            assert(!is_digit(ds[i - from]));
            return None;
        }
        let d = ((c as u32) - ('0' as u32)) as u64;
        assert(ds.take(i - from + 1).drop_last() =~= ds.take(i - from));
        assert(ds.take(i - from + 1).last() == c);
        match acc.checked_mul(10) {
            Some(m) => match m.checked_add(d) {
                Some(v) => {
                    acc = v;
                },
                None => {
                    proof {
                        if all_digits(ds) {
                            lemma_digits_value_prefix(ds, i - from + 1);
                        }
                    }
                    return None;
                },
            },
            None => {
                proof {
                    if all_digits(ds) {
                        lemma_digits_value_prefix(ds, i - from + 1);
                    }
                }
                return None;
            },
        }
        i += 1;
    }
    assert(ds.take(i - from) =~= ds);
    Some(acc)
}

impl Number {
    /// The lexeme.
    pub closed spec fn lexeme(&self) -> Seq<char> {
        self.0@
    }

    /// Constructs a `Number` from a JSON number lexeme. The lexer guarantees
    /// validity for the numbers it reads; this is for callers building values
    /// programmatically.
    pub fn from_raw(raw: &str) -> (n: Self)
        ensures
            n@ == raw@,
    {
        Number(raw.to_owned())
    }

    pub(crate) fn from_string(raw: String) -> (n: Self)
        ensures
            n@ == raw@,
    {
        Number(raw)
    }

    pub fn as_str(&self) -> (s: &str)
        ensures
            s@ == self@,
    {
        self.0.as_str()
    }

    /// The lexeme, as it is shown to users.
    pub fn to_string(&self) -> (s: String)
        ensures
            s@ == self@,
    {
        self.0.as_str().to_owned()
    }

    pub fn as_i64(&self) -> (r: Option<i64>)
        ensures
            r == as_i64_spec(self@),
    {
        if !self.is_integer_lexeme() {
            return None;
        }
        let chars = chars_of(self.0.as_str());
        if chars.len() == 0 {
            return None;
        }
        let neg = chars[0] == '-';
        let from: usize = if chars[0] == '-' || chars[0] == '+' {
            1
        } else {
            0
        };
        if from == chars.len() {
            return None;
        }
        assert(from == 0 ==> chars@.subrange(0, chars@.len() as int) =~= chars@);
        match digits_to_u64(&chars, from) {
            None => None,
            Some(m) => {
                if neg {
                    if m <= 9223372036854775808u64 {
                        if m == 9223372036854775808u64 {
                            Some(i64::MIN)
                        } else {
                            Some(-(m as i64))
                        }
                    } else {
                        None
                    }
                } else {
                    if m <= 9223372036854775807u64 {
                        Some(m as i64)
                    } else {
                        None
                    }
                }
            },
        }
    }

    pub fn as_u64(&self) -> (r: Option<u64>)
        ensures
            r == as_u64_spec(self@),
    {
        if !self.is_integer_lexeme() {
            return None;
        }
        let chars = chars_of(self.0.as_str());
        if chars.len() == 0 {
            return None;
        }
        if chars[0] == '-' {
            return None;
        }
        let from: usize = if chars[0] == '+' {
            1
        } else {
            0
        };
        if from == chars.len() {
            return None;
        }
        assert(from == 0 ==> chars@.subrange(0, chars@.len() as int) =~= chars@);
        digits_to_u64(&chars, from)
    }

    fn is_integer_lexeme(&self) -> (b: bool)
        ensures
            b == is_integer_lexeme(self@),
    {
        let chars = chars_of(self.0.as_str());
        let mut i: usize = 0;
        while i < chars.len()
            invariant
                chars@ == self@,
                i <= chars@.len(),
                forall|j: int| 0 <= j < i ==> #[trigger] chars@[j] != '.' && chars@[j] != 'e'
                    && chars@[j] != 'E',
            decreases chars@.len() - i,
        {
            let c = chars[i];
            if c == '.' || c == 'e' || c == 'E' {
                return false;
            }
            i += 1;
        }
        true
    }
}

} // verus!
