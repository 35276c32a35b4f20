//! Character classes, escape sequences and small string helpers.

use vstd::prelude::*;

verus! {

/// Whether `c` is an ASCII letter.
pub open spec fn alphabetical(c: char) -> bool {
    ('a' <= c && c <= 'z') || ('A' <= c && c <= 'Z')
}

/// Whether `c` is an ASCII digit.
pub open spec fn digit(c: char) -> bool {
    '0' <= c && c <= '9'
}

/// Whether `c` may stand in an integer literal: a digit or the `_` separator.
pub open spec fn integral(c: char) -> bool {
    digit(c) || c == '_'
}

/// The character that the escape sequence `\c` stands for, if `c` names one.
pub open spec fn escape_of(c: char) -> Option<char> {
    if c == 'n' {
        Some('\n')
    } else if c == 'r' {
        Some('\r')
    } else if c == 't' {
        Some('\t')
    } else if c == '\\' {
        Some('\\')
    } else if c == '\'' {
        Some('\'')
    } else if c == '"' {
        Some('"')
    } else if c == '0' {
        Some('\0')
    } else {
        None
    }
}

/// Tests whether `ch` is an ASCII letter.
pub fn is_alphabetical(ch: char) -> (r: bool)
    ensures
        r == alphabetical(ch),
{
    ('a' <= ch && ch <= 'z') || ('A' <= ch && ch <= 'Z')
}

/// Tests whether `ch` is a digit or `_`.
pub fn is_integral(ch: char) -> (r: bool)
    ensures
        r == integral(ch),
{
    ('0' <= ch && ch <= '9') || ch == '_'
}

/// Tests whether `ch` is a digit, `_` or `.`.
pub fn is_numeric(ch: char) -> (r: bool)
    ensures
        r == (integral(ch) || ch == '.'),
{
    is_integral(ch) || ch == '.'
}

/// Tests whether `ch` is an ASCII letter, a digit or `_`.
pub fn is_alphanumeric(ch: char) -> (r: bool)
    ensures
        r == (alphabetical(ch) || integral(ch)),
{
    is_alphabetical(ch) || is_integral(ch)
}

/// Tests whether `ch` is an ASCII digit.
pub fn is_digit(ch: char) -> (r: bool)
    ensures
        r == digit(ch),
{
    '0' <= ch && ch <= '9'
}

/// The character that the escape sequence `\ch` stands for, if any.
pub fn escape_char(ch: char) -> (r: Option<char>)
    ensures
        r == escape_of(ch),
{
    match ch {
        'n' => Some('\n'),
        'r' => Some('\r'),
        't' => Some('\t'),
        '\\' => Some('\\'),
        '\'' => Some('\''),
        '"' => Some('"'),
        '0' => Some('\0'),
        _ => None,
    }
}

/// Resolves a two-character escape sequence such as `\n` to the character
/// it stands for; anything else gives `None`.
pub fn try_escape_char(str: Option<&str>) -> (r: Option<char>)
    ensures
        r == (match str {
            Some(s) => if s@.len() == 2 && s@[0] == '\\' {
                escape_of(s@[1])
            } else {
                None
            },
            None => None,
        }),
{
    match str {
        Some(s) => {
            if s.unicode_len() == 2 && s.get_char(0) == '\\' {
                escape_char(s.get_char(1))
            } else {
                None
            }
        },
        None => None,
    }
}

/// Tests whether two strings hold the same characters.
pub fn str_eq(a: &str, b: &str) -> (r: bool)
    ensures
        r == (a@ == b@),
{
    let n = a.unicode_len();
    if n != b.unicode_len() {
        return false;
    }
    let mut i: usize = 0;
    while i < n
        invariant
            n == a@.len(),
            n == b@.len(),
            i <= n,
            a@.subrange(0, i as int) == b@.subrange(0, i as int),
        decreases n - i,
    {
        if a.get_char(i) != b.get_char(i) {
            assert(a@[i as int] != b@[i as int]);
            return false;
        }
        assert(a@.subrange(0, i + 1) == a@.subrange(0, i as int).push(a@[i as int]));
        assert(b@.subrange(0, i + 1) == b@.subrange(0, i as int).push(b@[i as int]));
        i = i + 1;
    }
    assert(a@ == a@.subrange(0, n as int));
    assert(b@ == b@.subrange(0, n as int));
    true
}

/// Relies on `String::push`: appends one character to the string.
#[verifier::external_body]
pub(crate) fn push_char(s: &mut String, c: char)
    ensures
        final(s)@ == old(s)@.push(c),
{
    s.push(c)
}

/// The characters of `s`, in order.
pub fn chars_of(s: &str) -> (r: Vec<char>)
    ensures
        r@ == s@,
{
    let mut r: Vec<char> = Vec::new();
    for c in it: s.chars()
        invariant
            it.seq() == s@,
            r@ == it.seq().subrange(0, it.index() as int),
    {
        r.push(c);
    }
    r
}

} // verus!
