//! Text as sequences of characters: trimming, decimal numbers, and lengths
//! in bytes.

use vstd::prelude::*;
use vstd::string::*;

verus! {

/// Whether `c` is whitespace: one of the characters with the Unicode
/// property White_Space, which are the controls U+0009 to U+000D, the
/// space, U+0085, U+00A0, U+1680, U+2000 to U+200A, U+2028, U+2029, U+202F,
/// U+205F and U+3000.
pub open spec fn is_whitespace(c: char) -> bool {
    let code = c as u32;
    ||| 0x0009 <= code <= 0x000D
    ||| code == 0x0020
    ||| code == 0x0085
    ||| code == 0x00A0
    ||| code == 0x1680
    ||| 0x2000 <= code <= 0x200A
    ||| code == 0x2028
    ||| code == 0x2029
    ||| code == 0x202F
    ||| code == 0x205F
    ||| code == 0x3000
}

/// Whether `c` is whitespace.
pub fn char_is_whitespace(c: char) -> (white: bool)
    ensures
        white == is_whitespace(c),
{
    let code = c as u32;
    (0x0009 <= code && code <= 0x000D) || code == 0x0020 || code == 0x0085 || code == 0x00A0
        || code == 0x1680 || (0x2000 <= code && code <= 0x200A) || code == 0x2028 || code
        == 0x2029 || code == 0x202F || code == 0x205F || code == 0x3000
}

/// `s` without the whitespace at its end.
pub open spec fn trim_end(s: Seq<char>) -> Seq<char>
    decreases s.len(),
{
    if s.len() > 0 && is_whitespace(s.last()) {
        trim_end(s.drop_last())
    } else {
        s
    }
}

/// `s` without the whitespace at its start.
pub open spec fn trim_start(s: Seq<char>) -> Seq<char>
    decreases s.len(),
{
    if s.len() > 0 && is_whitespace(s.first()) {
        trim_start(s.drop_first())
    } else {
        s
    }
}

/// `s` without the whitespace at either end.
pub open spec fn trim(s: Seq<char>) -> Seq<char> {
    trim_end(trim_start(s))
}

/// The number of bytes that `s` takes in UTF-8.
pub open spec fn utf8_len(s: Seq<char>) -> nat {
    vstd::utf8::encode_utf8(s).len()
}

/// The text of one decimal digit.
pub open spec fn digit(d: nat) -> Seq<char> {
    if d == 0 {
        "0"@
    } else if d == 1 {
        "1"@
    } else if d == 2 {
        "2"@
    } else if d == 3 {
        "3"@
    } else if d == 4 {
        "4"@
    } else if d == 5 {
        "5"@
    } else if d == 6 {
        "6"@
    } else if d == 7 {
        "7"@
    } else if d == 8 {
        "8"@
    } else {
        "9"@
    }
}

/// `n` written in decimal, without leading zeros.
pub open spec fn decimal(n: nat) -> Seq<char>
    decreases n,
{
    if n < 10 {
        digit(n)
    } else {
        decimal(n / 10) + digit(n % 10)
    }
}

/// The characters of `s`, one by one.
fn chars_of(s: &str) -> (chars: Vec<char>)
    ensures
        chars@ == s@,
{
    let mut chars: Vec<char> = Vec::new();
    for c in it: s.chars()
        invariant
            chars@ == it.seq().take(it.index() as int),
            it.seq() == s@,
    {
        chars.push(c);
    }
    chars
}

/// The number of bytes of `s`.
pub fn byte_len(s: &str) -> (n: usize)
    ensures
        n == utf8_len(s@),
{
    s.as_bytes().len()
}

/// A copy of `s` without the whitespace at its end.
pub fn trimmed_end(s: &str) -> (out: String)
    ensures
        out@ == trim_end(s@),
{
    let chars = chars_of(s);
    let mut keep: usize = chars.len();
    assert(s@.take(keep as int) =~= s@);
    while keep > 0 && char_is_whitespace(chars[keep - 1])
        invariant
            keep <= chars.len(),
            chars@ == s@,
            trim_end(s@) == trim_end(s@.take(keep as int)),
        decreases keep,
    {
        assert(s@.take(keep as int).drop_last() =~= s@.take(keep - 1));
        keep -= 1;
    }
    String::from_str(s.substring_char(0, keep))
}

/// A copy of `s` without the whitespace at either end.
pub fn trimmed(s: &str) -> (out: String)
    ensures
        out@ == trim(s@),
{
    let chars = chars_of(s);
    let mut start: usize = 0;
    assert(s@.skip(0) =~= s@);
    while start < chars.len() && char_is_whitespace(chars[start])
        invariant
            start <= chars.len(),
            chars@ == s@,
            trim_start(s@) == trim_start(s@.skip(start as int)),
        decreases chars.len() - start,
    {
        assert(s@.skip(start as int).drop_first() =~= s@.skip(start + 1));
        start += 1;
    }
    let rest = s.substring_char(start, chars.len());
    assert(rest@ =~= s@.skip(start as int));
    trimmed_end(rest)
}

/// The text of the digit `d`.
fn digit_text(d: usize) -> (text: &'static str)
    requires
        d < 10,
    ensures
        text@ == digit(d as nat),
{
    match d {
        0 => "0",
        1 => "1",
        2 => "2",
        3 => "3",
        4 => "4",
        5 => "5",
        6 => "6",
        7 => "7",
        8 => "8",
        _ => "9",
    }
}

/// `n` written in decimal.
pub fn decimal_text(n: usize) -> (text: String)
    ensures
        text@ == decimal(n as nat),
{
    let mut text = String::from_str(digit_text(n % 10));
    let mut rest: usize = n / 10;
    while rest > 0
        invariant
            decimal(n as nat) == if rest == 0 {
                text@
            } else {
                decimal(rest as nat) + text@
            },
        decreases rest,
    {
        let ghost lower = text@;
        text = String::from_str(digit_text(rest % 10)).concat(text.as_str());
        assert(decimal(rest as nat) + lower =~= if rest < 10 {
            text@
        } else {
            decimal((rest / 10) as nat) + text@
        });
        rest = rest / 10;
    }
    text
}

} // verus!
