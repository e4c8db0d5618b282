//! Text: numbers as digits, and strings as their characters.
use vstd::prelude::*;
use vstd::string::StringExecFns;
use vstd::utf8::*;

use crate::bytes;
use crate::bytes::{less, same_bytes};

verus! {

/// One digit, of a base up to sixteen.
pub open spec fn digit(d: nat) -> Seq<char> {
    if d == 0 {
        "0"@
    } else if d == 1 {
        "1"@
    } else if d == 2 {
        "2"@
    } else if d == 3 {
        "3"@
    } else if d == 4 {
        "4"@
    } else if d == 5 {
        "5"@
    } else if d == 6 {
        "6"@
    } else if d == 7 {
        "7"@
    } else if d == 8 {
        "8"@
    } else if d == 9 {
        "9"@
    } else if d == 10 {
        "a"@
    } else if d == 11 {
        "b"@
    } else if d == 12 {
        "c"@
    } else if d == 13 {
        "d"@
    } else if d == 14 {
        "e"@
    } else {
        "f"@
    }
}

/// A number in decimal, without leading zeros.
pub open spec fn decimal(n: nat) -> Seq<char>
    decreases n,
{
    if n < 10 {
        digit(n)
    } else {
        decimal(n / 10) + digit(n % 10)
    }
}

/// A signed number in decimal.
pub open spec fn signed_decimal(n: int) -> Seq<char> {
    if n < 0 {
        "-"@ + decimal((-n) as nat)
    } else {
        decimal(n as nat)
    }
}

/// The last `width` digits of a number in hexadecimal.
pub open spec fn hexadecimal(n: nat, width: nat) -> Seq<char>
    decreases width,
{
    if width == 0 {
        Seq::empty()
    } else {
        hexadecimal(n / 16, (width - 1) as nat) + digit(n % 16)
    }
}

fn digit_text(d: u8) -> (text: &'static str)
    requires
        d < 16,
    ensures
        text@ == digit(d as nat),
{
    match d {
        0 => "0",
        1 => "1",
        2 => "2",
        3 => "3",
        4 => "4",
        5 => "5",
        6 => "6",
        7 => "7",
        8 => "8",
        9 => "9",
        10 => "a",
        11 => "b",
        12 => "c",
        13 => "d",
        14 => "e",
        _ => "f",
    }
}

/// Append a number in decimal.
pub fn push_decimal(out: &mut String, n: u64)
    ensures
        final(out)@ == old(out)@ + decimal(n as nat),
    decreases n,
{
    if n >= 10 {
        push_decimal(out, n / 10);
    }
    let ghost before = out@;
    out.append(digit_text((n % 10) as u8));
    proof {
        if n >= 10 {
            assert(old(out)@ + decimal((n / 10) as nat) + digit((n % 10) as nat) =~= old(out)@ + (
            decimal((n / 10) as nat) + digit((n % 10) as nat)));
        }
    }
}

/// Append a signed number in decimal.
pub fn push_signed(out: &mut String, n: i64)
    ensures
        final(out)@ == old(out)@ + signed_decimal(n as int),
{
    if n < 0 {
        out.append("-");
        push_decimal(out, (-(n as i128)) as u64);
        proof {
            assert(old(out)@ + "-"@ + decimal((-n) as nat) =~= old(out)@ + ("-"@ + decimal(
                (-n) as nat,
            )));
        }
    } else {
        push_decimal(out, n as u64);
    }
}

/// Append the last `width` digits of a number in hexadecimal.
pub fn push_hexadecimal(out: &mut String, n: u32, width: u8)
    ensures
        final(out)@ == old(out)@ + hexadecimal(n as nat, width as nat),
    decreases width,
{
    if width > 0 {
        push_hexadecimal(out, n / 16, width - 1);
        out.append(digit_text((n % 16) as u8));
        proof {
            assert(old(out)@ + hexadecimal((n / 16) as nat, (width - 1) as nat) + digit(
                (n % 16) as nat,
            ) =~= old(out)@ + (hexadecimal((n / 16) as nat, (width - 1) as nat) + digit(
                (n % 16) as nat,
            )));
        }
    } else {
        proof {
            assert(old(out)@ + Seq::<char>::empty() =~= old(out)@);
        }
    }
}

/// `before`, `middle` and `after`, one after the other.
pub fn around(before: &str, middle: &str, after: &str) -> (text: String)
    ensures
        text@ == before@ + middle@ + after@,
{
    let mut text: String = before.to_owned();
    text.append(middle);
    text.append(after);
    text
}

/// `String::push`: the text with one character more.
#[verifier::external_body]
pub(crate) fn push_char(out: &mut String, c: char)
    ensures
        final(out)@ == old(out)@.push(c),
{
    out.push(c)
}

/// `char::from_u32`: the character of a code point. There is one unless the number is a
/// surrogate or past the last code point.
#[verifier::external_body]
pub(crate) fn char_of(n: u32) -> (c: Option<char>)
    ensures
        match c {
            Some(c) => c as u32 == n,
            None => 0xd800 <= n <= 0xdfff || n > 0x10ffff,
        },
{
    char::from_u32(n)
}

/// The characters of a string.
pub fn chars_of(s: &str) -> (chars: Vec<char>)
    ensures
        chars@ == s@,
{
    let mut chars: Vec<char> = Vec::new();
    for c in it: s.chars()
        invariant
            it.seq() == s@,
            chars@ == it.seq().take(it.index() as int),
    {
        chars.push(c);
        proof {
            assert(it.seq().take(it.index() as int).push(c) =~= it.seq().take(
                it.index() as int + 1,
            ));
        }
    }
    proof {
        assert(s@.take(s@.len() as int) =~= s@);
    }
    chars
}

/// Whether one string comes before another: by the bytes of their encodings.
pub open spec fn before(a: Seq<char>, b: Seq<char>) -> bool {
    bytes::lex_lt(encode_utf8(a), encode_utf8(b))
}

/// Whether one string comes before another.
pub fn comes_before(a: &str, b: &str) -> (r: bool)
    ensures
        r == before(a@, b@),
{
    less(a.as_bytes(), b.as_bytes())
}

/// Whether two strings are the same.
pub fn same_text(a: &str, b: &str) -> (r: bool)
    ensures
        r == (a@ == b@),
{
    proof {
        encode_utf8_decode_utf8(a@);
        encode_utf8_decode_utf8(b@);
    }
    same_bytes(a.as_bytes(), b.as_bytes())
}

} // verus!
