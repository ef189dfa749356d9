//! Building strings: appending characters and decimal numbers.

use vstd::prelude::*;

verus! {

/// `String::push`: appends the character at the end of the string.
#[verifier::external_body]
pub(crate) fn push_char(s: &mut String, c: char)
    ensures
        final(s)@ == old(s)@.push(c),
{
    s.push(c)
}

/// `String::push_str`: appends the text at the end of the string.
#[verifier::external_body]
pub(crate) fn push_str(s: &mut String, text: &str)
    ensures
        final(s)@ == old(s)@ + text@,
{
    s.push_str(text)
}

/// The digit character for `d`.
pub open spec fn digit(d: nat) -> char {
    (('0' as u32) + d) as char
}

/// The decimal digits of `n`, most significant first, without leading
/// zeros ("0" for zero).
pub open spec fn decimal(n: nat) -> Seq<char>
    decreases n,
{
    if n < 10 {
        seq![digit(n)]
    } else {
        decimal(n / 10).push(digit(n % 10))
    }
}

fn digit_char(d: u64) -> (c: char)
    requires
        d < 10,
    ensures
        c == digit(d as nat),
{
    let b: u8 = 48u8 + d as u8;
    b as char
}

/// Append the decimal digits of `n`.
pub fn push_decimal(s: &mut String, n: u64)
    ensures
        final(s)@ == old(s)@ + decimal(n as nat),
    decreases n,
{
    if n >= 10 {
        push_decimal(s, n / 10);
    }
    let ghost before = s@;
    push_char(s, digit_char(n % 10));
    proof {
        if n >= 10 {
            assert(s@ =~= old(s)@ + decimal(n as nat));
        } else {
            assert(s@ =~= old(s)@ + decimal(n as nat));
        }
    }
}

/// The uppercase hexadecimal digit for `d`.
pub open spec fn hex_upper(d: nat) -> char {
    if d < 10 {
        digit(d)
    } else {
        (('A' as u32) + (d - 10)) as char
    }
}

/// A byte as two uppercase hexadecimal digits.
pub open spec fn hex2(b: u8) -> Seq<char> {
    seq![hex_upper((b / 16) as nat), hex_upper((b % 16) as nat)]
}

fn hex_upper_char(d: u8) -> (c: char)
    requires
        d < 16,
    ensures
        c == hex_upper(d as nat),
{
    if d < 10 {
        (48u8 + d) as char
    } else {
        (55u8 + d) as char
    }
}

/// Append a byte as two uppercase hexadecimal digits.
pub fn push_hex2(s: &mut String, b: u8)
    ensures
        final(s)@ == old(s)@ + hex2(b),
{
    push_char(s, hex_upper_char(b / 16));
    push_char(s, hex_upper_char(b % 16));
    proof {
        assert(s@ =~= old(s)@ + hex2(b));
    }
}

/// How a byte is shown in a pattern: as its character from space to
/// 127, as two hexadecimal digits otherwise.
pub open spec fn ascii_form(b: u8) -> Seq<char> {
    if 0x20 <= b <= 127 {
        seq![b as char]
    } else {
        hex2(b)
    }
}

/// Append a byte as it is shown in a pattern.
pub fn format_ascii(byte: u8, s: &mut String)
    ensures
        final(s)@ == old(s)@ + ascii_form(byte),
{
    if byte >= 0x20 && byte <= 127 {
        push_char(s, byte as char);
        proof {
            assert(s@ =~= old(s)@ + ascii_form(byte));
        }
    } else {
        push_hex2(s, byte);
    }
}

} // verus!
