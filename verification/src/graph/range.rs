use vstd::prelude::*;

use crate::pattern::range_bytes;
use crate::text::{hex2, push_char, push_hex2};

verus! {

/// An inclusive range of bytes `start..=end`; as an iterator it yields
/// its bytes upwards, once each, even when the range ends at 255.
#[derive(Clone, Copy, PartialEq, Eq, Hash, Debug, Structural)]
pub struct Range(pub u8, pub u8);

impl View for Range {
    type V = Seq<u8>;

    /// The bytes still to be yielded.
    open spec fn view(&self) -> Seq<u8> {
        range_bytes(self.0, self.1)
    }
}

impl Range {
    /// The range of a single byte.
    pub fn from_byte(byte: u8) -> (r: Range)
        ensures
            r == Range(byte, byte),
    {
        Range(byte, byte)
    }

    /// The byte this range consists of, if it is a single byte.
    pub fn as_byte(&self) -> (r: Option<u8>)
        ensures
            r == (if self.0 == self.1 { Some(self.0) } else { None }),
    {
        if self.0 == self.1 {
            Some(self.0)
        } else {
            None
        }
    }

    /// Whether `byte` lies in the range.
    pub fn contains(&self, byte: u8) -> (r: bool)
        ensures
            r == (self.0 <= byte <= self.1),
            r == self@.contains(byte),
    {
        proof {
            if self.0 <= byte <= self.1 {
                assert(self@[byte - self.0] == byte);
            }
        }
        self.0 <= byte && byte <= self.1
    }

    /// Yield the next byte of the range.
    pub fn next(&mut self) -> (r: Option<u8>)
        ensures
            match r {
                Some(b) => old(self)@.len() > 0 && b == old(self)@[0] && final(self)@ == old(self)@.drop_first(),
                None => old(self)@.len() == 0 && final(self)@ == old(self)@,
            },
    {
        if self.0 < self.1 {
            let res = self.0;
            self.0 = self.0 + 1;
            proof {
                assert(self@ =~= old(self)@.drop_first());
            }
            Some(res)
        } else if self.0 == self.1 {
            let res = self.0;
            self.0 = 0xFF;
            self.1 = 0x00;
            proof {
                assert(self@ =~= old(self)@.drop_first());
            }
            Some(res)
        } else {
            None
        }
    }
}

/// ASCII punctuation, letters and digits, and ASCII whitespace (space,
/// tab, line feed, form feed, carriage return).
pub open spec fn printable(byte: u8) -> bool {
    ||| 0x21 <= byte <= 0x2F
    ||| 0x3A <= byte <= 0x40
    ||| 0x5B <= byte <= 0x60
    ||| 0x7B <= byte <= 0x7E
    ||| 0x30 <= byte <= 0x39
    ||| 0x41 <= byte <= 0x5A
    ||| 0x61 <= byte <= 0x7A
    ||| byte == 0x20 || byte == 0x09 || byte == 0x0A || byte == 0x0C || byte == 0x0D
}

/// Whether the byte is shown as its character: ASCII punctuation, an
/// ASCII letter or digit, or ASCII whitespace.
pub fn is_printable(byte: u8) -> (r: bool)
    ensures
        r == printable(byte),
{
    (0x21 <= byte && byte <= 0x7E) || byte == 0x20 || byte == 0x09 || byte == 0x0A || byte == 0x0C || byte == 0x0D
}

/// How a range bound is shown: as its character when printable, as two
/// hexadecimal digits otherwise.
pub open spec fn bound_form(byte: u8) -> Seq<char> {
    if printable(byte) {
        seq![byte as char]
    } else {
        hex2(byte)
    }
}

fn push_bound(s: &mut String, byte: u8)
    ensures
        final(s)@ == old(s)@ + bound_form(byte),
{
    if is_printable(byte) {
        push_char(s, byte as char);
        proof {
            assert(s@ =~= old(s)@ + bound_form(byte));
        }
    } else {
        push_hex2(s, byte);
    }
}

impl Range {
    /// The range as text: its start, and `-` and its end when they differ.
    pub fn describe(&self) -> (r: String)
        ensures
            r@ == bound_form(self.0) + (if self.0 != self.1 { seq!['-'] + bound_form(self.1) } else { Seq::empty() }),
    {
        let mut s = String::new();
        push_bound(&mut s, self.0);
        if self.0 != self.1 {
            push_char(&mut s, '-');
            push_bound(&mut s, self.1);
        }
        proof {
            assert(s@ =~= bound_form(self.0) + (if self.0 != self.1 { seq!['-'] + bound_form(self.1) } else { Seq::empty() }));
        }
        s
    }
}

} // verus!
