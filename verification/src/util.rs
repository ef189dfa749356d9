//! Small helpers shared by the parser and the graph builder.

use vstd::prelude::*;

use crate::text::push_char;

verus! {

/// The lowercase hexadecimal digit for `d`.
pub open spec fn hex_digit(d: u8) -> char {
    if d < 10 {
        (48 + d) as char
    } else {
        (87 + d) as char
    }
}

/// How one byte is written in a regex: an ASCII byte as its character,
/// any other as `\x` and two lowercase hexadecimal digits.
pub open spec fn escaped_byte(b: u8) -> Seq<char> {
    if b < 0x80 {
        seq![b as char]
    } else {
        seq!['\\', 'x', hex_digit(b / 16), hex_digit(b % 16)]
    }
}

/// The regex text matching exactly the given bytes, byte after byte.
pub open spec fn regex_escaped(bytes: Seq<u8>) -> Seq<char>
    decreases bytes.len(),
{
    if bytes.len() == 0 {
        Seq::empty()
    } else {
        regex_escaped(bytes.drop_last()) + escaped_byte(bytes.last())
    }
}

fn hex_char(d: u8) -> (c: char)
    requires
        d < 16,
    ensures
        c == hex_digit(d),
{
    if d < 10 {
        (48 + d) as char
    } else {
        (87 + d) as char
    }
}

/// The regex text matching exactly the given bytes: ASCII bytes stand for
/// themselves, the others are written `\xNN`.
pub fn bytes_to_regex_string(bytes: Vec<u8>) -> (r: String)
    ensures
        r@ == regex_escaped(bytes@),
{
    let mut string = String::new();
    let mut i: usize = 0;
    while i < bytes.len()
        invariant
            i <= bytes@.len(),
            string@ == regex_escaped(bytes@.take(i as int)),
        decreases bytes@.len() - i,
    {
        let byte = bytes[i];
        let ghost before = string@;
        if byte < 0x80 {
            push_char(&mut string, byte as char);
        } else {
            push_char(&mut string, '\\');
            push_char(&mut string, 'x');
            push_char(&mut string, hex_char(byte / 16));
            push_char(&mut string, hex_char(byte % 16));
        }
        proof {
            assert(bytes@.take(i + 1).drop_last() == bytes@.take(i as int));
            assert(string@ =~= before + escaped_byte(byte));
        }
        i = i + 1;
    }
    proof {
        assert(bytes@.take(bytes@.len() as int) == bytes@);
    }
    string
}

/// The elements of `v`, last first: popping gives them in order.
pub(crate) fn into_stack<T>(v: Vec<T>) -> (r: Vec<T>)
    ensures
        r@.reverse() == v@,
{
    let ghost all = v@;
    let mut v = v;
    let mut out: Vec<T> = Vec::new();
    while v.len() > 0
        invariant
            all == v@ + out@.reverse(),
        decreases v@.len(),
    {
        let ghost before = v@;
        let t = v.pop().unwrap();
        out.push(t);
        proof {
            assert(before == v@.push(t));
            assert(out@.reverse() =~= seq![t] + out@.drop_last().reverse());
            assert(all =~= v@ + out@.reverse());
        }
    }
    proof {
        assert(v@ + out@.reverse() =~= out@.reverse());
    }
    out
}

/// The next element of a stack made by `into_stack`.
pub(crate) fn pop_next<T>(stack: &mut Vec<T>) -> (r: T)
    requires
        old(stack)@.len() > 0,
    ensures
        r == old(stack)@.reverse()[0],
        final(stack)@.reverse() == old(stack)@.reverse().drop_first(),
{
    let ghost before = stack@;
    let r = stack.pop().unwrap();
    proof {
        assert(before == stack@.push(r));
        assert(before.reverse() =~= seq![r] + stack@.reverse());
    }
    r
}

} // verus!
