use vstd::prelude::*;

verus! {

/// ASCII whitespace as Rust's `char::is_ascii_whitespace` defines it:
/// space, tab, line feed, form feed and carriage return.
pub open spec fn is_space(c: char) -> bool {
    c == ' ' || c == '\t' || c == '\n' || c == '\x0C' || c == '\r'
}

/// An ASCII decimal digit.
pub open spec fn is_digit(c: char) -> bool {
    '0' <= c && c <= '9'
}

/// The value of an ASCII decimal digit.
pub open spec fn digit_value(c: char) -> u8
    recommends
        is_digit(c),
{
    (c as u32 - '0' as u32) as u8
}

pub fn space(c: char) -> (r: bool)
    ensures
        r == is_space(c),
{
    c == ' ' || c == '\t' || c == '\n' || c == '\x0C' || c == '\r'
}

pub fn digit(c: char) -> (r: bool)
    ensures
        r == is_digit(c),
{
    '0' <= c && c <= '9'
}

/// The characters of `text`, in order, as an indexable buffer.
pub fn char_buffer(text: &str) -> (r: Vec<char>)
    ensures
        r@ == text@,
{
    let mut buf: Vec<char> = Vec::new();
    for c in it: text.chars()
        invariant
            buf@ == it.seq().take(it.index() as int),
    {
        buf.push(c);
    }
    buf
}

} // verus!
