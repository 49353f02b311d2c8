//! Characters and strings: what the standard library is relied on for.
use vstd::prelude::*;

verus! {

/// `String::push`: appends the character.
pub assume_specification[ String::push ](s: &mut String, ch: char)
    ensures
        final(s)@ == old(s)@.push(ch),
;

/// The numbers that are Unicode scalar values.
pub open spec fn is_scalar_value(code: u32) -> bool {
    code <= 0xD7FF || 0xE000 <= code <= 0x10FFFF
}

/// `char::from_u32`: the character of that scalar value, where there is one.
pub assume_specification[ char::from_u32 ](i: u32) -> (r: Option<char>)
    ensures
        match r {
            Some(c) => is_scalar_value(i) && c as u32 == i,
            None => !is_scalar_value(i),
        },
;

/// The scalar value of a character.
pub open spec fn code(c: char) -> u32 {
    c as u32
}

/// A scalar value is at most `0x10FFFF`, and determines the character.
pub proof fn lemma_code(c: char)
    ensures
        code(c) as int == c as int,
        0 <= c as int <= 0x10FFFF,
        is_scalar_value(code(c)),
{
}

/// The scalar value of a character.
pub fn code_of(c: char) -> (r: u32)
    ensures
        r == code(c),
        r as int == c as int,
{
    c as u32
}

/// The characters of `text`.
pub fn chars_of(text: &str) -> (r: Vec<char>)
    ensures
        r@ == text@,
{
    let mut r: Vec<char> = Vec::new();
    for c in it: text.chars()
        invariant
            it.seq() == text@,
            r@ == text@.take(it.index()),
    {
        r.push(c);
        assert(r@ =~= text@.take(it.index() + 1));
    }
    assert(r@ =~= text@);
    r
}

/// A string of the characters `cs`.
pub fn string_of(cs: &Vec<char>) -> (r: String)
    ensures
        r@ == cs@,
{
    let mut r = String::new();
    let mut i: usize = 0;
    while i < cs.len()
        invariant
            i <= cs@.len(),
            r@ == cs@.take(i as int),
        decreases cs.len() - i,
    {
        r.push(cs[i]);
        i += 1;
        assert(r@ =~= cs@.take(i as int));
    }
    assert(r@ =~= cs@);
    r
}


} // verus!
