//! Between strings and vectors of characters.

use vstd::prelude::*;

verus! {

/// The characters of a string.
pub fn chars_of(s: &str) -> (v: Vec<char>)
    ensures
        v@ == s@,
{
    let mut v: Vec<char> = Vec::new();
    for c in iter: s.chars()
        invariant
            iter.seq() == s@,
            v@ == s@.subrange(0, iter.index() as int),
    {
        v.push(c);
        assert(v@ =~= s@.subrange(0, iter.index() + 1));
    }
    assert(s@.subrange(0, s@.len() as int) =~= s@);
    v
}

} // verus!

verus! {

/// `String::push` of the standard library puts one character at the end
/// of the string and leaves the characters before it as they are.
pub assume_specification[ String::push ](s: &mut String, ch: char)
    ensures
        final(s)@ == old(s)@.push(ch),
;

/// The string of the given characters.
pub fn string_of(v: &Vec<char>) -> (s: String)
    ensures
        s@ == v@,
{
    let mut s = String::new();
    let mut i: usize = 0;
    assert(s@ =~= v@.subrange(0, 0));
    while i < v.len()
        invariant
            i <= v@.len(),
            s@ == v@.subrange(0, i as int),
        decreases v@.len() - i,
    {
        s.push(v[i]);
        i += 1;
        assert(s@ =~= v@.subrange(0, i as int));
    }
    assert(v@.subrange(0, i as int) =~= v@);
    s
}

} // verus!
