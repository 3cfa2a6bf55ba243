//! Conversions between strings and sequences of characters.

use vstd::prelude::*;

verus! {

/// The characters of `s`, in order.
pub fn string_to_charvec(s: &String) -> (chars: Vec<char>)
    ensures
        chars@ == s@,
{
    let mut chars: Vec<char> = Vec::new();
    for c in it: s.as_str().chars()
        invariant
            it.seq() == s@,
            chars@ == s@.take(it.index()),
    {
        chars.push(c);
    }
    chars
}

/// The string made of the characters of `s`, in order.
pub fn charvec_to_string(s: &Vec<char>) -> (text: String)
    ensures
        text@ == s@,
{
    let mut text = String::new();
    let mut i: usize = 0;
    while i < s.len()
        invariant
            i <= s.len(),
            text@ == s@.take(i as int),
        decreases s.len() - i,
    {
        text.push(s[i]);
        i += 1;
    }
    text
}

/// The part of a sequence that starts at `start` and holds at most `len`
/// items, cut off where the sequence ends.
pub open spec fn window<T>(s: Seq<T>, start: int, len: int) -> Seq<T>
    recommends
        0 <= start,
        0 <= len,
{
    let from = if start <= s.len() { start } else { s.len() as int };
    let to = if start + len <= s.len() { start + len } else { s.len() as int };
    s.subrange(from, to)
}

/// At most `len` characters of `s`, starting with the one at `start`.
pub fn substr(s: &String, start: usize, len: usize) -> (part: String)
    ensures
        part@ == window(s@, start as int, len as int),
{
    let mut part = String::new();
    let mut skipped: usize = 0;
    let mut taken: usize = 0;
    for c in it: s.as_str().chars()
        invariant
            it.seq() == s@,
            skipped <= start,
            taken <= len,
            skipped == if it.index() <= start { it.index() } else { start as int },
            taken == if it.index() <= start {
                0
            } else if it.index() - start <= len {
                it.index() - start
            } else {
                len as int
            },
            part@ == window(s@.take(it.index()), start as int, len as int),
    {
        if skipped < start {
            skipped += 1;
        } else if taken < len {
            part.push(c);
            taken += 1;
        }
        assert(part@ =~= window(s@.take(it.index() + 1), start as int, len as int));
    }
    assert(s@.take(s@.len() as int) =~= s@);
    part
}

} // verus!
