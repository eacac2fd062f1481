//! Character-level helpers: uppercasing, lexicographic order on character
//! sequences, and conversion from string slices to character vectors.

use vstd::prelude::*;

verus! {

/// The uppercase form of one character: an ASCII lowercase letter is mapped
/// to its uppercase counterpart, every other character is unchanged.
pub open spec fn upper_char(c: char) -> char {
    if 'a' <= c && c <= 'z' {
        ((c as u8) - 32) as char
    } else {
        c
    }
}

/// A character sequence uppercased character by character.
pub open spec fn upper_seq(s: Seq<char>) -> Seq<char> {
    s.map_values(|c: char| upper_char(c))
}

/// Strict lexicographic order on character sequences, by code point, with a
/// proper prefix ordered before its extensions.
pub open spec fn lex_lt(a: Seq<char>, b: Seq<char>) -> bool
    decreases a.len(),
{
    if b.len() == 0 {
        false
    } else if a.len() == 0 {
        true
    } else if a[0] != b[0] {
        (a[0] as u32) < (b[0] as u32)
    } else {
        lex_lt(a.skip(1), b.skip(1))
    }
}

/// Uppercasing one character, executably.
pub fn upper_char_exec(c: char) -> (r: char)
    ensures
        r == upper_char(c),
{
    if 'a' <= c && c <= 'z' {
        ((c as u8) - 32) as char
    } else {
        c
    }
}

/// Uppercasing a sequence never produces a lowercase letter, so doing it
/// twice is the same as doing it once.
pub proof fn lemma_upper_seq_idempotent(s: Seq<char>)
    ensures
        upper_seq(upper_seq(s)) == upper_seq(s),
{
    assert(upper_seq(upper_seq(s)) =~= upper_seq(s));
}

/// Relies on String::push: it appends exactly one character at the end.
#[verifier::external_body]
pub(crate) fn push_char(s: &mut String, c: char)
    ensures
        final(s)@ == old(s)@.push(c),
{
    s.push(c);
}

/// An empty string.
pub fn new_string() -> (s: String)
    ensures
        s@ == Seq::<char>::empty(),
{
    let s = String::from_str("");
    proof {
        reveal_strlit("");
        assert(s@ =~= Seq::<char>::empty());
    }
    s
}

/// A string uppercased character by character.
pub fn upper_string(w: &str) -> (r: String)
    ensures
        r@ == upper_seq(w@),
{
    let n = w.unicode_len();
    let mut out = new_string();
    for i in 0..n
        invariant
            n == w@.len(),
            out@ == upper_seq(w@.take(i as int)),
    {
        push_char(&mut out, upper_char_exec(w.get_char(i)));
        proof {
            assert(upper_seq(w@.take(i as int)).push(upper_char(w@[i as int])) =~= upper_seq(
                w@.take(i + 1),
            ));
        }
    }
    proof {
        assert(w@.take(n as int) =~= w@);
    }
    out
}

/// The characters of a string slice, collected into a vector.
pub fn charvec(word: &str) -> (r: Vec<char>)
    ensures
        r@ == word@,
{
    let n = word.unicode_len();
    let mut out: Vec<char> = Vec::new();
    for i in 0..n
        invariant
            n == word@.len(),
            out@ == word@.take(i as int),
    {
        out.push(word.get_char(i));
        proof {
            assert(out@ =~= word@.take(i + 1));
        }
    }
    proof {
        assert(out@ =~= word@);
    }
    out
}

} // verus!
