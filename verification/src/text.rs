//! Small helpers for carrying label text as character sequences.

use vstd::prelude::*;

verus! {

use vstd::std_specs::iter::IteratorSpec;

broadcast use vstd::string::axiom_spec_iter, vstd::string::next_postcondition;

/// Collects the characters of a string slice into a vector, in order.
pub fn chars_of(s: &str) -> (r: Vec<char>)
    ensures
        r@ == s@,
{
    let mut it = s.chars();
    let mut out: Vec<char> = Vec::new();
    loop
        invariant
            out@ + it.remaining() == s@,
            it.decrease() is Some,
        ensures
            out@ == s@,
        decreases it.decrease()->0,
    {
        match it.next() {
            Some(c) => {
                out.push(c);
                proof {
                    assert(out@ + it.remaining() =~= s@);
                }
            },
            None => {
                proof {
                    assert(out@ + it.remaining() =~= out@);
                }
                break ;
            },
        }
    }
    out
}

/// Relies on `char::from_u32` of std: it returns the character with the
/// given scalar value exactly when the value is a Unicode scalar value
/// (not a surrogate, not above the maximum), and `None` otherwise.
#[verifier::external_body]
pub(crate) fn char_from_u32(v: u32) -> (r: Option<char>)
    ensures
        match r {
            Some(c) => c as u32 == v,
            None => 0xD800 <= v < 0xE000 || v > 0x10FFFF,
        },
{
    char::from_u32(v)
}

/// A character's scalar value lies in the Unicode scalar range, and the
/// wider casts agree with the 32-bit one.
pub(crate) proof fn lemma_char_scalar(ch: char)
    ensures
        ch as u32 <= 0x10FFFF,
        !(0xD800 <= (ch as u32) && (ch as u32) < 0xE000),
        ch as u64 == (ch as u32) as u64,
{
}

/// Characters with equal scalar values are equal.
pub(crate) proof fn lemma_char_inj(c1: char, c2: char)
    requires
        c1 as u32 == c2 as u32,
    ensures
        c1 == c2,
{
}

} // verus!
