use vstd::prelude::*;

verus! {

broadcast use vstd::string::next_postcondition, vstd::string::axiom_spec_iter;

use vstd::std_specs::iter::IteratorSpec;

/// Collects the characters of a string slice into a vector, one cell per
/// `char`, by walking the standard `Chars` iterator.
pub fn chars_of(s: &str) -> (r: Vec<char>)
    ensures
        r@ == s@,
{
    let mut it = s.chars();
    let mut out: Vec<char> = Vec::new();
    loop
        invariant
            out@ + it.remaining() == s@,
            out@.len() <= s@.len(),
        ensures
            out@ == s@,
        decreases s@.len() - out@.len(),
    {
        match it.next() {
            Some(c) => {
                out.push(c);
                proof {
                    assert(out@ + it.remaining() =~= s@);
                }
            },
            None => {
                proof {
                    assert(it.remaining().len() == 0);
                    assert(out@ =~= s@);
                }
                break;
            },
        }
    }
    out
}

/// Relies on `String`'s `FromIterator` impl: collecting an in-order
/// iterator over characters yields the string of exactly those characters.
#[verifier::external_body]
pub(crate) fn string_from_chars(v: &Vec<char>) -> (r: String)
    ensures
        r@ == v@,
{
    v.iter().collect()
}

} // verus!
