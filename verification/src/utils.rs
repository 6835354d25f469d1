//! Small helpers shared across the crate.

use vstd::prelude::*;
use vstd::std_specs::iter::IteratorSpec;

verus! {

/// A vector holding `y` copies of `x`: every element is a clone of
/// the argument (equal to it whenever the type's clone is).
pub fn repeat<T: Clone>(x: T, y: u8) -> (r: Vec<T>)
    ensures
        r@.len() == y as int,
        forall|k: int| 0 <= k < y as int ==> cloned::<T>(x, #[trigger] r@[k]),
{
    let mut r: Vec<T> = Vec::new();
    let mut i: u8 = 0;
    while i < y
        invariant
            i <= y,
            r@.len() == i as int,
            forall|k: int| 0 <= k < i as int ==> cloned::<T>(x, #[trigger] r@[k]),
        decreases y - i,
    {
        r.push(x.clone());
        i = i + 1;
    }
    r
}

/// The characters of a string, as an indexable vector.
pub fn collect_chars(s: &str) -> (v: Vec<char>)
    ensures
        v@ == s@,
{
    broadcast use vstd::string::axiom_spec_iter;
    broadcast use vstd::string::next_postcondition;

    let mut it = s.chars();
    let mut v: Vec<char> = Vec::new();
    loop
        invariant
            it.obeys_prophetic_iter_laws(),
            it.decrease() is Some,
            v@ + it.remaining() == s@,
        ensures
            v@ == s@,
        decreases it.decrease()->0,
    {
        match it.next() {
            Some(c) => {
                v.push(c);
                proof {
                    assert(v@ + it.remaining() =~= s@);
                }
            }
            None => {
                proof {
                    assert(v@ =~= s@);
                }
                break;
            }
        }
    }
    v
}

} // verus!
