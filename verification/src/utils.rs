use vstd::prelude::*;
use crate::text::{ends_with, is_suffix};

verus! {

/// Whether `s` ends in one of the given suffixes.
pub fn str_ends_with_any(s: &str, suffixes: Vec<&str>) -> (r: bool)
    ensures
        r == exists|i: int| 0 <= i < suffixes@.len() && is_suffix(suffixes@[i]@, s@),
{
    let mut i: usize = 0;
    while i < suffixes.len()
        invariant
            i <= suffixes.len(),
            forall|k: int| 0 <= k < i ==> !is_suffix(suffixes@[k]@, s@),
        decreases suffixes.len() - i,
    {
        if ends_with(s, suffixes[i]) {
            return true;
        }
        i += 1;
    }
    false
}

} // verus!
