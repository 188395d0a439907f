//! Miscellaneous utility functions.

use vstd::prelude::*;

verus! {

/// Owned copies of string slices, in their order.
pub fn string_vec(strs: Vec<&str>) -> (strings: Vec<String>)
    ensures
        strings@.len() == strs@.len(),
        forall|i: int| 0 <= i < strs@.len() ==> (#[trigger] strings@[i])@ == strs@[i]@,
{
    let mut strings: Vec<String> = Vec::new();
    for k in 0..strs.len()
        invariant
            strings@.len() == k,
            forall|i: int| 0 <= i < k ==> (#[trigger] strings@[i])@ == strs@[i]@,
    {
        strings.push(strs[k].to_owned());
    }
    strings
}

} // verus!
