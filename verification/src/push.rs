//! Appending to a vector.

use vstd::prelude::*;

verus! {

/// Appends `val` to `vec`.
pub fn push_wo_grow<T>(vec: &mut Vec<T>, val: T)
    ensures
        final(vec)@ == old(vec)@.push(val),
{
    vec.push(val);
}

} // verus!
