//! Choosing among candidates by a per-candidate compatibility flag, as done
//! for adapters against a surface and for surface texture formats.

use vstd::prelude::*;

verus! {

/// Index of the first compatible candidate, if any.
pub fn first_compatible(compatible: &Vec<bool>) -> (r: Option<usize>)
    ensures
        match r {
            Some(i) => {
                &&& i < compatible@.len()
                &&& compatible@[i as int]
                &&& forall|j: int| 0 <= j < i ==> !#[trigger] compatible@[j]
            },
            None => forall|j: int| 0 <= j < compatible@.len() ==> !#[trigger] compatible@[j],
        },
{
    let mut i: usize = 0;
    while i < compatible.len()
        invariant
            i <= compatible@.len(),
            forall|j: int| 0 <= j < i ==> !#[trigger] compatible@[j],
        decreases compatible@.len() - i,
    {
        if compatible[i] {
            return Some(i);
        }
        i = i + 1;
    }
    None
}

} // verus!
