use vstd::prelude::*;

verus! {

/// `Vec::capacity`: the number of elements the vector can hold without
/// allocating again. How much was allocated is up to the allocator; the one thing
/// std documents of it, and all that is claimed here, is that it is never less
/// than the vector's length.
#[verifier::external_body]
pub(crate) fn vec_capacity<T>(v: &Vec<T>) -> (c: usize)
    ensures
        c >= v@.len(),
{
    v.capacity()
}

} // verus!
