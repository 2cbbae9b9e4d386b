//! Owned byte strings and their comparison.

use vstd::prelude::*;

verus! {

/// `Box::<[u8]>::from(&[u8])`: allocates a box of the slice's length and
/// copies the slice into it.
#[verifier::external_body]
pub(crate) fn boxed_copy(bytes: &[u8]) -> (boxed: Box<[u8]>)
    ensures
        boxed@ == bytes@,
{
    Box::from(bytes)
}

/// `Vec::into_boxed_slice`: the vector's elements, in order, as a boxed
/// slice; spare capacity is dropped.
#[verifier::external_body]
pub(crate) fn into_boxed<T>(items: Vec<T>) -> (boxed: Box<[T]>)
    ensures
        boxed@ == items@,
{
    items.into_boxed_slice()
}

/// Whether `left` and `right` hold the same bytes.
pub fn same_bytes(left: &[u8], right: &[u8]) -> (same: bool)
    ensures
        same <==> left@ == right@,
{
    if left.len() != right.len() {
        return false;
    }
    let mut i: usize = 0;
    while i < left.len()
        invariant
            i <= left@.len(),
            left@.len() == right@.len(),
            forall|j: int| 0 <= j < i ==> left@[j] == right@[j],
        decreases left@.len() - i,
    {
        if left[i] != right[i] {
            return false;
        }
        i += 1;
    }
    assert(left@ =~= right@);
    true
}

/// Writes `bytes` over the bytes of `out` from position `at` on.
pub fn copy_into(out: &mut [u8], at: usize, bytes: &[u8])
    requires
        at + bytes@.len() <= old(out)@.len(),
    ensures
        final(out)@ == old(out)@.subrange(0, at as int) + bytes@ + old(out)@.subrange(
            at + bytes@.len(),
            old(out)@.len() as int,
        ),
{
    let total = out.len();
    let mut i: usize = 0;
    while i < bytes.len()
        invariant
            i <= bytes@.len(),
            at + bytes@.len() <= old(out)@.len(),
            out@.len() == old(out)@.len(),
            out@.len() == total,
            forall|j: int| 0 <= j < at ==> out@[j] == old(out)@[j],
            forall|j: int| 0 <= j < i ==> out@[at + j] == bytes@[j],
            forall|j: int| at + i <= j < out@.len() ==> out@[j] == old(out)@[j],
        decreases bytes@.len() - i,
    {
        out[at + i] = bytes[i];
        i += 1;
    }
    assert(out@ =~= old(out)@.subrange(0, at as int) + bytes@ + old(out)@.subrange(
        at + bytes@.len(),
        old(out)@.len() as int,
    ));
}

} // verus!
