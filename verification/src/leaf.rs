//! Leaf buffers: fixed-capacity arrays of elements, kept in `arrayvec::ArrayVec`.
//!
//! Verus does not look inside an `ArrayVec`. What a buffer holds is named by
//! [`leaf_items`], and every function here states, without proof, what one
//! method of `ArrayVec` (or of `Arc`) does to that sequence.

use arrayvec::ArrayVec;
use std::sync::Arc;
use vstd::prelude::*;

verus! {

#[verifier::external_type_specification]
#[verifier::external_body]
#[verifier::reject_recursive_types(T)]
pub struct ExArrayVec<T, const CAP: usize>(ArrayVec<T, CAP>);

/// The elements that a leaf buffer holds, first to last.
pub uninterp spec fn leaf_items(buf: ArrayVec<usize, 32>) -> Seq<usize>;

/// `ArrayVec::new`: a buffer that holds nothing.
#[verifier::external_body]
pub(crate) fn leaf_new() -> (buf: ArrayVec<usize, 32>)
    ensures
        leaf_items(buf) == Seq::<usize>::empty(),
{
    ArrayVec::new()
}

/// `ArrayVec::len`: the number of elements held.
#[verifier::external_body]
pub(crate) fn leaf_len(buf: &ArrayVec<usize, 32>) -> (n: usize)
    ensures
        n == leaf_items(*buf).len(),
{
    buf.len()
}

/// `ArrayVec::push`: appends `value`. The method panics on a full buffer, so
/// a free slot is required.
#[verifier::external_body]
pub(crate) fn leaf_push(buf: &mut ArrayVec<usize, 32>, value: usize)
    requires
        leaf_items(*old(buf)).len() < 32,
    ensures
        leaf_items(*final(buf)) == leaf_items(*old(buf)).push(value),
{
    buf.push(value)
}

/// `ArrayVec::pop`: removes the last element and returns it, or returns
/// `None` and changes nothing when the buffer is empty.
#[verifier::external_body]
pub(crate) fn leaf_pop(buf: &mut ArrayVec<usize, 32>) -> (last: Option<usize>)
    ensures
        match last {
            Some(v) => leaf_items(*old(buf)).len() > 0 && v == leaf_items(*old(buf)).last()
                && leaf_items(*final(buf)) == leaf_items(*old(buf)).drop_last(),
            None => leaf_items(*old(buf)).len() == 0 && leaf_items(*final(buf)) == leaf_items(
                *old(buf),
            ),
        },
{
    buf.pop()
}

/// Indexing through `ArrayVec`'s `Deref` to a slice: a reference to the
/// element at `i`. Out of bounds it panics, so `i` is required in bounds.
#[verifier::external_body]
pub(crate) fn leaf_get(buf: &ArrayVec<usize, 32>, i: usize) -> (elem: &usize)
    requires
        i < leaf_items(*buf).len(),
    ensures
        *elem == leaf_items(*buf)[i as int],
{
    &buf[i]
}

/// Indexing through `ArrayVec`'s `DerefMut` to a slice: a mutable reference
/// to the element at `i`; what is written through it is what the buffer then
/// holds at `i`, all else unchanged. Out of bounds it panics.
#[verifier::external_body]
pub(crate) fn leaf_slot(buf: &mut ArrayVec<usize, 32>, i: usize) -> (elem: &mut usize)
    requires
        i < leaf_items(*old(buf)).len(),
    ensures
        *elem == leaf_items(*old(buf))[i as int],
        leaf_items(*final(buf)) == leaf_items(*old(buf)).update(i as int, *final(elem)),
{
    &mut buf[i]
}

/// `Arc::make_mut` on a leaf: a mutable reference to the buffer behind the
/// pointer. Where other pointers share the buffer it is first duplicated
/// with `ArrayVec::clone`, which keeps the elements; either way the
/// reference starts out with the same elements, and the pointer ends up
/// holding whatever is written through it.
#[verifier::external_body]
pub(crate) fn leaf_unshare(shared: &mut Arc<ArrayVec<usize, 32>>) -> (buf: &mut ArrayVec<
    usize,
    32,
>)
    ensures
        leaf_items(*buf) == leaf_items(**old(shared)),
        **final(shared) == *final(buf),
{
    Arc::make_mut(shared)
}

/// `Arc::clone`: one more pointer to the same value.
#[verifier::external_body]
pub(crate) fn share<T>(shared: &Arc<T>) -> (other: Arc<T>)
    ensures
        *other == **shared,
{
    Arc::clone(shared)
}

} // verus!
