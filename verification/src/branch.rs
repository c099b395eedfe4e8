//! Tree nodes, and the fixed-capacity arrays of children that internal nodes
//! keep in `arrayvec::ArrayVec`.
//!
//! A node's children are nodes again, and Verus does not accept a type that
//! recurs through an outside collection. [`Branch`] therefore hides its
//! array from Verus altogether: [`branch_children`] names what it holds, and
//! every function on it states, without proof, what one method of
//! `ArrayVec` (or of `Arc`) does to that sequence.

use arrayvec::ArrayVec;
use std::sync::Arc;
use vstd::prelude::*;
use crate::leaf::share;

verus! {

/// A subtree: children, elements, or nothing at all.
#[derive(Debug)]
pub enum Node {
    /// Up to 32 children, shared by reference.
    Internal(Arc<Branch>),
    /// Up to 32 elements, shared by reference.
    External(Arc<ArrayVec<usize, 32>>),
    /// No subtree: the root of a tree that holds nothing.
    Empty,
}

impl Clone for Node {
    /// Another handle on the same subtree: the pointer is duplicated, the
    /// node behind it is not.
    fn clone(&self) -> (other: Self)
        ensures
            other == *self,
    {
        match self {
            Node::Internal(b) => Node::Internal(share(b)),
            Node::External(l) => Node::External(share(l)),
            Node::Empty => Node::Empty,
        }
    }
}

/// The children of an internal node.
#[verifier::external_body]
#[derive(Debug)]
pub struct Branch {
    slots: ArrayVec<Node, 32>,
}

/// The children that a branch holds, first to last.
pub uninterp spec fn branch_children(branch: Branch) -> Seq<Node>;

impl Clone for Branch {
    /// `ArrayVec::clone`: a branch of its own with a handle on each of the
    /// same children, in the same order.
    #[verifier::external_body]
    fn clone(&self) -> (other: Self)
        ensures
            branch_children(other) == branch_children(*self),
    {
        Branch { slots: self.slots.clone() }
    }
}

/// `ArrayVec::new`: a branch without children.
#[verifier::external_body]
pub(crate) fn branch_new() -> (branch: Branch)
    ensures
        branch_children(branch) == Seq::<Node>::empty(),
{
    Branch { slots: ArrayVec::new() }
}

/// `ArrayVec::len`: the number of children.
#[verifier::external_body]
pub(crate) fn branch_len(branch: &Branch) -> (n: usize)
    ensures
        n == branch_children(*branch).len(),
{
    branch.slots.len()
}

/// `ArrayVec::push`: appends `child`. The method panics on a full array, so
/// a free slot is required.
#[verifier::external_body]
pub(crate) fn branch_push(branch: &mut Branch, child: Node)
    requires
        branch_children(*old(branch)).len() < 32,
    ensures
        branch_children(*final(branch)) == branch_children(*old(branch)).push(child),
{
    branch.slots.push(child)
}

/// `ArrayVec::pop`: removes the last child and returns it, or returns `None`
/// and changes nothing when there is no child.
#[verifier::external_body]
pub(crate) fn branch_pop(branch: &mut Branch) -> (last: Option<Node>)
    ensures
        match last {
            Some(child) => branch_children(*old(branch)).len() > 0 && child == branch_children(
                *old(branch),
            ).last() && branch_children(*final(branch)) == branch_children(
                *old(branch),
            ).drop_last(),
            None => branch_children(*old(branch)).len() == 0 && branch_children(*final(branch))
                == branch_children(*old(branch)),
        },
{
    branch.slots.pop()
}

/// Indexing through `ArrayVec`'s `Deref` to a slice: a reference to the
/// child at `i`. Out of bounds it panics, so `i` is required in bounds.
#[verifier::external_body]
pub(crate) fn branch_get(branch: &Branch, i: usize) -> (child: &Node)
    requires
        i < branch_children(*branch).len(),
    ensures
        *child == branch_children(*branch)[i as int],
{
    &branch.slots[i]
}

/// Indexing through `ArrayVec`'s `DerefMut` to a slice: a mutable reference
/// to the child at `i`; what is written through it is what the branch then
/// holds at `i`, all else unchanged. Out of bounds it panics.
#[verifier::external_body]
pub(crate) fn branch_slot(branch: &mut Branch, i: usize) -> (child: &mut Node)
    requires
        i < branch_children(*old(branch)).len(),
    ensures
        *child == branch_children(*old(branch))[i as int],
        branch_children(*final(branch)) == branch_children(*old(branch)).update(
            i as int,
            *final(child),
        ),
{
    &mut branch.slots[i]
}

/// `Arc::make_mut` on a branch: a mutable reference to the branch behind the
/// pointer. Where other pointers share the branch it is first duplicated
/// with its `clone`, which keeps the children; either way the reference
/// starts out with the same children, and the pointer ends up holding
/// whatever is written through it.
#[verifier::external_body]
pub(crate) fn branch_unshare(shared: &mut Arc<Branch>) -> (branch: &mut Branch)
    ensures
        branch_children(*branch) == branch_children(**old(shared)),
        **final(shared) == *final(branch),
{
    Arc::make_mut(shared)
}

} // verus!
