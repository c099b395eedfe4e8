//! What a subtree holds and what shape it has, as functions of the node and
//! of its depth, with the lemmas that locate an element under a child.

use vstd::arithmetic::div_mod::{
    lemma_fundamental_div_mod_converse,
    lemma_mod_multiples_basic,
};
use vstd::prelude::*;
use crate::branch::{branch_children, Node};
use crate::index::{capacity, lemma_capacity};
use crate::leaf::leaf_items;

verus! {

/// The children of an internal node; no children for any other node.
pub open spec fn children_of(node: Node) -> Seq<Node> {
    match node {
        Node::Internal(b) => branch_children(*b),
        _ => Seq::empty(),
    }
}

/// The elements under `node`, left to right, where `depth` is the number
/// of internal levels between the node and its leaves.
pub open spec fn items(node: Node, depth: nat) -> Seq<usize>
    decreases depth, 0nat, 0nat,
{
    match node {
        Node::Internal(_) => if depth == 0 {
            Seq::empty()
        } else {
            items_of(children_of(node), (depth - 1) as nat)
        },
        Node::External(l) => leaf_items(*l),
        Node::Empty => Seq::empty(),
    }
}

/// The elements under a row of sibling nodes of the given depth, left to
/// right.
pub open spec fn items_of(children: Seq<Node>, depth: nat) -> Seq<usize>
    decreases depth, 1nat, children.len(),
{
    if children.len() == 0 {
        Seq::empty()
    } else {
        items_of(children.drop_last(), depth) + items(children.last(), depth)
    }
}

/// A left-packed subtree of the given depth: every leaf is full, every
/// internal node has at least one child, and only the rightmost child of
/// an internal node may have room left in it.
pub open spec fn packed(node: Node, depth: nat) -> bool
    decreases depth, 0nat,
{
    match node {
        Node::Internal(_) => depth > 0 && packed_row(children_of(node), (depth - 1) as nat),
        Node::External(l) => depth == 0 && leaf_items(*l).len() == 32,
        Node::Empty => false,
    }
}

/// The children of a left-packed internal node: between 1 and 32 packed
/// subtrees of the given depth, all but the last of them full.
pub open spec fn packed_row(children: Seq<Node>, depth: nat) -> bool
    decreases depth, 1nat,
{
    &&& 1 <= children.len() <= 32
    &&& forall|i: int| 0 <= i < children.len() ==> packed(#[trigger] children[i], depth)
    &&& forall|i: int|
        0 <= i < children.len() - 1 ==> (#[trigger] items(children[i], depth)).len() == capacity(
            depth,
        )
}

/// Appending a child appends its elements.
pub proof fn lemma_items_of_push(children: Seq<Node>, child: Node, depth: nat)
    ensures
        items_of(children.push(child), depth) == items_of(children, depth) + items(child, depth),
{
    assert(children.push(child).drop_last() =~= children);
}

/// Replacing the last child replaces its elements.
pub proof fn lemma_items_of_update_last(children: Seq<Node>, child: Node, depth: nat)
    requires
        children.len() > 0,
    ensures
        items_of(children.update(children.len() - 1, child), depth) == items_of(
            children.drop_last(),
            depth,
        ) + items(child, depth),
{
    assert(children.update(children.len() - 1, child).drop_last() =~= children.drop_last());
}

/// A row of full subtrees holds as many elements as its length times the
/// capacity of one.
pub proof fn lemma_items_of_full(children: Seq<Node>, depth: nat)
    requires
        forall|i: int|
            0 <= i < children.len() ==> (#[trigger] items(children[i], depth)).len() == capacity(
                depth,
            ),
    ensures
        items_of(children, depth).len() == children.len() * capacity(depth),
    decreases children.len(),
{
    if children.len() > 0 {
        let front: Seq<Node> = children.drop_last();
        assert forall|i: int| 0 <= i < front.len() implies (#[trigger] items(
            front[i],
            depth,
        )).len() == capacity(depth) by {
            assert(front[i] == children[i]);
        }
        lemma_items_of_full(front, depth);
        assert(items(children.last(), depth).len() == capacity(depth));
        assert(children.len() * capacity(depth) == front.len() * capacity(depth) + capacity(
            depth,
        )) by (nonlinear_arith)
            requires
                children.len() == front.len() + 1,
        ;
    }
}

/// A packed subtree holds at least one leaf, no more than its capacity,
/// and whole leaves only.
pub proof fn lemma_packed_len(node: Node, depth: nat)
    requires
        packed(node, depth),
    ensures
        32 <= items(node, depth).len() <= capacity(depth),
        items(node, depth).len() % 32 == 0,
    decreases depth, 0nat,
{
    lemma_capacity(depth);
    if node is Internal {
        lemma_packed_row_len(children_of(node), (depth - 1) as nat);
    }
}

/// A packed row holds its full children and then what its last child
/// holds; that is at least one leaf, no more than the parent's capacity,
/// and whole leaves only.
pub proof fn lemma_packed_row_len(children: Seq<Node>, depth: nat)
    requires
        packed_row(children, depth),
    ensures
        items_of(children, depth).len() == (children.len() - 1) * capacity(depth) + items(
            children.last(),
            depth,
        ).len(),
        items_of(children.drop_last(), depth).len() == (children.len() - 1) * capacity(depth),
        32 <= items(children.last(), depth).len() <= capacity(depth),
        32 <= items_of(children, depth).len() <= capacity(depth + 1),
        items_of(children, depth).len() % 32 == 0,
    decreases depth, 1nat,
{
    let front: Seq<Node> = children.drop_last();
    let cap: int = capacity(depth) as int;
    assert forall|i: int| 0 <= i < front.len() implies (#[trigger] items(front[i], depth)).len()
        == capacity(depth) by {
        assert(front[i] == children[i]);
    }
    lemma_items_of_full(front, depth);
    assert(packed(children[children.len() - 1], depth));
    lemma_packed_len(children.last(), depth);
    lemma_capacity(depth);
    let n: int = children.len() as int;
    assert((n - 1) * cap + cap <= 32 * cap) by (nonlinear_arith)
        requires
            1 <= n <= 32,
            cap >= 0,
    ;
    assert((n - 1) * cap >= 0) by (nonlinear_arith)
        requires
            1 <= n,
            cap >= 0,
    ;
    lemma_whole_leaves(n - 1, depth);
}

/// Any number of full subtrees holds a whole number of leaves.
pub proof fn lemma_whole_leaves(count: int, depth: nat)
    ensures
        (count * capacity(depth)) % 32 == 0,
{
    let below: int = if depth == 0 {
        1
    } else {
        capacity((depth - 1) as nat) as int
    };
    lemma_capacity(depth);
    if depth > 0 {
        lemma_capacity((depth - 1) as nat);
    }
    assert(count * capacity(depth) == (count * below) * 32) by (nonlinear_arith)
        requires
            capacity(depth) == 32 * below,
    ;
    lemma_mod_multiples_basic(count * below, 32);
}

/// A packed row is full exactly when it has 32 children and the last of
/// them is full.
pub proof fn lemma_packed_row_full(children: Seq<Node>, depth: nat)
    requires
        packed_row(children, depth),
    ensures
        items_of(children, depth).len() == capacity(depth + 1) <==> (children.len() == 32
            && items(children.last(), depth).len() == capacity(depth)),
{
    lemma_packed_row_len(children, depth);
    lemma_capacity(depth);
    let n: int = children.len() as int;
    let cap: int = capacity(depth) as int;
    if n < 32 {
        assert((n - 1) * cap + cap <= 31 * cap) by (nonlinear_arith)
            requires
                1 <= n < 32,
                cap >= 0,
        ;
    }
}

/// The element at position `at` of a packed row lies under the child
/// `at / capacity`, at position `at % capacity` of that child.
pub proof fn lemma_items_of_index(children: Seq<Node>, depth: nat, at: int)
    requires
        packed_row(children, depth),
        0 <= at < items_of(children, depth).len(),
    ensures
        0 <= at / (capacity(depth) as int) < children.len(),
        0 <= at % (capacity(depth) as int) < items(
            children[at / (capacity(depth) as int)],
            depth,
        ).len(),
        items_of(children, depth)[at] == items(children[at / (capacity(depth) as int)], depth)[at
            % (capacity(depth) as int)],
    decreases children.len(),
{
    let cap: int = capacity(depth) as int;
    let n: int = children.len() as int;
    let front: Seq<Node> = children.drop_last();
    lemma_packed_row_len(children, depth);
    lemma_capacity(depth);
    if at >= (n - 1) * cap {
        lemma_fundamental_div_mod_converse(at, cap, n - 1, at - (n - 1) * cap);
    } else {
        assert(n >= 2) by (nonlinear_arith)
            requires
                0 <= at < (n - 1) * cap,
                n >= 1,
        ;
        assert forall|i: int| 0 <= i < front.len() implies #[trigger] packed(front[i], depth) by {
            assert(front[i] == children[i]);
        }
        assert forall|i: int| 0 <= i < front.len() - 1 implies (#[trigger] items(
            front[i],
            depth,
        )).len() == capacity(depth) by {
            assert(front[i] == children[i]);
        }
        lemma_items_of_index(front, depth, at);
        assert(front[at / cap] == children[at / cap]);
    }
}

/// Writing `value` at position `within` of the child at `slot` writes it
/// at position `slot * capacity + within` of the row, and the row stays
/// packed.
pub proof fn lemma_items_of_update(
    children: Seq<Node>,
    depth: nat,
    slot: int,
    child: Node,
    within: int,
    value: usize,
)
    requires
        packed_row(children, depth),
        0 <= slot < children.len(),
        0 <= within < items(children[slot], depth).len(),
        packed(child, depth),
        items(child, depth) == items(children[slot], depth).update(within, value),
    ensures
        packed_row(children.update(slot, child), depth),
        items_of(children.update(slot, child), depth) == items_of(children, depth).update(
            slot * (capacity(depth) as int) + within,
            value,
        ),
    decreases children.len(),
{
    let cap: int = capacity(depth) as int;
    let n: int = children.len() as int;
    let front: Seq<Node> = children.drop_last();
    let after: Seq<Node> = children.update(slot, child);
    lemma_packed_row_len(children, depth);
    assert forall|i: int| 0 <= i < after.len() implies #[trigger] packed(after[i], depth) by {
        if i != slot {
            assert(after[i] == children[i]);
            assert(packed(children[i], depth));
        }
    }
    assert forall|i: int| 0 <= i < after.len() - 1 implies (#[trigger] items(
        after[i],
        depth,
    )).len() == capacity(depth) by {
        if i != slot {
            assert(after[i] == children[i]);
        }
        assert(items(children[i], depth).len() == capacity(depth));
    }
    if slot == n - 1 {
        lemma_items_of_update_last(children, child, depth);
        assert(items_of(after, depth) =~= items_of(children, depth).update(
            slot * cap + within,
            value,
        ));
    } else {
        assert(after.drop_last() =~= front.update(slot, child));
        assert(after.last() == children.last());
        assert forall|i: int| 0 <= i < front.len() implies #[trigger] packed(front[i], depth) by {
            assert(front[i] == children[i]);
        }
        assert forall|i: int| 0 <= i < front.len() - 1 implies (#[trigger] items(
            front[i],
            depth,
        )).len() == capacity(depth) by {
            assert(front[i] == children[i]);
        }
        assert(front[slot] == children[slot]);
        lemma_items_of_update(front, depth, slot, child, within, value);
        assert(items(children[slot], depth).len() == capacity(depth));
        assert(slot * cap + within < (n - 1) * cap) by (nonlinear_arith)
            requires
                0 <= slot < n - 1,
                0 <= within < cap,
        ;
        assert(items_of(after, depth) =~= items_of(children, depth).update(
            slot * cap + within,
            value,
        ));
    }
}

} // verus!
