//! The sequence itself: a root node, the depth of the trie below it, a tail
//! buffer for the most recent elements, and the total length.

use arrayvec::ArrayVec;
use std::sync::Arc;
use vstd::arithmetic::div_mod::{lemma_fundamental_div_mod, lemma_fundamental_div_mod_converse};
use vstd::pervasive::unreached;
use vstd::prelude::*;
use crate::branch::{
    branch_children,
    branch_get,
    branch_len,
    branch_new,
    branch_pop,
    branch_push,
    branch_slot,
    branch_unshare,
    Branch,
    Node,
};
use crate::index::{
    capacity,
    lemma_capacity,
    lemma_capacity_grows,
    lemma_child_slot,
    lemma_index_below,
    lemma_index_within,
    lemma_leaf_slot,
    lemma_room_at_root,
    lemma_shift_fits,
    MASK,
    NODE_SIZE,
    SHIFT,
};
use crate::leaf::{
    leaf_get,
    leaf_items,
    leaf_len,
    leaf_new,
    leaf_pop,
    leaf_push,
    leaf_slot,
    leaf_unshare,
    share,
};
use crate::model::{pop_value, popped, pushed, swap_removed, written};
use crate::tree::{
    children_of,
    items,
    items_of,
    lemma_items_of_index,
    lemma_items_of_push,
    lemma_items_of_update,
    lemma_items_of_update_last,
    lemma_packed_len,
    lemma_packed_row_full,
    lemma_packed_row_len,
    packed,
    packed_row,
};

verus! {

/// A fresh internal node without children.
pub(crate) fn new_internal_node() -> (node: Node)
    ensures
        node is Internal,
        children_of(node) == Seq::<Node>::empty(),
{
    Node::Internal(Arc::new(branch_new()))
}

/// A fresh leaf buffer that holds `value` alone.
pub(crate) fn new_external_node(value: usize) -> (leaf: Arc<ArrayVec<usize, 32>>)
    ensures
        leaf_items(*leaf) == seq![value],
{
    let mut n = leaf_new();
    leaf_push(&mut n, value);
    Arc::new(n)
}

impl Node {
    /// The children of an internal node, for writing: if the node is shared
    /// with another tree it is copied first, so that the write stays with
    /// this one.
    pub(crate) fn make_internal_mut(&mut self) -> (branch: &mut Branch)
        requires
            *old(self) is Internal,
        ensures
            branch_children(*branch) == children_of(*old(self)),
            *final(self) is Internal,
            children_of(*final(self)) == branch_children(*final(branch)),
    {
        match self {
            Node::Internal(n) => branch_unshare(n),
            _ => unreached(),
        }
    }

    /// The buffer of a leaf.
    pub(crate) fn to_external(self) -> (leaf: Arc<ArrayVec<usize, 32>>)
        requires
            self is External,
        ensures
            self == Node::External(leaf),
    {
        match self {
            Node::External(n) => n,
            _ => unreached(),
        }
    }
}

/// The depth that a shift by five bits per level stands for.
pub open spec fn level(shift: usize) -> nat {
    (shift / 5) as nat
}

/// A copy-on-write vector of `usize`.
#[derive(Debug)]
pub struct CowVec {
    root: Node,
    depth: usize,
    tail: Arc<ArrayVec<usize, 32>>,
    len: usize,
}

impl View for CowVec {
    type V = Seq<usize>;

    /// The elements in order: those committed to the trie, then those in
    /// the tail buffer.
    closed spec fn view(&self) -> Seq<usize> {
        self.stored() + self.buffered()
    }
}

impl CowVec {
    /// The elements committed to the trie.
    pub closed spec fn stored(&self) -> Seq<usize> {
        items(self.root, self.depth as nat)
    }

    /// The elements in the tail buffer.
    pub closed spec fn buffered(&self) -> Seq<usize> {
        leaf_items(*self.tail)
    }

    /// The number of internal levels between the root and the leaves.
    pub closed spec fn height(&self) -> nat {
        self.depth as nat
    }

    /// The invariant of the structure: the length counts the trie and the
    /// tail; the tail holds at most 32 elements and is empty only when the
    /// whole vector is; the trie is empty at depth 0 or left-packed at its
    /// depth; and a root above depth 0 has at least two children.
    pub closed spec fn wf(&self) -> bool {
        &&& self.buffered().len() <= 32
        &&& self.len == self.stored().len() + self.buffered().len()
        &&& match self.root {
            Node::Empty => self.depth == 0,
            _ => packed(self.root, self.depth as nat) && self.buffered().len() >= 1,
        }
        &&& self.depth > 0 ==> children_of(self.root).len() >= 2
    }

    /// What the invariant says of the numbers: the trie holds whole leaves,
    /// and its depth leaves room for the shift that routes an index.
    proof fn lemma_wf(&self)
        requires
            self.wf(),
        ensures
            self@.len() == self.len,
            self.stored().len() % 32 == 0,
            self.stored().len() <= capacity(self.depth as nat),
            self.root !is Empty ==> self.stored().len() >= 32,
            self.depth > 0 ==> self.stored().len() > capacity((self.depth - 1) as nat),
            5 * self.depth < usize::BITS,
            5 * self.depth <= usize::MAX,
            level((5 * self.depth) as usize) == self.depth,
    {
        let depth: nat = self.depth as nat;
        lemma_capacity(depth);
        if self.root !is Empty {
            lemma_packed_len(self.root, depth);
        }
        if depth > 0 {
            let row: Seq<Node> = children_of(self.root);
            let below: nat = (depth - 1) as nat;
            lemma_packed_row_len(row, below);
            lemma_capacity(below);
            assert((row.len() - 1) * capacity(below) >= capacity(below)) by (nonlinear_arith)
                requires
                    row.len() >= 2,
            ;
            lemma_shift_fits(self.len, depth);
        }
    }

    /// How the elements are laid out follows from how many there are: the
    /// tail buffer holds the last `(len - 1) % 32 + 1` of them, the trie
    /// holds the whole leaves before those, and the trie is as shallow as
    /// its leaves allow. A trie of a single leaf has depth 0: the leaf is
    /// the root itself, with no internal node above it.
    pub proof fn lemma_layout(&self)
        requires
            self.wf(),
        ensures
            self@ == self.stored() + self.buffered(),
            self@.len() == 0 ==> self.buffered().len() == 0,
            self@.len() > 0 ==> self.buffered().len() == (self@.len() - 1) % 32 + 1,
            self.height() == 0 <==> self.stored().len() <= 32,
            self.height() > 0 ==> capacity((self.height() - 1) as nat) < self.stored().len()
                <= capacity(self.height()),
    {
        self.lemma_wf();
        lemma_capacity(0);
        if self.depth > 0 {
            lemma_capacity((self.depth - 1) as nat);
        }
    }

    /// One element more or less moves the depth of the trie by one level
    /// at most, and never against the direction of the length.
    pub proof fn lemma_height_step(&self, longer: &CowVec)
        requires
            self.wf(),
            longer.wf(),
            longer@.len() == self@.len() + 1,
        ensures
            self.height() <= longer.height() <= self.height() + 1,
    {
        self.lemma_layout();
        longer.lemma_layout();
        self.lemma_wf();
        longer.lemma_wf();
        let low: nat = self.height();
        let high: nat = longer.height();
        lemma_capacity(low);
        lemma_capacity(high);
        assert(longer.stored().len() == self.stored().len() || longer.stored().len()
            == self.stored().len() + 32);
        if high < low {
            lemma_capacity_grows(high, low);
            lemma_capacity((low - 1) as nat);
            if high < low - 1 {
                lemma_capacity_grows(high, (low - 1) as nat);
            }
        }
        if high > low + 1 {
            lemma_capacity_grows(low, (high - 1) as nat);
            lemma_capacity((high - 1) as nat);
        }
    }

    /// An empty vector.
    pub fn new() -> (v: Self)
        ensures
            v.wf(),
            v@ == Seq::<usize>::empty(),
    {
        CowVec { root: Node::Empty, depth: 0, tail: Arc::new(leaf_new()), len: 0 }
    }

    /// The number of elements.
    pub fn len(&self) -> (n: usize)
        requires
            self.wf(),
        ensures
            n == self@.len(),
    {
        proof {
            self.lemma_wf();
        }
        self.len
    }

    /// The index of the first element that lives in the tail buffer.
    fn tail_offset(&self) -> (offset: usize)
        requires
            self.wf(),
        ensures
            offset == self.stored().len(),
    {
        self.len - leaf_len(&self.tail)
    }

    /// A reference to the element at `index`.
    pub fn get(&self, index: usize) -> (elem: &usize)
        requires
            self.wf(),
            index < self@.len(),
        ensures
            *elem == self@[index as int],
    {
        proof {
            self.lemma_wf();
            lemma_leaf_slot(index);
        }
        if index >= self.tail_offset() {
            return leaf_get(&self.tail, index & MASK);
        }
        proof {
            lemma_index_below(index, self.stored().len(), self.depth as nat);
        }
        Self::get_external(&self.root, index, self.depth * SHIFT)
    }

    /// The element under `node` to which `index` routes, where `shift` is
    /// five times the depth of `node`.
    fn get_external(node: &Node, index: usize, shift: usize) -> (elem: &usize)
        requires
            shift == 5 * level(shift),
            shift < usize::BITS,
            packed(*node, level(shift)),
            index as int % (capacity(level(shift)) as int) < items(*node, level(shift)).len(),
        ensures
            *elem == items(*node, level(shift))[index as int % (capacity(level(shift)) as int)],
        decreases shift,
    {
        match node {
            Node::External(n) => {
                proof {
                    lemma_leaf_slot(index);
                }
                leaf_get(n, index & MASK)
            },
            Node::Internal(n) => {
                proof {
                    lemma_index_within(index, level(shift));
                    lemma_child_slot(index, level(shift));
                    lemma_items_of_index(
                        children_of(*node),
                        (level(shift) - 1) as nat,
                        index as int % (capacity(level(shift)) as int),
                    );
                }
                let sub_index: usize = (index >> shift) & MASK;
                Self::get_external(branch_get(n, sub_index), index, shift - SHIFT)
            },
            Node::Empty => unreached(),
        }
    }

    /// A mutable reference to the element at `index`. Every node on the
    /// way to it that another vector shares is copied first, so the write
    /// stays with this vector.
    pub fn get_mut(&mut self, index: usize) -> (elem: &mut usize)
        requires
            old(self).wf(),
            index < old(self)@.len(),
        ensures
            *elem == old(self)@[index as int],
            final(self).wf(),
            final(self)@ == written(old(self)@, index as int, *final(elem)),
    {
        proof {
            self.lemma_wf();
            lemma_leaf_slot(index);
        }
        let ghost stored = self.stored();
        let ghost buffered = self.buffered();
        if index >= self.tail_offset() {
            let elem = leaf_slot(leaf_unshare(&mut self.tail), index & MASK);
            proof {
                assert((stored + buffered).update(index as int, *final(elem)) =~= stored
                    + buffered.update(index - stored.len(), *final(elem)));
            }
            return elem;
        }
        proof {
            lemma_index_below(index, stored.len(), self.depth as nat);
        }
        let elem = Self::get_external_mut(&mut self.root, index, self.depth * SHIFT);
        proof {
            assert((stored + buffered).update(index as int, *final(elem)) =~= stored.update(
                index as int,
                *final(elem),
            ) + buffered);
        }
        elem
    }

    /// The element under `node` to which `index` routes, for writing, where
    /// `shift` is five times the depth of `node`. The nodes on the way are
    /// unshared; the shape of the subtree stays as it is.
    fn get_external_mut(node: &mut Node, index: usize, shift: usize) -> (elem: &mut usize)
        requires
            shift == 5 * level(shift),
            shift < usize::BITS,
            packed(*old(node), level(shift)),
            index as int % (capacity(level(shift)) as int) < items(*old(node), level(shift)).len(),
        ensures
            *elem == items(*old(node), level(shift))[index as int % (capacity(
                level(shift),
            ) as int)],
            packed(*final(node), level(shift)),
            *final(node) is Internal <==> *old(node) is Internal,
            children_of(*final(node)).len() == children_of(*old(node)).len(),
            items(*final(node), level(shift)) == items(*old(node), level(shift)).update(
                index as int % (capacity(level(shift)) as int),
                *final(elem),
            ),
        decreases shift,
    {
        let ghost at: int = index as int % (capacity(level(shift)) as int);
        let ghost row = children_of(*node);
        proof {
            lemma_index_within(index, level(shift));
        }
        match node {
            Node::External(n) => {
                proof {
                    lemma_leaf_slot(index);
                }
                leaf_slot(leaf_unshare(n), index & MASK)
            },
            Node::Internal(n) => {
                let ghost below: nat = (level(shift) - 1) as nat;
                proof {
                    lemma_child_slot(index, level(shift));
                    lemma_items_of_index(row, below, at);
                }
                let sub_index: usize = (index >> shift) & MASK;
                let branch = branch_unshare(n);
                let next = branch_slot(branch, sub_index);
                let ghost next_fin = *final(next);
                let elem = Self::get_external_mut(next, index, shift - SHIFT);
                proof {
                    let span: int = capacity(below) as int;
                    lemma_capacity(below);
                    lemma_items_of_update(
                        row,
                        below,
                        sub_index as int,
                        next_fin,
                        at % span,
                        *final(elem),
                    );
                    lemma_fundamental_div_mod(at, span);
                    assert(sub_index * span == span * (at / span)) by (nonlinear_arith)
                        requires
                            sub_index == at / span,
                    ;
                }
                elem
            },
            Node::Empty => unreached(),
        }
    }

    /// Appends `value`. While the tail buffer has room the value goes
    /// there; a full tail is first committed to the trie as its new
    /// rightmost leaf, and the value starts a fresh tail.
    pub fn push(&mut self, value: usize)
        requires
            old(self).wf(),
            old(self)@.len() < usize::MAX,
        ensures
            final(self).wf(),
            final(self)@ == pushed(old(self)@, value),
    {
        proof {
            self.lemma_wf();
        }
        let ghost stored = self.stored();
        let ghost buffered = self.buffered();
        if leaf_len(&self.tail) < NODE_SIZE {
            leaf_push(leaf_unshare(&mut self.tail), value);
            self.len += 1;
            proof {
                assert(stored + buffered.push(value) =~= (stored + buffered).push(value));
            }
            return;
        }
        let mut old_tail = new_external_node(value);
        std::mem::swap(&mut self.tail, &mut old_tail);
        let old_tail = Node::External(old_tail);
        proof {
            assert((stored + buffered) + seq![value] =~= (stored + buffered).push(value));
        }

        // The tail becomes the root of a trie that was empty.
        if self.len == NODE_SIZE {
            self.root = old_tail;
            self.len += 1;
            return;
        }
        // The index of the first element of the leaf to attach.
        let index: usize = self.len - NODE_SIZE;
        let shift: usize = self.depth * SHIFT;
        proof {
            lemma_capacity(0);
            lemma_room_at_root(index, self.depth as nat);
        }
        if (index >> shift) < NODE_SIZE {
            proof {
                lemma_index_below(index, (index + 1) as nat, self.depth as nat);
            }
            Self::push_external(self.root.make_internal_mut(), self.depth, old_tail, index);
            self.len += 1;
            return;
        }
        // The root is full: it becomes the first child of a new root.
        let mut old_root = new_internal_node();
        std::mem::swap(&mut self.root, &mut old_root);
        self.depth += 1;
        let new_root = self.root.make_internal_mut();
        branch_push(new_root, old_root);
        Self::new_path(new_root, self.depth, old_tail);
        self.len += 1;
        proof {
            let row: Seq<Node> = children_of(self.root);
            let below: nat = (self.depth - 1) as nat;
            // The new root has two children: the old root, which is
            // full, and the path that ends in the old tail.
            assert(row.drop_last() =~= seq![old_root]);
            assert(row[0] == row.drop_last()[0]);
            assert(seq![old_root].drop_last() =~= Seq::<Node>::empty());
            reveal_with_fuel(items_of, 3);
            assert(items_of(seq![old_root], below) =~= stored);
            assert(items_of(row, below) =~= stored + buffered);
        }
    }

    /// Attaches the leaf `ext` at the right end of the subtree of depth
    /// `depth` whose children `node` holds, where `index` is the position
    /// in the whole vector of the leaf's first element. At each level the
    /// index picks the child to descend into: the last one, or the slot
    /// after it when the last child is full, where a new path starts.
    fn push_external(node: &mut Branch, depth: usize, ext: Node, index: usize)
        requires
            depth >= 1,
            5 * depth < usize::BITS,
            packed_row(branch_children(*old(node)), (depth - 1) as nat),
            items_of(branch_children(*old(node)), (depth - 1) as nat).len() < capacity(
                depth as nat,
            ),
            index as int % (capacity(depth as nat) as int) == items_of(
                branch_children(*old(node)),
                (depth - 1) as nat,
            ).len(),
            packed(ext, 0),
        ensures
            packed_row(branch_children(*final(node)), (depth - 1) as nat),
            items_of(branch_children(*final(node)), (depth - 1) as nat) == items_of(
                branch_children(*old(node)),
                (depth - 1) as nat,
            ) + items(ext, 0),
            branch_children(*final(node)).len() >= branch_children(*old(node)).len(),
        decreases depth,
    {
        let ghost row = branch_children(*node);
        let ghost below: nat = (depth - 1) as nat;
        let ghost span: int = capacity(below) as int;
        proof {
            lemma_packed_row_len(row, below);
            lemma_packed_row_full(row, below);
            lemma_capacity(below);
            lemma_child_slot(index, depth as nat);
            lemma_packed_len(ext, 0);
        }
        let count: usize = branch_len(node);
        let sub_index: usize = (index >> (depth * SHIFT)) & MASK;
        proof {
            // The slot is the last child, or the one after it when the
            // last child is full.
            let last_len: int = items(row.last(), below).len() as int;
            let total: int = items_of(row, below).len() as int;
            if last_len == span {
                assert(total == count * span) by (nonlinear_arith)
                    requires
                        total == (count - 1) * span + last_len,
                        last_len == span,
                ;
                lemma_fundamental_div_mod_converse(total, span, count as int, 0);
                assert(count < 32);
            } else {
                lemma_fundamental_div_mod_converse(total, span, count - 1, last_len);
            }
        }
        if depth == 1 {
            proof {
                assert(packed(row[count - 1], below));
                lemma_items_of_push(row, ext, below);
            }
            branch_push(node, ext);
            proof {
                let after: Seq<Node> = row.push(ext);
                assert forall|i: int| 0 <= i < after.len() - 1 implies (#[trigger] items(
                    after[i],
                    below,
                )).len() == capacity(below) by {
                    assert(after[i] == row[i]);
                }
            }
        } else if sub_index < count {
            let child = branch_slot(node, sub_index);
            let ghost child_old = *child;
            let ghost child_fin = *final(child);
            proof {
                assert(packed(row[count - 1], below));
                lemma_capacity((below - 1) as nat);
            }
            Self::push_external(child.make_internal_mut(), depth - 1, ext, index);
            proof {
                lemma_items_of_update_last(row, child_fin, below);
                let after: Seq<Node> = row.update(count - 1, child_fin);
                assert forall|i: int| 0 <= i < after.len() implies packed(
                    #[trigger] after[i],
                    below,
                ) by {
                    if i != count - 1 {
                        assert(after[i] == row[i]);
                    }
                }
                assert forall|i: int| 0 <= i < after.len() - 1 implies (#[trigger] items(
                    after[i],
                    below,
                )).len() == capacity(below) by {
                    assert(after[i] == row[i]);
                }
                assert(items_of(after, below) =~= items_of(row, below) + items(ext, 0));
            }
        } else {
            Self::new_path(node, depth, ext);
            proof {
                let after: Seq<Node> = branch_children(*node);
                assert(after =~= row.push(after.last()));
                lemma_items_of_push(row, after.last(), below);
                assert forall|i: int| 0 <= i < after.len() implies packed(
                    #[trigger] after[i],
                    below,
                ) by {
                    if i != count {
                        assert(after[i] == row[i]);
                    }
                }
                assert forall|i: int| 0 <= i < after.len() - 1 implies (#[trigger] items(
                    after[i],
                    below,
                )).len() == capacity(below) by {
                    assert(after[i] == row[i]);
                }
            }
        }
    }

    /// Appends to `node` a new rightmost path of depth `depth - 1` that
    /// ends in the leaf `ext`. Every node on the path is fresh.
    fn new_path(node: &mut Branch, depth: usize, ext: Node)
        requires
            depth >= 1,
            branch_children(*old(node)).len() < 32,
            packed(ext, 0),
        ensures
            branch_children(*final(node)).len() == branch_children(*old(node)).len() + 1,
            branch_children(*final(node)).drop_last() == branch_children(*old(node)),
            packed(branch_children(*final(node)).last(), (depth - 1) as nat),
            items(branch_children(*final(node)).last(), (depth - 1) as nat) == items(ext, 0),
        decreases depth,
    {
        let ghost row = branch_children(*node);
        if depth == 1 {
            branch_push(node, ext);
            proof {
                assert(row.push(ext).drop_last() =~= row);
            }
        } else {
            branch_push(node, new_internal_node());
            let count: usize = branch_len(node);
            let new_node = branch_slot(node, count - 1);
            let ghost new_fin = *final(new_node);
            Self::new_path(new_node.make_internal_mut(), depth - 1, ext);
            proof {
                let path: Seq<Node> = children_of(new_fin);
                assert(path.drop_last() =~= Seq::<Node>::empty());
                assert(path =~= seq![path.last()]);
                reveal_with_fuel(items_of, 2);
                assert(items_of(path, (depth - 2) as nat) =~= items(path.last(), (depth - 2) as nat));
                assert(branch_children(*node).drop_last() =~= row);
            }
        }
    }

    /// Removes the last element and returns it, or returns `None` when the
    /// vector is empty. When the tail buffer would run empty above a
    /// non-empty trie, the rightmost leaf of the trie becomes the new tail.
    pub fn pop(&mut self) -> (last: Option<usize>)
        requires
            old(self).wf(),
        ensures
            final(self).wf(),
            last == pop_value(old(self)@),
            final(self)@ == popped(old(self)@),
    {
        proof {
            self.lemma_wf();
            lemma_capacity(0);
        }
        let ghost stored = self.stored();
        let ghost buffered = self.buffered();
        if self.len == 0 {
            return None;
        }
        let tail_len: usize = leaf_len(&self.tail);
        if self.len == 1 || tail_len > 1 {
            self.len -= 1;
            let last = leaf_pop(leaf_unshare(&mut self.tail));
            proof {
                assert(stored + buffered.drop_last() =~= (stored + buffered).drop_last());
            }
            return last;
        }
        // One element is left in the tail, above a trie that is not empty.
        let value: usize = *leaf_get(&self.tail, tail_len - 1);
        proof {
            assert(buffered =~= seq![value]);
            assert((stored + buffered).drop_last() =~= stored);
        }

        // The root is the only leaf: it becomes the tail.
        if (self.len - 1) == NODE_SIZE {
            proof {
                if self.depth > 0 {
                    lemma_capacity((self.depth - 1) as nat);
                }
            }
            self.depth = 0;
            self.len -= 1;
            let mut root = Node::Empty;
            std::mem::swap(&mut self.root, &mut root);
            self.tail = root.to_external();
            proof {
                assert(Seq::<usize>::empty() + stored =~= stored);
            }
            return Some(value);
        }
        let ghost row = children_of(self.root);
        let ghost below: nat = (self.depth - 1) as nat;
        proof {
            lemma_packed_row_len(row, below);
            lemma_capacity(below);
            assert((row.len() - 1) * capacity(below) >= 32) by (nonlinear_arith)
                requires
                    row.len() >= 2,
                    capacity(below) >= 32,
            ;
        }
        let (ext, _) = Self::pop_external(&mut self.root, self.depth);
        self.tail = ext.to_external();
        self.len -= 1;

        // A root left with a single child gives way to that child.
        let mut root_killer: Option<Node> = None;
        if let Node::Internal(r) = &mut self.root {
            if branch_len(r) == 1 {
                root_killer = branch_pop(branch_unshare(r));
            }
        }
        if let Some(rk) = root_killer {
            proof {
                // The child that is left was not the last one, so it is
                // full, and it holds all that the trie still holds.
                assert(rk == row[0]);
                assert(packed(row[0], below));
                assert(row.drop_last().drop_last() =~= Seq::<Node>::empty());
                reveal_with_fuel(items_of, 2);
                if below > 0 {
                    lemma_packed_row_full(children_of(rk), (below - 1) as nat);
                }
            }
            self.root = rk;
            self.depth -= 1;
        }
        Some(value)
    }

    /// Detaches the rightmost leaf of the subtree `node` of depth `depth`
    /// and returns it, with a flag that tells whether that left the
    /// subtree without any leaf; `node` is then `Empty`. An internal node
    /// on the way whose last child runs empty drops that child.
    fn pop_external(node: &mut Node, depth: usize) -> (detached: (Node, bool))
        requires
            depth >= 1,
            packed(*old(node), depth as nat),
        ensures
            packed(detached.0, 0),
            items(*old(node), depth as nat) == items(*final(node), depth as nat) + items(
                detached.0,
                0,
            ),
            detached.1 <==> items(*old(node), depth as nat).len() == 32,
            detached.1 ==> *final(node) is Empty,
            !detached.1 ==> packed(*final(node), depth as nat),
            !detached.1 ==> children_of(*final(node)) == children_of(*old(node)).drop_last() || (
            children_of(*final(node)).len() == children_of(*old(node)).len() && children_of(
                *final(node),
            ).drop_last() == children_of(*old(node)).drop_last()),
        decreases depth,
    {
        let ghost row = children_of(*node);
        let ghost below: nat = (depth - 1) as nat;
        let ghost front = row.drop_last();
        proof {
            lemma_packed_row_len(row, below);
            lemma_capacity(below);
            assert(packed(row[row.len() - 1], below));
            assert forall|i: int| 0 <= i < front.len() implies packed(
                #[trigger] front[i],
                below,
            ) by {
                assert(front[i] == row[i]);
            }
            assert forall|i: int| 0 <= i < front.len() implies (#[trigger] items(
                front[i],
                below,
            )).len() == capacity(below) by {
                assert(front[i] == row[i]);
            }
            if front.len() > 0 {
                assert((row.len() - 1) * capacity(below) >= 32) by (nonlinear_arith)
                    requires
                        row.len() >= 2,
                        capacity(below) >= 32,
                ;
            }
        }
        let n = node.make_internal_mut();
        let ext = if depth == 1 {
            branch_pop(n).unwrap()
        } else {
            let mut next = branch_pop(n).unwrap();
            let (ext, next_empty) = Self::pop_external(&mut next, depth - 1);
            if !next_empty {
                proof {
                    lemma_items_of_push(front, next, below);
                    let after: Seq<Node> = front.push(next);
                    assert(after.drop_last() =~= front);
                    assert forall|i: int| 0 <= i < after.len() implies packed(
                        #[trigger] after[i],
                        below,
                    ) by {
                        if i < front.len() {
                            assert(after[i] == front[i]);
                        }
                    }
                    assert(items_of(row, below) =~= items_of(after, below) + items(ext, 0));
                    lemma_packed_len(next, below);
                }
                branch_push(n, next);
            } else {
                proof {
                    assert(items(next, below) =~= Seq::<usize>::empty());
                    assert(items_of(row, below) =~= items_of(front, below) + items(ext, 0));
                }
            }
            ext
        };
        let empty = branch_len(n) == 0;
        if empty {
            *node = Node::Empty;
            proof {
                assert(items_of(front, below) =~= Seq::<usize>::empty());
                assert(Seq::<usize>::empty() + items(ext, 0) =~= items(ext, 0));
            }
        }
        (ext, empty)
    }

    /// Removes the element at `index` and returns it; the last element
    /// takes its place.
    pub fn swap_remove(&mut self, index: usize) -> (removed: usize)
        requires
            old(self).wf(),
            index < old(self)@.len(),
        ensures
            final(self).wf(),
            removed == old(self)@[index as int],
            final(self)@ == swap_removed(old(self)@, index as int),
    {
        proof {
            self.lemma_wf();
        }
        let ghost before = self@;
        let last = self.pop().unwrap();
        proof {
            self.lemma_wf();
        }
        if index == self.len {
            proof {
                assert(before.update(index as int, before.last()).drop_last() =~= before.drop_last());
            }
            last
        } else {
            let slot = self.get_mut(index);
            let removed: usize = *slot;
            *slot = last;
            proof {
                assert(before.drop_last().update(index as int, last) =~= before.update(
                    index as int,
                    before.last(),
                ).drop_last());
            }
            removed
        }
    }
}

impl Clone for CowVec {
    /// A snapshot: a vector of its own that holds what this one holds and
    /// shares every node with it. The two are separate values from here
    /// on: `push`, `pop`, `get_mut` and `swap_remove` change the vector
    /// they are called on and no other, since each of them first copies
    /// any node it is about to write that a snapshot still shares.
    fn clone(&self) -> (other: Self)
        ensures
            other == *self,
            other@ == self@,
            other.wf() == self.wf(),
    {
        CowVec {
            root: self.root.clone(),
            depth: self.depth,
            tail: share(&self.tail),
            len: self.len,
        }
    }
}

} // verus!
