//! Laws of the operations, proved of the model that their contracts are
//! stated in.

use vstd::prelude::*;
use crate::model::{
    counting,
    evens_halved,
    front_swap_removed,
    pop_value,
    popped,
    popped_times,
    pushed,
    pushed_all,
    swap_removed,
    written,
};

verus! {

/// A pop right after a push returns the value pushed and leaves the
/// vector as it was before the push.
pub proof fn lemma_push_then_pop(s: Seq<usize>, value: usize)
    ensures
        pop_value(pushed(s, value)) == Some(value),
        popped(pushed(s, value)) == s,
{
    assert(s.push(value).drop_last() =~= s);
}

/// Pushing a run of values appends the run.
pub proof fn lemma_pushed_all(s: Seq<usize>, values: Seq<usize>)
    ensures
        pushed_all(s, values) == s + values,
    decreases values.len(),
{
    if values.len() == 0 {
        assert(s + values =~= s);
    } else {
        lemma_pushed_all(s, values.drop_last());
        assert((s + values.drop_last()).push(values.last()) =~= s + values);
    }
}

/// Popping `count` times, where that many elements are there, removes the
/// last `count` elements.
pub proof fn lemma_popped_times(s: Seq<usize>, count: nat)
    requires
        count <= s.len(),
    ensures
        popped_times(s, count) == s.take(s.len() - count),
    decreases count,
{
    if count == 0 {
        assert(s.take(s.len() as int) =~= s);
    } else {
        lemma_popped_times(s, (count - 1) as nat);
        assert(s.take(s.len() - count + 1).drop_last() =~= s.take(s.len() - count));
    }
}

/// Push and pop are inverse: after `values` are pushed onto any vector,
/// successive pops return them last to first and leave the vector as it
/// was before the pushes.
pub proof fn lemma_push_pop_inverse(start: Seq<usize>, values: Seq<usize>)
    ensures
        forall|k: int|
            #![trigger values[values.len() - 1 - k]]
            0 <= k < values.len() ==> pop_value(
                popped_times(pushed_all(start, values), k as nat),
            ) == Some(values[values.len() - 1 - k]),
        popped_times(pushed_all(start, values), values.len()) == start,
{
    let full: Seq<usize> = pushed_all(start, values);
    lemma_pushed_all(start, values);
    assert forall|k: int| #![trigger values[values.len() - 1 - k]] 0 <= k < values.len() implies pop_value(
        popped_times(full, k as nat),
    ) == Some(values[values.len() - 1 - k]) by {
        lemma_popped_times(full, k as nat);
    }
    lemma_popped_times(full, values.len());
    assert(full.take(start.len() as int) =~= start);
}

/// After everything that was pushed onto an empty vector has been popped
/// again, the next pop returns nothing and changes nothing.
pub proof fn lemma_pop_past_empty(values: Seq<usize>)
    ensures
        pop_value(popped_times(pushed_all(Seq::empty(), values), values.len())) is None,
        popped(popped_times(pushed_all(Seq::empty(), values), values.len())) == Seq::<
            usize,
        >::empty(),
{
    lemma_push_pop_inverse(Seq::empty(), values);
}

/// A write lands at its index and nowhere else.
pub proof fn lemma_write_is_local(s: Seq<usize>, index: int, value: usize)
    requires
        0 <= index < s.len(),
    ensures
        written(s, index, value).len() == s.len(),
        written(s, index, value)[index] == value,
        forall|j: int| 0 <= j < s.len() && j != index ==> written(s, index, value)[j] == s[j],
{
}

/// Writes at the even indices below `upto` leave the length and every
/// other slot alone.
pub proof fn lemma_evens_halved(s: Seq<usize>, upto: nat)
    requires
        upto <= s.len(),
    ensures
        evens_halved(s, upto).len() == s.len(),
        forall|i: int|
            0 <= i < s.len() ==> #[trigger] evens_halved(s, upto)[i] == (if i < upto && i % 2
                == 0 {
                (i / 2) as usize
            } else {
                s[i]
            }),
    decreases upto,
{
    if upto > 0 {
        lemma_evens_halved(s, (upto - 1) as nat);
    }
}

/// Index stability under writes at even indices: push `0, .., n - 1`, then
/// write `i / 2` at every even `i`; slot `i` then reads `i / 2` where `i`
/// is even and `i` where it is odd.
pub proof fn lemma_even_slots_halved(n: nat)
    requires
        n <= usize::MAX,
    ensures
        evens_halved(pushed_all(Seq::empty(), counting(n)), n).len() == n,
        forall|i: int|
            0 <= i < n ==> #[trigger] evens_halved(pushed_all(Seq::empty(), counting(n)), n)[i]
                == (if i % 2 == 0 {
                i / 2
            } else {
                i
            }),
{
    lemma_pushed_all(Seq::empty(), counting(n));
    assert(Seq::<usize>::empty() + counting(n) =~= counting(n));
    lemma_evens_halved(counting(n), n);
}

/// A swap-remove returns nothing it did not hold, shortens the vector by
/// one, puts the last element where the removed one was, and leaves every
/// other slot alone.
pub proof fn lemma_swap_removed(s: Seq<usize>, index: int)
    requires
        0 <= index < s.len(),
    ensures
        swap_removed(s, index).len() == s.len() - 1,
        index < s.len() - 1 ==> swap_removed(s, index)[index] == s.last(),
        forall|j: int|
            0 <= j < s.len() - 1 && j != index ==> swap_removed(s, index)[j] == s[j],
{
}

/// The vector after swap-removes at `0, .., count - 1` of the numbers
/// `0, .., n - 1`: the front holds `n - 1, n - 2, ..` and the rest is
/// untouched.
pub proof fn lemma_front_swap_removed(n: nat, count: nat)
    requires
        n <= usize::MAX,
        2 * count <= n,
    ensures
        front_swap_removed(counting(n), count).len() == n - count,
        forall|j: int|
            0 <= j < n - count ==> #[trigger] front_swap_removed(counting(n), count)[j] == (if j
                < count {
                n - 1 - j
            } else {
                j
            }),
    decreases count,
{
    if count > 0 {
        lemma_front_swap_removed(n, (count - 1) as nat);
    }
}

/// Swap-remove at the front: push `0, .., n - 1`, then swap-remove at
/// `0, 1, ..` in turn. While `i < n / 2`, the swap-remove at `i` returns
/// `i`, and slot `i` then reads what was the last element, `n - 1 - i`.
pub proof fn lemma_swap_remove_front(n: nat, i: nat)
    requires
        n <= usize::MAX,
        i < n / 2,
    ensures
        i < front_swap_removed(pushed_all(Seq::empty(), counting(n)), i).len(),
        front_swap_removed(pushed_all(Seq::empty(), counting(n)), i)[i as int] == i,
        i < front_swap_removed(pushed_all(Seq::empty(), counting(n)), i + 1).len(),
        front_swap_removed(pushed_all(Seq::empty(), counting(n)), i + 1)[i as int]
            == front_swap_removed(pushed_all(Seq::empty(), counting(n)), i).last(),
        front_swap_removed(pushed_all(Seq::empty(), counting(n)), i + 1)[i as int] == n - 1 - i,
{
    lemma_pushed_all(Seq::empty(), counting(n));
    assert(Seq::<usize>::empty() + counting(n) =~= counting(n));
    lemma_front_swap_removed(n, i);
    lemma_front_swap_removed(n, i + 1);
    let before: Seq<usize> = front_swap_removed(counting(n), i);
    assert(front_swap_removed(counting(n), i + 1) == swap_removed(before, i as int));
    lemma_swap_removed(before, i as int);
}

} // verus!
