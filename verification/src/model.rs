//! The vector as a mathematical sequence: what each operation does to the
//! sequence of elements, and what runs of operations do.

use vstd::prelude::*;

verus! {

/// The elements after `value` is appended.
pub open spec fn pushed(s: Seq<usize>, value: usize) -> Seq<usize> {
    s.push(value)
}

/// What removing the last element returns: the last element, or nothing
/// when there is none.
pub open spec fn pop_value(s: Seq<usize>) -> Option<usize> {
    if s.len() == 0 {
        None
    } else {
        Some(s.last())
    }
}

/// The elements after the last one is removed; an empty sequence stays
/// empty.
pub open spec fn popped(s: Seq<usize>) -> Seq<usize> {
    if s.len() == 0 {
        s
    } else {
        s.drop_last()
    }
}

/// The elements after `value` is written at `index`.
pub open spec fn written(s: Seq<usize>, index: int, value: usize) -> Seq<usize> {
    s.update(index, value)
}

/// The elements after the one at `index` is removed and the last element
/// takes its place.
pub open spec fn swap_removed(s: Seq<usize>, index: int) -> Seq<usize> {
    s.update(index, s.last()).drop_last()
}

/// The elements after each of `values` is appended in turn.
pub open spec fn pushed_all(s: Seq<usize>, values: Seq<usize>) -> Seq<usize>
    decreases values.len(),
{
    if values.len() == 0 {
        s
    } else {
        pushed(pushed_all(s, values.drop_last()), values.last())
    }
}

/// The elements after the last one is removed `count` times.
pub open spec fn popped_times(s: Seq<usize>, count: nat) -> Seq<usize>
    decreases count,
{
    if count == 0 {
        s
    } else {
        popped(popped_times(s, (count - 1) as nat))
    }
}

/// The numbers `0, 1, .., n - 1`.
pub open spec fn counting(n: nat) -> Seq<usize> {
    Seq::new(n, |i: int| i as usize)
}

/// The elements after every even index `i` below `upto` is overwritten
/// with `i / 2`, in ascending order of `i`.
pub open spec fn evens_halved(s: Seq<usize>, upto: nat) -> Seq<usize>
    decreases upto,
{
    if upto == 0 {
        s
    } else {
        let i: int = upto - 1;
        let before: Seq<usize> = evens_halved(s, i as nat);
        if i % 2 == 0 {
            written(before, i, (i / 2) as usize)
        } else {
            before
        }
    }
}

/// The elements after a swap-remove at each of the indices
/// `0, 1, .., count - 1`, in that order.
pub open spec fn front_swap_removed(s: Seq<usize>, count: nat) -> Seq<usize>
    decreases count,
{
    if count == 0 {
        s
    } else {
        swap_removed(front_swap_removed(s, (count - 1) as nat), count - 1)
    }
}

} // verus!
