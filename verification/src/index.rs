//! The arithmetic of routing an index through the trie: each level consumes
//! five bits of the index, so shifts and masks in executable code are
//! divisions and remainders by powers of 32 in the model.

use vstd::arithmetic::div_mod::{
    lemma_breakdown,
    lemma_fundamental_div_mod,
    lemma_fundamental_div_mod_converse,
    lemma_mod_bound,
    lemma_mod_mod,
    lemma_small_mod,
};
use vstd::arithmetic::mul::lemma_mul_inequality;
use vstd::arithmetic::power2::{
    lemma2_to64,
    lemma_pow2_adds,
    lemma_pow2_pos,
    lemma_pow2_strictly_increases,
    pow2,
};
use vstd::bits::{
    lemma_low_bits_mask_values,
    lemma_usize_low_bits_mask_is_mod,
    lemma_usize_shr_is_div,
    low_bits_mask,
};
use vstd::layout::unsigned_int_max_values;
use vstd::prelude::*;

verus! {

/// Children per internal node, and elements per leaf.
pub const NODE_SIZE: usize = 32;

/// Bits of an index that one level of the trie consumes.
pub const SHIFT: usize = 5;

/// Selects the bits of an index that one level consumes.
pub const MASK: usize = NODE_SIZE - 1;

/// The number of elements under a node of the given depth with no free
/// slot anywhere below it: `32^(depth + 1)`.
pub open spec fn capacity(depth: nat) -> nat {
    pow2(5 * depth + 5)
}

/// A leaf has room for 32 elements, and each level multiplies that by 32.
pub proof fn lemma_capacity(depth: nat)
    ensures
        capacity(0) == 32,
        capacity(depth) >= 32,
        capacity(depth + 1) == 32 * capacity(depth),
{
    lemma2_to64();
    lemma_pow2_adds(5 * depth + 5, 5);
    assert(5 * (depth + 1) + 5 == 5 * depth + 5 + 5);
    if depth > 0 {
        lemma_pow2_strictly_increases(5, 5 * depth + 5);
    }
}

/// A deeper node has the greater capacity.
pub proof fn lemma_capacity_grows(shallow: nat, deep: nat)
    requires
        shallow < deep,
    ensures
        32 * capacity(shallow) <= capacity(deep),
{
    lemma_capacity(shallow);
    if shallow + 1 < deep {
        lemma_pow2_strictly_increases(5 * (shallow + 1) + 5, 5 * deep + 5);
    }
}

/// A count that exceeds what a node one level down can hold leaves room
/// for the shift that selects a child at this level.
pub proof fn lemma_shift_fits(count: usize, depth: nat)
    requires
        depth >= 1,
        count > capacity((depth - 1) as nat),
    ensures
        5 * depth < usize::BITS,
        5 * depth <= usize::MAX,
{
    unsigned_int_max_values();
    assert(5 * (depth - 1) + 5 == 5 * depth);
    if 5 * depth >= usize::BITS {
        if 5 * depth > usize::BITS {
            lemma_pow2_strictly_increases(usize::BITS as nat, 5 * depth);
        }
        assert(false);
    }
}

/// Within a leaf, the mask picks the index modulo 32.
pub proof fn lemma_leaf_slot(index: usize)
    ensures
        (index & MASK) as int == index as int % 32,
        index as int % (capacity(0) as int) == index as int % 32,
{
    lemma_low_bits_mask_values();
    lemma2_to64();
    lemma_usize_low_bits_mask_is_mod(index, 5);
    assert(low_bits_mask(5) as usize == MASK);
    assert(pow2(5) as usize == 32);
}

/// At a node of depth `depth >= 1`, shifting by five bits per level and
/// masking picks the child under which the index falls, and the index
/// keeps its place below that child.
pub proof fn lemma_child_slot(index: usize, depth: nat)
    requires
        depth >= 1,
        5 * depth < usize::BITS,
    ensures
        ((index >> ((5 * depth) as usize)) & MASK) as int == (index as int % (capacity(
            depth,
        ) as int)) / (capacity((depth - 1) as nat) as int),
        (index as int % (capacity(depth) as int)) % (capacity((depth - 1) as nat) as int)
            == index as int % (capacity((depth - 1) as nat) as int),
{
    let shift: usize = (5 * depth) as usize;
    let below: int = capacity((depth - 1) as nat) as int;
    let x: int = index as int;
    assert(5 * (depth - 1) + 5 == 5 * depth);
    assert(below == pow2(5 * depth));
    lemma_pow2_pos(5 * depth);
    lemma_capacity((depth - 1) as nat);
    assert(capacity(depth) as int == 32 * below);
    assert(32 * below == below * 32);
    // The shift divides by what one child holds.
    lemma_usize_shr_is_div(index, shift);
    let shifted: usize = index >> shift;
    assert(shifted as int == x / below);
    // The mask takes the quotient modulo 32.
    lemma_low_bits_mask_values();
    lemma2_to64();
    lemma_usize_low_bits_mask_is_mod(shifted, 5);
    assert(low_bits_mask(5) as usize == MASK);
    assert(pow2(5) as usize == 32);
    assert((shifted & MASK) as int == (x / below) % 32);
    // x % (below * 32) == below * ((x / below) % 32) + x % below
    lemma_breakdown(x, below, 32);
    lemma_mod_bound(x, below);
    lemma_fundamental_div_mod_converse(x % (below * 32), below, (x / below) % 32, x % below);
    lemma_mod_mod(x, below, 32);
}

/// The child slot at which a node's next element would land tells whether
/// the node still has room: the quotient reaches 32 exactly when the node
/// is full.
pub proof fn lemma_room_at_root(count: usize, depth: nat)
    requires
        0 < count <= capacity(depth),
        depth >= 1 ==> 5 * depth < usize::BITS,
        depth == 0 ==> count == 32,
    ensures
        5 * depth < usize::BITS,
        ((count >> ((5 * depth) as usize)) < NODE_SIZE) <==> count < capacity(depth),
{
    let shift: usize = (5 * depth) as usize;
    lemma_usize_shr_is_div(count, shift);
    lemma_pow2_pos(5 * depth);
    lemma2_to64();
    if depth == 0 {
        assert(count as int / 1 == count as int);
    } else {
        let below: int = pow2(5 * depth) as int;
        lemma_pow2_adds(5 * depth, 5);
        assert(capacity(depth) as int == below * 32);
        lemma_fundamental_div_mod(count as int, below);
        lemma_mod_bound(count as int, below);
        let q: int = count as int / below;
        if q >= 32 {
            lemma_mul_inequality(32, q, below);
            assert(32 * below <= q * below);
            assert(q * below == below * q) by (nonlinear_arith);
        } else {
            lemma_mul_inequality(q + 1, 32, below);
            assert((q + 1) * below == below * q + below) by (nonlinear_arith);
        }
    }
}

/// The remainder of an index by a capacity lies below that capacity.
pub proof fn lemma_index_within(index: usize, depth: nat)
    ensures
        0 <= index as int % (capacity(depth) as int) < capacity(depth),
{
    lemma_capacity(depth);
    lemma_mod_bound(index as int, capacity(depth) as int);
}

/// An index below a bound that does not exceed the modulus is its own
/// remainder.
pub proof fn lemma_index_below(index: usize, bound: nat, depth: nat)
    requires
        index < bound <= capacity(depth),
    ensures
        index as int % (capacity(depth) as int) == index,
{
    lemma_small_mod(index as nat, capacity(depth));
}

} // verus!
