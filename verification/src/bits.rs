//! A fixed-size bitset over five 64-bit words, used to track which piece
//! identifiers are currently placed on the board.

use vstd::prelude::*;

verus! {

/// Number of addressable bits in the set.
pub const BIT_CAPACITY: usize = 320;

/// Whether bit `index` is set in `bits`.
pub open spec fn bit_is_set(bits: Seq<u64>, index: int) -> bool {
    (bits[index / 64] & (1u64 << ((index % 64) as u64))) != 0
}

/// The members of the set: every index below the capacity whose bit is set.
pub open spec fn members(bits: Seq<u64>) -> Set<int> {
    Set::new(|i: int| 0 <= i < BIT_CAPACITY && bit_is_set(bits, i))
}

/// The words after bit `index` has been switched on.
pub open spec fn with_bit_set(bits: Seq<u64>, index: int) -> Seq<u64> {
    bits.update(index / 64, bits[index / 64] | (1u64 << ((index % 64) as u64)))
}

/// The words after bit `index` has been switched off.
pub open spec fn with_bit_cleared(bits: Seq<u64>, index: int) -> Seq<u64> {
    bits.update(index / 64, bits[index / 64] & !(1u64 << ((index % 64) as u64)))
}

/// One mutation of the set.
pub enum BitOp {
    Insert(usize),
    Remove(usize),
}

impl BitOp {
    /// The index that the operation touches.
    pub open spec fn index(self) -> int {
        match self {
            BitOp::Insert(i) => i as int,
            BitOp::Remove(i) => i as int,
        }
    }

    /// The words after the operation has been applied.
    pub open spec fn apply(self, bits: Seq<u64>) -> Seq<u64> {
        match self {
            BitOp::Insert(i) => with_bit_set(bits, i as int),
            BitOp::Remove(i) => with_bit_cleared(bits, i as int),
        }
    }
}

/// The words after all of `ops` have been applied, first to last.
pub open spec fn apply_all(bits: Seq<u64>, ops: Seq<BitOp>) -> Seq<u64>
    decreases ops.len(),
{
    if ops.len() == 0 {
        bits
    } else {
        ops.last().apply(apply_all(bits, ops.drop_last()))
    }
}

/// What the latest operation on `index` among `ops` left behind, or the
/// `initial` state of the bit when no operation touched it.
pub open spec fn latest_state(ops: Seq<BitOp>, index: int, initial: bool) -> bool
    decreases ops.len(),
{
    if ops.len() == 0 {
        initial
    } else if ops.last().index() == index {
        ops.last() is Insert
    } else {
        latest_state(ops.drop_last(), index, initial)
    }
}

proof fn lemma_word_set(w: u64, b: u64, c: u64)
    by (bit_vector)
    requires
        b < 64,
        c < 64,
    ensures
        ((w | (1u64 << b)) & (1u64 << c)) != 0 <==> (c == b || (w & (1u64 << c)) != 0),
{
}

proof fn lemma_word_clear(w: u64, b: u64, c: u64)
    by (bit_vector)
    requires
        b < 64,
        c < 64,
    ensures
        ((w & !(1u64 << b)) & (1u64 << c)) != 0 <==> (c != b && (w & (1u64 << c)) != 0),
{
}

proof fn lemma_split(index: usize)
    by (bit_vector)
    ensures
        (index >> 6) == index / 64,
        (index & 63) == index % 64,
{
}

/// Setting a bit makes exactly that index a member and changes no other.
pub proof fn lemma_with_bit_set(bits: Seq<u64>, index: int)
    requires
        bits.len() == 5,
        0 <= index < BIT_CAPACITY,
    ensures
        with_bit_set(bits, index).len() == 5,
        forall|i: int|
            0 <= i < BIT_CAPACITY ==> (#[trigger] bit_is_set(with_bit_set(bits, index), i) <==> (i
                == index || bit_is_set(bits, i))),
        members(with_bit_set(bits, index)) == members(bits).insert(index),
{
    assert forall|i: int| 0 <= i < BIT_CAPACITY implies (#[trigger] bit_is_set(
        with_bit_set(bits, index),
        i,
    ) <==> (i == index || bit_is_set(bits, i))) by {
        if i / 64 == index / 64 {
            lemma_word_set(bits[index / 64], (index % 64) as u64, (i % 64) as u64);
        }
    }
    assert(members(with_bit_set(bits, index)) =~= members(bits).insert(index));
}

/// Clearing a bit removes exactly that index and changes no other.
pub proof fn lemma_with_bit_cleared(bits: Seq<u64>, index: int)
    requires
        bits.len() == 5,
        0 <= index < BIT_CAPACITY,
    ensures
        with_bit_cleared(bits, index).len() == 5,
        forall|i: int|
            0 <= i < BIT_CAPACITY ==> (#[trigger] bit_is_set(with_bit_cleared(bits, index), i) <==> (
            i != index && bit_is_set(bits, i))),
        members(with_bit_cleared(bits, index)) == members(bits).remove(index),
{
    assert forall|i: int| 0 <= i < BIT_CAPACITY implies (#[trigger] bit_is_set(
        with_bit_cleared(bits, index),
        i,
    ) <==> (i != index && bit_is_set(bits, i))) by {
        if i / 64 == index / 64 {
            lemma_word_clear(bits[index / 64], (index % 64) as u64, (i % 64) as u64);
        }
    }
    assert(members(with_bit_cleared(bits, index)) =~= members(bits).remove(index));
}

/// After any sequence of set and clear operations, a bit holds what the
/// latest operation on its own index left there; operations on other indices
/// do not affect it.
pub proof fn lemma_latest_operation_wins(bits: Seq<u64>, ops: Seq<BitOp>, index: int)
    requires
        bits.len() == 5,
        0 <= index < BIT_CAPACITY,
        forall|k: int| 0 <= k < ops.len() ==> 0 <= (#[trigger] ops[k]).index() < BIT_CAPACITY,
    ensures
        apply_all(bits, ops).len() == 5,
        bit_is_set(apply_all(bits, ops), index) == latest_state(
            ops,
            index,
            bit_is_set(bits, index),
        ),
    decreases ops.len(),
{
    if ops.len() > 0 {
        let before = apply_all(bits, ops.drop_last());
        lemma_latest_operation_wins(bits, ops.drop_last(), index);
        match ops.last() {
            BitOp::Insert(i) => lemma_with_bit_set(before, i as int),
            BitOp::Remove(i) => lemma_with_bit_cleared(before, i as int),
        }
    }
}

/// Adds `index` to the set, leaving every other index as it was.
#[inline(always)]
pub fn set_bit(bits: &mut [u64; 5], index: usize)
    requires
        index < BIT_CAPACITY,
    ensures
        final(bits)@ == with_bit_set(old(bits)@, index as int),
        forall|i: int|
            0 <= i < BIT_CAPACITY ==> (#[trigger] bit_is_set(final(bits)@, i) <==> (i == index
                || bit_is_set(old(bits)@, i))),
        members(final(bits)@) == members(old(bits)@).insert(index as int),
{
    proof {
        lemma_split(index);
        lemma_with_bit_set(bits@, index as int);
    }
    let word: usize = index >> 6;
    let shift: usize = index & 63;
    let updated: u64 = bits[word] | (1u64 << shift);
    bits[word] = updated;
}

/// Removes `index` from the set, leaving every other index as it was.
#[inline(always)]
pub fn clear_bit(bits: &mut [u64; 5], index: usize)
    requires
        index < BIT_CAPACITY,
    ensures
        final(bits)@ == with_bit_cleared(old(bits)@, index as int),
        forall|i: int|
            0 <= i < BIT_CAPACITY ==> (#[trigger] bit_is_set(final(bits)@, i) <==> (i != index
                && bit_is_set(old(bits)@, i))),
        members(final(bits)@) == members(old(bits)@).remove(index as int),
{
    proof {
        lemma_split(index);
        lemma_with_bit_cleared(bits@, index as int);
    }
    let word: usize = index >> 6;
    let shift: usize = index & 63;
    let updated: u64 = bits[word] & !(1u64 << shift);
    bits[word] = updated;
}

/// Whether `index` is absent from the set.
#[inline(always)]
pub fn is_clear(bits: &[u64; 5], index: usize) -> (clear: bool)
    requires
        index < BIT_CAPACITY,
    ensures
        clear == !bit_is_set(bits@, index as int),
        clear == !members(bits@).contains(index as int),
{
    proof {
        lemma_split(index);
    }
    (bits[index >> 6] & (1u64 << (index & 63))) == 0
}

} // verus!
