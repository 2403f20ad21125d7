//! What a bit vector is for: it tells which ids came before.

use vstd::prelude::*;
use crate::bitvec::bitvec_test_and_set;

verus! {

/// An id has a bit.
pub open spec fn has_bit(bits: Seq<u64>, id: u32) -> bool {
    id < 64 * bits.len()
}

/// The bit of an id: the one in place `id % 64` of word `id / 64`, from the lowest
/// on.
pub open spec fn bit_of(bits: Seq<u64>, id: u32) -> bool {
    (bits[id as int / 64] >> ((id % 64) as u64)) & 1 == 1
}

proof fn lemma_bit(bits: Seq<u64>, id: u32)
    requires
        has_bit(bits, id),
    ensures
        crate::bitvec::bit_is_set(bits, id) == bit_of(bits, id),
{
    let w = bits[id as int / 64];
    let a = (id % 64) as u64;
    assert((w & (1u64 << a) != 0) <==> ((w >> a) & 1 == 1)) by (bit_vector)
        requires
            a < 64,
    ;
}

/// A mark tells whether the bit of its id was set before, sets it, and changes no
/// other. An id without a bit counts as set, and changes nothing.
pub proof fn law_bitvec_test_and_set(bits: &mut [u64], id: u32, other: u32, was_set: bool)
    requires
        call_ensures(bitvec_test_and_set, (bits, id), was_set),
    ensures
        final(bits)@.len() == old(bits)@.len(),
        !has_bit(old(bits)@, id) ==> was_set && final(bits)@ == old(bits)@,
        has_bit(old(bits)@, id) ==> was_set == bit_of(old(bits)@, id) && bit_of(final(bits)@, id),
        has_bit(old(bits)@, other) && other != id ==> bit_of(final(bits)@, other) == bit_of(
            old(bits)@,
            other,
        ),
{
    let before = old(bits)@;
    let after = final(bits)@;
    crate::bitvec::lemma_with_mark(before, id);
    if has_bit(before, id) {
        lemma_bit(before, id);
        lemma_bit(after, id);
        assert(crate::bitvec::marked(after).contains(id));
        assert(crate::bitvec::bit_is_set(after, id));
    }
    if has_bit(before, other) && other != id {
        lemma_bit(before, other);
        lemma_bit(after, other);
        assert(crate::bitvec::marked(after).contains(other) == crate::bitvec::marked(
            before,
        ).contains(other));
        assert(crate::bitvec::bit_is_set(after, other) == crate::bitvec::bit_is_set(
            before,
            other,
        ));
    }
}

/// The words of a bit vector stay as they are where no bit of theirs is marked.
pub proof fn law_mark_keeps_words(bits: &mut [u64], id: u32, word: int, was_set: bool)
    requires
        call_ensures(bitvec_test_and_set, (bits, id), was_set),
        0 <= word < old(bits)@.len(),
        word != id as int / 64,
    ensures
        final(bits)@[word] == old(bits)@[word],
{
}

} // verus!
