//! A set of internal ids as a bit vector.

use vstd::prelude::*;

verus! {

/// Whether the bit of `id` is set.
pub open spec fn bit_is_set(bits: Seq<u64>, id: u32) -> bool {
    id as int / 64 < bits.len() && bits[id as int / 64] & (1u64 << ((id % 64) as u64)) != 0
}

/// The ids whose bits are set.
pub open spec fn marked(bits: Seq<u64>) -> Set<u32> {
    Set::new(|id: u32| bit_is_set(bits, id))
}

/// The bit vector with the bit of `id` set: one bit of one word, every other as
/// it was. An id without a bit changes nothing.
pub open spec fn with_mark(bits: Seq<u64>, id: u32) -> Seq<u64> {
    if id as int / 64 < bits.len() {
        bits.update(id as int / 64, bits[id as int / 64] | (1u64 << ((id % 64) as u64)))
    } else {
        bits
    }
}

/// Whether a mark finds the bit of `id` set. An id without a bit counts as set.
pub open spec fn finds_set(bits: Seq<u64>, id: u32) -> bool {
    id as int / 64 >= bits.len() || bit_is_set(bits, id)
}

/// Sets the bit of `id` and returns whether it was set before. An id without a
/// bit counts as set.
pub fn bitvec_test_and_set(bits: &mut [u64], id: u32) -> (was_set: bool)
    ensures
        was_set == finds_set(old(bits)@, id),
        final(bits)@ == with_mark(old(bits)@, id),
{
    proof {
        assert(id >> 6 == id / 64) by (bit_vector);
        assert(id & 63 == id % 64) by (bit_vector);
    }
    let word: usize = (id >> 6) as usize;
    let bit: u64 = 1u64 << ((id & 63) as u64);
    if word >= bits.len() {
        return true;
    }
    let was_set = bits[word] & bit != 0;
    bits[word] |= bit;
    was_set
}

/// A mark adds its id, if it has a bit, and no other.
pub proof fn lemma_with_mark(bits: Seq<u64>, id: u32)
    ensures
        with_mark(bits, id).len() == bits.len(),
        marked(with_mark(bits, id)) == if id as int / 64 < bits.len() {
            marked(bits).insert(id)
        } else {
            marked(bits)
        },
{
    let after = with_mark(bits, id);
    let word = id as int / 64;
    if word < bits.len() {
        let a = (id % 64) as u64;
        let w = bits[word];
        assert((w | (1u64 << a)) & (1u64 << a) != 0) by (bit_vector)
            requires
                a < 64,
        ;
        assert forall|other: u32| bit_is_set(after, other) == (other == id || bit_is_set(
            bits,
            other,
        )) by {
            if other as int / 64 == word && other != id {
                let b = (other % 64) as u64;
                assert((w | (1u64 << a)) & (1u64 << b) != 0 <==> w & (1u64 << b) != 0)
                    by (bit_vector)
                    requires
                        a < 64,
                        b < 64,
                        a != b,
                ;
            }
        }
        assert(marked(after) =~= marked(bits).insert(id));
    }
}

/// The bit vector after the first `n` ids were marked, one after the other.
pub open spec fn with_marks(bits: Seq<u64>, ids: Seq<u32>, n: int) -> Seq<u64>
    decreases n,
{
    if n <= 0 {
        bits
    } else {
        with_mark(with_marks(bits, ids, n - 1), ids[n - 1])
    }
}

/// Marks that start from zeros leave the bits set of the ids that came and have
/// one.
proof fn lemma_marks_set_bits(bits: Seq<u64>, ids: Seq<u32>, n: int, id: u32)
    requires
        forall|i: int| 0 <= i < bits.len() ==> bits[i] == 0,
        0 <= n <= ids.len(),
    ensures
        with_marks(bits, ids, n).len() == bits.len(),
        bit_is_set(with_marks(bits, ids, n), id) == (id as int / 64 < bits.len() && ids.subrange(
            0,
            n,
        ).contains(id)),
    decreases n,
{
    if n > 0 {
        lemma_marks_set_bits(bits, ids, n - 1, id);
        let before = with_marks(bits, ids, n - 1);
        let after = with_marks(bits, ids, n);
        let last = ids[n - 1];
        lemma_with_mark(before, last);
        assert(marked(before).contains(id) == bit_is_set(before, id));
        assert(marked(after).contains(id) == bit_is_set(after, id));
        let few = ids.subrange(0, n - 1);
        let all = ids.subrange(0, n);
        if id == last {
            assert(all[n - 1] == id);
        } else {
            if few.contains(id) {
                let i = choose|i: int| 0 <= i < few.len() && few[i] == id;
                assert(all[i] == id);
            }
            if all.contains(id) {
                let i = choose|i: int| 0 <= i < all.len() && all[i] == id;
                assert(few[i] == id);
            }
        }
    } else {
        lemma_zeros_mark_nothing(bits);
        assert(marked(bits).contains(id) == bit_is_set(bits, id));
    }
}

/// Marks that start from zeros find a bit clear exactly where an id comes that
/// has a bit and did not come before.
pub proof fn lemma_marks_find_new_ids(bits: Seq<u64>, ids: Seq<u32>)
    requires
        forall|i: int| 0 <= i < bits.len() ==> bits[i] == 0,
    ensures
        forall|i: int|
            0 <= i < ids.len() ==> (!finds_set(with_marks(bits, ids, i), #[trigger] ids[i])
                <==> ids[i] as int / 64 < bits.len() && !ids.subrange(0, i).contains(ids[i])),
{
    assert forall|i: int| 0 <= i < ids.len() implies (!finds_set(
        with_marks(bits, ids, i),
        #[trigger] ids[i],
    ) <==> ids[i] as int / 64 < bits.len() && !ids.subrange(0, i).contains(ids[i])) by {
        lemma_marks_set_bits(bits, ids, i, ids[i]);
    }
}

/// Every set of ids is finite.
pub proof fn lemma_marked_is_finite(bits: Seq<u64>)
    ensures
        marked(bits).finite(),
{
    broadcast use vstd::set_lib::full_set_properties;

    assert(marked(bits).subset_of(Set::<u32>::full()));
    vstd::set_lib::lemma_set_subset_finite(Set::<u32>::full(), marked(bits));
}

/// A bit vector marks at most as many ids as it has bits.
pub proof fn lemma_marked_bound(bits: Seq<u64>)
    ensures
        marked(bits).finite(),
        marked(bits).len() <= 64 * bits.len(),
{
    let s = marked(bits);
    lemma_marked_is_finite(bits);
    let f = |id: u32| id as int;
    let image = s.map(f);
    s.lemma_map_finite(f);
    let all = vstd::set_lib::set_int_range(0, (64 * bits.len()) as int);
    vstd::set_lib::lemma_int_range(0, (64 * bits.len()) as int);
    assert(image.subset_of(all)) by {
        assert forall|x: int| image.contains(x) implies all.contains(x) by {
            let id = choose|id: u32| s.contains(id) && f(id) == x;
            assert(bit_is_set(bits, id));
        }
    }
    vstd::set_lib::lemma_len_subset(image, all);
    vstd::set_lib::lemma_map_size(s, image, f);
}

/// A bit vector of zeros marks nothing.
pub proof fn lemma_zeros_mark_nothing(bits: Seq<u64>)
    requires
        forall|i: int| 0 <= i < bits.len() ==> bits[i] == 0,
    ensures
        marked(bits) == Set::<u32>::empty(),
{
    assert forall|id: u32| !bit_is_set(bits, id) by {
        let b = (id % 64) as u64;
        assert(0u64 & (1u64 << b) == 0) by (bit_vector);
    }
    assert(marked(bits) =~= Set::<u32>::empty());
}

} // verus!
