//! What reading records is for: attributes come back as they were laid out.

use vstd::prelude::*;
use crate::record::{append_attributes, vector_elements};

verus! {

/// The attributes are added behind what the buffer held, and the result says where
/// they stand: an offset and a length, both zero if there are none.
pub proof fn law_append_attributes(
    extra: &[u8],
    elem_size: usize,
    buffer: &mut Vec<u8>,
    r: (usize, usize),
)
    requires
        elem_size > 0,
        call_ensures(append_attributes, (extra, elem_size, buffer), r),
    ensures
        r.1 == crate::laws::walks::behind(extra@, elem_size as int).len(),
        final(buffer)@.len() == old(buffer)@.len() + r.1,
        forall|i: int| 0 <= i < old(buffer)@.len() ==> final(buffer)@[i] == old(buffer)@[i],
        r.1 > 0 ==> r.0 == old(buffer)@.len(),
        r.1 == 0 ==> r.0 == 0,
        final(buffer)@.skip(old(buffer)@.len() as int) == crate::laws::walks::behind(
            extra@,
            elem_size as int,
        ),
{
    crate::laws::walks::lemma_behind(extra@, elem_size as int);
}

/// What was laid out as a record is read back: the bytes added are the attributes,
/// all of them and nothing else.
pub proof fn law_record_is_read_back(
    length: Seq<u8>,
    filler: Seq<u8>,
    attrs: Seq<u8>,
    padding: Seq<u8>,
    extra: &[u8],
    elem_size: usize,
    buffer: &mut Vec<u8>,
    r: (usize, usize),
)
    requires
        elem_size > 0,
        crate::laws::walks::is_record(
            extra@,
            elem_size as int,
            length,
            filler,
            attrs,
            padding,
        ),
        call_ensures(append_attributes, (extra, elem_size, buffer), r),
    ensures
        final(buffer)@ == old(buffer)@ + attrs,
        r.1 == attrs.len(),
        attrs.len() > 0 ==> r.0 == old(buffer)@.len(),
{
    crate::laws::walks::lemma_behind(extra@, elem_size as int);
    crate::laws::walks::lemma_layout(length, filler, attrs, padding, elem_size as int);
}

/// A vector has as many elements as its dimension, or as its record has.
pub proof fn law_vector_elements(record_len: usize, dim: usize, n: usize)
    requires
        call_ensures(vector_elements, (record_len, dim), n),
    ensures
        n <= record_len,
        n <= dim,
        n == record_len || n == dim,
{
}

} // verus!
