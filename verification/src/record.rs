//! Stored vectors with their attributes behind them.
//!
//! A record holds the elements of a vector, then one element whose bytes are
//! the length of the attributes, then the attribute bytes, padded to a whole
//! number of elements.

use vstd::prelude::*;

verus! {

/// How many bytes a length occupies at most.
pub const LENGTH_BYTES: usize = 4;

/// The number that some bytes stand for, lowest first.
pub open spec fn little_endian(bytes: Seq<u8>) -> nat
    decreases bytes.len(),
{
    if bytes.len() == 0 {
        0
    } else {
        bytes[0] as nat + 256 * little_endian(bytes.skip(1))
    }
}

/// How many bytes of an element hold the length of the attributes.
pub open spec fn length_width(elem_size: int) -> int {
    if elem_size < LENGTH_BYTES {
        elem_size
    } else {
        LENGTH_BYTES as int
    }
}

/// The attribute bytes of a record, given what follows its vector.
pub open spec fn attributes(extra: Seq<u8>, elem_size: int) -> Seq<u8> {
    if extra.len() <= elem_size {
        Seq::empty()
    } else {
        let len = little_endian(extra.take(length_width(elem_size)));
        let body = extra.skip(elem_size);
        body.take(if len <= body.len() {
            len as int
        } else {
            body.len() as int
        })
    }
}

/// How many elements of a record belong to its vector.
pub fn vector_elements(record_len: usize, dim: usize) -> (n: usize)
    ensures
        record_len > dim ==> n == dim,
        record_len <= dim ==> n == record_len,
{
    if record_len > dim {
        dim
    } else {
        record_len
    }
}

/// The length that the first bytes of an element hold; bytes that the element
/// does not have count as zero.
fn attribute_length(extra: &[u8], elem_size: usize) -> (n: u32)
    requires
        0 < elem_size <= extra@.len(),
    ensures
        n == little_endian(extra@.take(length_width(elem_size as int))),
{
    let b0: u32 = extra[0] as u32;
    let b1: u32 = if elem_size > 1 {
        extra[1] as u32
    } else {
        0
    };
    let b2: u32 = if elem_size > 2 {
        extra[2] as u32
    } else {
        0
    };
    let b3: u32 = if elem_size > 3 {
        extra[3] as u32
    } else {
        0
    };
    proof {
        reveal_with_fuel(little_endian, 5);
        let s = extra@.take(length_width(elem_size as int));
        if elem_size == 1 {
            assert(s.skip(1) =~= Seq::empty());
        } else if elem_size == 2 {
            assert(s.skip(1).skip(1) =~= Seq::empty());
        } else if elem_size == 3 {
            assert(s.skip(1).skip(1).skip(1) =~= Seq::empty());
        } else {
            assert(s.skip(1).skip(1).skip(1).skip(1) =~= Seq::empty());
        }
    }
    b0 + 256 * b1 + 65536 * b2 + 16777216 * b3
}

/// Appends the attribute bytes of a record to a buffer, and returns where they
/// begin and how many they are; `(0, 0)` if there are none.
pub fn append_attributes(extra: &[u8], elem_size: usize, buffer: &mut Vec<u8>) -> (r: (
    usize,
    usize,
))
    requires
        elem_size > 0,
    ensures
        final(buffer)@ == old(buffer)@ + attributes(extra@, elem_size as int),
        r.1 == attributes(extra@, elem_size as int).len(),
        r.0 == if r.1 > 0 {
            old(buffer)@.len()
        } else {
            0
        },
{
    if extra.len() <= elem_size {
        assert(buffer@ =~= old(buffer)@ + attributes(extra@, elem_size as int));
        return (0, 0);
    }
    let len = attribute_length(extra, elem_size) as usize;
    let total = extra.len();
    let room = total - elem_size;
    let actual: usize = if len <= room {
        len
    } else {
        room
    };
    if actual == 0 {
        assert(buffer@ =~= old(buffer)@ + attributes(extra@, elem_size as int));
        return (0, 0);
    }
    let offset = buffer.len();
    let mut i: usize = 0;
    let ghost whole = attributes(extra@, elem_size as int);
    while i < actual
        invariant
            i <= actual,
            total == extra@.len(),
            elem_size + actual <= total,
            whole == extra@.skip(elem_size as int).take(actual as int),
            buffer@ == old(buffer)@ + whole.take(i as int),
        decreases actual - i,
    {
        buffer.push(extra[elem_size + i]);
        i = i + 1;
        assert(buffer@ =~= old(buffer)@ + whole.take(i as int));
    }
    assert(whole.take(actual as int) =~= whole);
    (offset, actual)
}

/// What a length is written as: `width` bytes, lowest first.
pub open spec fn length_bytes(n: nat, width: nat) -> Seq<u8>
    decreases width,
{
    if width == 0 {
        Seq::empty()
    } else {
        seq![(n % 256) as u8] + length_bytes(n / 256, (width - 1) as nat)
    }
}

/// Reading a length gives back the one written.
pub proof fn lemma_length_round_trip(n: nat, width: nat)
    requires
        n < vstd::arithmetic::power::pow(256, width),
    ensures
        length_bytes(n, width).len() == width,
        little_endian(length_bytes(n, width)) == n,
    decreases width,
{
    reveal(vstd::arithmetic::power::pow);
    if width > 0 {
        let rest = (width - 1) as nat;
        let p = vstd::arithmetic::power::pow(256, rest);
        assert(n / 256 < p) by (nonlinear_arith)
            requires
                n < 256 * p,
        ;
        lemma_length_round_trip(n / 256, rest);
        assert(length_bytes(n, width).skip(1) =~= length_bytes(n / 256, rest));
    }
}

/// Attributes are read back as they were laid out: the length in the first
/// bytes of an element, whatever fills the rest of that element, the attribute
/// bytes, and any padding.
pub proof fn lemma_attributes_round_trip(
    attrs: Seq<u8>,
    filler: Seq<u8>,
    padding: Seq<u8>,
    elem_size: nat,
)
    requires
        elem_size > 0,
        attrs.len() < vstd::arithmetic::power::pow(256, length_width(elem_size as int) as nat),
        filler.len() + length_width(elem_size as int) == elem_size,
    ensures
        attributes(
            length_bytes(attrs.len(), length_width(elem_size as int) as nat) + filler + attrs
                + padding,
            elem_size as int,
        ) == attrs,
{
    let width = length_width(elem_size as int) as nat;
    let field = length_bytes(attrs.len(), width);
    lemma_length_round_trip(attrs.len(), width);
    let extra = field + filler + attrs + padding;
    assert(extra.take(width as int) =~= field);
    assert(extra.skip(elem_size as int) =~= attrs + padding);
    if extra.len() <= elem_size {
        assert(attrs =~= Seq::empty());
    } else {
        assert((attrs + padding).take(attrs.len() as int) =~= attrs);
    }
}

} // verus!
