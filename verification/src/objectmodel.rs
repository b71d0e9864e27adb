//! The object model: how the byte of the alloc map at the start of an object
//! encodes where the object holds references.
use crate::common::{lower_bits, test_nth_bit, ObjectReference};
use crate::heap::immix::immix_space::{word_at, ImmixSpaceView};
use crate::heap::immix::ImmixSpace;
use vstd::prelude::*;

verus! {

/// The number of low bits of an encoding byte that say which words hold
/// references.
pub const REF_BITS_LEN: usize = 6;

/// The bit of an encoding byte that says that an object starts at the word.
pub const OBJ_START_BIT: usize = 6;

/// The bit of an encoding byte that says that the byte is the last of the
/// object's encoding.
pub const SHORT_ENCODE_BIT: usize = 7;

/// The bits of `byte` that say which of the six words from its word on hold
/// references.
pub open spec fn ref_bits(byte: u8) -> u8 {
    byte & 0x3f
}

/// `byte` says that an object starts at its word.
pub open spec fn is_object_start(byte: u8) -> bool {
    byte & 0x40 != 0
}

/// `byte` is the last byte of the encoding of its object.
pub open spec fn is_short_encoded(byte: u8) -> bool {
    byte & 0x80 != 0
}

/// The number of words, from the first on, that hold references where the
/// reference bits are `bits`: one, two or four. No other pattern of bits is
/// recognized.
pub open spec fn ref_count(bits: u8) -> Option<int> {
    if bits == 0b0000_0001 {
        Some(1)
    } else if bits == 0b0000_0011 {
        Some(2)
    } else if bits == 0b0000_1111 {
        Some(4)
    } else {
        None
    }
}

/// The addresses of the words that hold the references of the object part
/// that starts at `base`, in the order in which a trace reads them: the words
/// that the encoding byte for `base` names, then, unless that byte is the last
/// of the encoding, those of the part that starts six words on. `None` where
/// the encoding is malformed: a part starts outside the space or reaches
/// beyond its end, or its reference bits are not recognized.
#[verifier::opaque]
pub open spec fn ref_fields(space: ImmixSpaceView, base: int) -> Option<Seq<int>>
    decreases space.end - base,
{
    if !space.contains(base) {
        None
    } else {
        let byte = space.alloc_map[space.word_of(base)];
        match ref_count(ref_bits(byte)) {
            None => None,
            Some(count) => if base + 8 * count > space.end {
                None
            } else {
                let here = Seq::new(count as nat, |i: int| base + 8 * i);
                if is_short_encoded(byte) {
                    Some(here)
                } else if base + 48 >= space.end {
                    None
                } else {
                    match ref_fields(space, base + 48) {
                        None => None,
                        Some(rest) => Some(here + rest),
                    }
                }
            },
        }
    }
}

/// The object at `parent` holds a reference to `child`, and both lie in the
/// space.
#[verifier::opaque]
pub open spec fn is_child(space: ImmixSpaceView, parent: int, child: int) -> bool {
    &&& space.contains(parent)
    &&& space.contains(child)
    &&& ref_fields(space, parent) matches Some(fields) && exists|i: int|
        0 <= i < fields.len() && word_at(space.memory, #[trigger] fields[i] - space.start) == child
}

/// `path` leads from one of `roots` over references from object to object, all
/// of them in the space.
pub open spec fn is_path(space: ImmixSpaceView, roots: Seq<ObjectReference>, path: Seq<int>) -> bool {
    &&& path.len() > 0
    &&& space.contains(path[0])
    &&& exists|i: int| 0 <= i < roots.len() && (#[trigger] roots[i])@ == path[0]
    &&& forall|i: int| 0 <= i < path.len() - 1 ==> is_child(space, #[trigger] path[i], path[i + 1])
}

/// `addr` can be reached from `roots`: it is a root in the space, or a path of
/// references leads to it from one.
#[verifier::opaque]
pub open spec fn reachable(space: ImmixSpaceView, roots: Seq<ObjectReference>, addr: int) -> bool {
    exists|path: Seq<int>| is_path(space, roots, path) && #[trigger] path.last() == addr
}

/// The reference words of an object part, spelled out for the part that starts
/// at `base`.
pub proof fn lemma_ref_fields(space: ImmixSpaceView, base: int)
    ensures
        ref_fields(space, base) == if !space.contains(base) {
            None
        } else {
            let byte = space.alloc_map[space.word_of(base)];
            match ref_count(ref_bits(byte)) {
                None => None,
                Some(count) => if base + 8 * count > space.end {
                    None
                } else {
                    let here = Seq::new(count as nat, |i: int| base + 8 * i);
                    if is_short_encoded(byte) {
                        Some(here)
                    } else if base + 48 >= space.end {
                        None
                    } else {
                        match ref_fields(space, base + 48) {
                            None => None,
                            Some(rest) => Some(here + rest),
                        }
                    }
                },
            }
        },
{
    reveal(ref_fields);
}

/// An object holds a reference to what one of its reference words points to.
pub proof fn lemma_is_child(
    space: ImmixSpaceView,
    parent: int,
    fields: Seq<int>,
    i: int,
    child: int,
)
    requires
        space.contains(parent),
        space.contains(child),
        ref_fields(space, parent) == Some(fields),
        0 <= i < fields.len(),
        word_at(space.memory, fields[i] - space.start) == child,
    ensures
        is_child(space, parent, child),
{
    reveal(is_child);
    let found = ref_fields(space, parent)->0;
    assert(found == fields);
    assert(0 <= i < found.len() && word_at(space.memory, found[i] - space.start) == child);
}

/// The byte of the alloc map for the object `obj`.
pub fn get_ref_byte(space: &ImmixSpace, obj: ObjectReference) -> (r: u8)
    requires
        space.wf(),
        space@.contains(obj@),
    ensures
        r == space@.alloc_map[space@.word_of(obj@)],
{
    space.get_ref_byte(obj.to_address())
}

/// The reference bits of the encoding byte `value` and whether it is the last
/// byte of its encoding.
pub fn decode(value: u8) -> (r: (u8, bool))
    ensures
        r.0 == ref_bits(value),
        r.1 == is_short_encoded(value),
{
    let bits = lower_bits(value, REF_BITS_LEN);
    let short_encode = test_nth_bit(value, SHORT_ENCODE_BIT);
    assert(bits == value & 0x3f && short_encode == (value & 0x80 != 0)) by (bit_vector)
        requires
            bits == value & (((1u8 << 6usize) - 1) as u8),
            short_encode == (value & (1u8 << 7usize) != 0),
    ;
    (bits, short_encode)
}

/// Whether `value` says that an object starts at its word.
pub fn starts_object(value: u8) -> (r: bool)
    ensures
        r == is_object_start(value),
{
    let r = test_nth_bit(value, OBJ_START_BIT);
    assert(r == (value & 0x40 != 0)) by (bit_vector)
        requires
            r == (value & (1u8 << 6usize) != 0),
    ;
    r
}

/// Marks the object `obj` as traced in the collection under way.
pub fn mark_as_traced(space: &mut ImmixSpace, obj: ObjectReference)
    requires
        old(space).wf(),
        old(space)@.contains(obj@),
    ensures
        final(space).wf(),
        final(space)@ == (ImmixSpaceView {
            trace_cells: old(space)@.trace_cells.update(
                old(space)@.word_of(obj@),
                old(space)@.mark_state,
            ),
            ..old(space)@
        }),
{
    space.mark_as_traced(obj.to_address());
}

/// Whether the object `obj` has been traced in the collection under way.
pub fn is_traced(space: &ImmixSpace, obj: ObjectReference) -> (r: bool)
    requires
        space.wf(),
        space@.contains(obj@),
    ensures
        r == space@.is_traced(obj@),
{
    space.is_traced(obj.to_address())
}

} // verus!
