//! The anonymous memory mapping that backs the Immix space.
use memmap2::MmapMut;
use vstd::prelude::*;

verus! {

#[verifier::external_type_specification]
#[verifier::external_body]
pub struct ExMmapMut(MmapMut);

/// The bytes of a mapping, from its first to its last.
pub uninterp spec fn mapped_bytes(map: MmapMut) -> Seq<u8>;

/// `memmap2::MmapMut::map_anon`: asks the system for an anonymous mapping of
/// `len` bytes. The request may fail; a mapping that is returned is `len`
/// bytes long.
#[verifier::external_body]
pub(crate) fn map_anon(len: usize) -> (r: Option<MmapMut>)
    ensures
        r matches Some(map) ==> mapped_bytes(map).len() == len,
{
    MmapMut::map_anon(len).ok()
}

/// `<[u8]>::len` on the mapping: the number of its bytes.
#[verifier::external_body]
pub(crate) fn mapped_len(map: &MmapMut) -> (r: usize)
    ensures
        r == mapped_bytes(*map).len(),
{
    map.len()
}

/// `<[u8]>::as_ptr` on the mapping: the machine address of its first byte. The
/// mapping is a slice of bytes, so the address is not null and the bytes end
/// at or below the largest address. Where the mapping lies is not known here.
#[verifier::external_body]
pub(crate) fn base_address(map: &MmapMut) -> (r: usize)
    ensures
        r > 0,
        r + mapped_bytes(*map).len() <= usize::MAX,
{
    map.as_ptr() as usize
}

/// Indexing the mapping as a byte slice: the byte at `index`.
#[verifier::external_body]
pub(crate) fn read_byte(map: &MmapMut, index: usize) -> (r: u8)
    requires
        index < mapped_bytes(*map).len(),
    ensures
        r == mapped_bytes(*map)[index as int],
{
    map[index]
}

/// Assigning through an index into the mapping as a byte slice: the byte at
/// `index` becomes `value` and no other byte changes.
#[verifier::external_body]
pub(crate) fn write_byte(map: &mut MmapMut, index: usize, value: u8)
    requires
        index < mapped_bytes(*old(map)).len(),
    ensures
        mapped_bytes(*final(map)) == mapped_bytes(*old(map)).update(index as int, value),
{
    map[index] = value;
}

} // verus!
