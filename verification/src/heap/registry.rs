//! The arena in which the collector keeps the flags of its mutators.
use generational_arena::{Arena, Index};
use vstd::prelude::*;

verus! {

#[verifier::external_type_specification]
#[verifier::external_body]
#[verifier::reject_recursive_types(T)]
pub struct ExArena<T>(Arena<T>);

/// What an arena holds: for the key of each live entry, made of the index of
/// its slot and the generation in which it was put there, the value of the
/// entry.
pub uninterp spec fn entries(arena: Arena<(bool, bool)>) -> Map<(usize, u64), (bool, bool)>;

/// `Arena::with_capacity`: an arena with no entry.
#[verifier::external_body]
pub(crate) fn new_arena(capacity: usize) -> (r: Arena<(bool, bool)>)
    ensures
        forall|key: (usize, u64)| !entries(r).contains_key(key),
{
    Arena::with_capacity(capacity)
}

/// `Arena::insert`: puts `value` into the arena under a key that no live entry
/// has, and answers with the key.
#[verifier::external_body]
pub(crate) fn insert(arena: &mut Arena<(bool, bool)>, value: (bool, bool)) -> (r: (usize, u64))
    ensures
        !entries(*old(arena)).contains_key(r),
        entries(*final(arena)) == entries(*old(arena)).insert(r, value),
{
    arena.insert(value).into_raw_parts()
}

/// `Arena::remove`: takes the entry with the key `key` out of the arena and
/// answers with its value, or with `None` where the arena has no such entry.
#[verifier::external_body]
pub(crate) fn remove(arena: &mut Arena<(bool, bool)>, key: (usize, u64)) -> (r: Option<
    (bool, bool),
>)
    ensures
        entries(*old(arena)).contains_key(key) ==> r == Some(entries(*old(arena))[key]),
        !entries(*old(arena)).contains_key(key) ==> r.is_none(),
        entries(*final(arena)) == entries(*old(arena)).remove(key),
{
    arena.remove(Index::from_raw_parts(key.0, key.1))
}

/// `Arena::get`: the value of the entry with the key `key`, or `None` where the
/// arena has no such entry.
#[verifier::external_body]
pub(crate) fn get(arena: &Arena<(bool, bool)>, key: (usize, u64)) -> (r: Option<(bool, bool)>)
    ensures
        entries(*arena).contains_key(key) ==> r == Some(entries(*arena)[key]),
        !entries(*arena).contains_key(key) ==> r.is_none(),
{
    arena.get(Index::from_raw_parts(key.0, key.1)).copied()
}

/// Assignment through `Arena::get_mut`: the entry with the key `key` gets the
/// value `value`.
#[verifier::external_body]
pub(crate) fn set(arena: &mut Arena<(bool, bool)>, key: (usize, u64), value: (bool, bool))
    requires
        entries(*old(arena)).contains_key(key),
    ensures
        entries(*final(arena)) == entries(*old(arena)).insert(key, value),
{
    if let Some(slot) = arena.get_mut(Index::from_raw_parts(key.0, key.1)) {
        *slot = value;
    }
}

/// `Arena::iter`: the keys of the live entries, each once, in no order that
/// is known here.
#[verifier::external_body]
pub(crate) fn keys(arena: &Arena<(bool, bool)>) -> (r: Vec<(usize, u64)>)
    ensures
        r@.no_duplicates(),
        forall|key: (usize, u64)| r@.contains(key) <==> entries(*arena).contains_key(key),
{
    arena.iter().map(|(index, _)| index.into_raw_parts()).collect()
}

/// `Arena::len`: the number of live entries.
#[verifier::external_body]
pub(crate) fn len(arena: &Arena<(bool, bool)>) -> (r: usize)
    ensures
        r == entries(*arena).dom().len(),
{
    arena.len()
}

} // verus!
