use core::num::NonZeroU32;
use slab::Slab;
use vstd::prelude::*;

use crate::note::NoteBox;
use crate::skip_list::NoteSkipListNode;

verus! {

#[verifier::external_type_specification]
#[verifier::external_body]
#[verifier::reject_recursive_types(T)]
pub struct ExSlab<T>(Slab<T>);

/// A slot number held in a `NonZeroU32`, so that an absent handle costs no room. The word
/// is opaque: it is made only by `nonzero_new` and read only by `nonzero_get`.
#[verifier::external_body]
#[derive(Copy)]
pub struct KeyWord(NonZeroU32);

impl Clone for KeyWord {
    fn clone(&self) -> (r: Self)
        ensures
            r == *self,
    {
        *self
    }
}

/// The integer held by a handle word.
pub uninterp spec fn nonzero_value(n: KeyWord) -> u32;

/// The occupied slots of a payload arena, by key.
pub uninterp spec fn note_slots(s: Slab<NoteBox>) -> Map<int, NoteBox>;

/// The number of slots, occupied or vacant, that a payload arena has laid out.
pub uninterp spec fn note_extent(s: Slab<NoteBox>) -> nat;

/// The occupied slots of a node arena, by key.
pub uninterp spec fn node_slots(s: Slab<NoteSkipListNode>) -> Map<int, NoteSkipListNode>;

/// The number of slots, occupied or vacant, that a node arena has laid out.
pub uninterp spec fn node_extent(s: Slab<NoteSkipListNode>) -> nat;

/// Relies on `NonZeroU32::new`: `None` exactly for zero, else a word holding `n`.
#[verifier::external_body]
pub(crate) fn nonzero_new(n: u32) -> (r: Option<KeyWord>)
    ensures
        r is None <==> n == 0,
        r matches Some(v) ==> nonzero_value(v) == n,
{
    NonZeroU32::new(n).map(KeyWord)
}

/// Relies on `NonZeroU32::get`: the integer held.
#[verifier::external_body]
pub(crate) fn nonzero_get(n: KeyWord) -> (r: u32)
    ensures
        r == nonzero_value(n),
        r != 0,
{
    n.0.get()
}

/// Relies on `Slab::new`: an arena with no slots.
#[verifier::external_body]
pub(crate) fn note_arena_new() -> (r: Slab<NoteBox>)
    ensures
        note_slots(r).dom() =~= Set::empty(),
        note_slots(r).dom().finite(),
        note_extent(r) == 0,
{
    Slab::new()
}

/// Relies on `Slab::insert`: the value goes into a vacant slot, nothing else changes. A slot
/// that was laid out and freed is taken again before the layout grows; otherwise the value
/// goes into a new slot just past the layout.
#[verifier::external_body]
pub(crate) fn note_arena_insert(s: &mut Slab<NoteBox>, v: NoteBox) -> (r: usize)
    ensures
        !note_slots(*old(s)).contains_key(r as int),
        note_slots(*final(s)) == note_slots(*old(s)).insert(r as int, v),
        note_slots(*old(s)).dom().len() < note_extent(*old(s)) ==> r < note_extent(*old(s))
            && note_extent(*final(s)) == note_extent(*old(s)),
        note_slots(*old(s)).dom().len() >= note_extent(*old(s)) ==> r == note_extent(*old(s))
            && note_extent(*final(s)) == note_extent(*old(s)) + 1,
        note_slots(*final(s)).dom().finite(),
        note_slots(*final(s)).dom().len() <= note_extent(*final(s)),
{
    s.insert(v)
}

/// Relies on `Slab::index`: the value in an occupied slot (it panics on a vacant one).
#[verifier::external_body]
pub(crate) fn note_arena_get(s: &Slab<NoteBox>, key: usize) -> (r: NoteBox)
    requires
        note_slots(*s).contains_key(key as int),
    ensures
        r == note_slots(*s)[key as int],
{
    s[key]
}

/// Relies on `Slab::new`: an arena with no slots.
#[verifier::external_body]
pub(crate) fn node_arena_new() -> (r: Slab<NoteSkipListNode>)
    ensures
        node_slots(r).dom() =~= Set::empty(),
        node_slots(r).dom().finite(),
        node_extent(r) == 0,
{
    Slab::new()
}

/// Relies on `Slab::insert`: the value goes into a vacant slot, nothing else changes. A slot
/// that was laid out and freed is taken again before the layout grows; otherwise the value
/// goes into a new slot just past the layout.
#[verifier::external_body]
pub(crate) fn node_arena_insert(s: &mut Slab<NoteSkipListNode>, v: NoteSkipListNode) -> (r: usize)
    ensures
        !node_slots(*old(s)).contains_key(r as int),
        node_slots(*final(s)) == node_slots(*old(s)).insert(r as int, v),
        node_slots(*old(s)).dom().len() < node_extent(*old(s)) ==> r < node_extent(*old(s))
            && node_extent(*final(s)) == node_extent(*old(s)),
        node_slots(*old(s)).dom().len() >= node_extent(*old(s)) ==> r == node_extent(*old(s))
            && node_extent(*final(s)) == node_extent(*old(s)) + 1,
        node_slots(*final(s)).dom().finite(),
        node_slots(*final(s)).dom().len() <= node_extent(*final(s)),
{
    s.insert(v)
}

/// Relies on `Slab::index`: the value in an occupied slot (it panics on a vacant one).
#[verifier::external_body]
pub(crate) fn node_arena_get(s: &Slab<NoteSkipListNode>, key: usize) -> (r: NoteSkipListNode)
    requires
        node_slots(*s).contains_key(key as int),
    ensures
        r == node_slots(*s)[key as int],
{
    s[key]
}

/// Relies on `Slab::index_mut`: overwrites an occupied slot (it panics on a vacant one)
/// and leaves every other slot, and the layout, as they were.
#[verifier::external_body]
pub(crate) fn node_arena_set(s: &mut Slab<NoteSkipListNode>, key: usize, v: NoteSkipListNode)
    requires
        node_slots(*old(s)).contains_key(key as int),
    ensures
        node_slots(*final(s)) == node_slots(*old(s)).insert(key as int, v),
        node_extent(*final(s)) == node_extent(*old(s)),
        node_slots(*final(s)).dom().finite(),
        node_slots(*final(s)).dom().len() <= node_extent(*final(s)),
{
    s[key] = v;
}

/// Relies on `Slab::remove`: frees an occupied slot (it panics on a vacant one) and leaves
/// every other slot, and the layout, as they were.
#[verifier::external_body]
pub(crate) fn note_arena_remove(s: &mut Slab<NoteBox>, key: usize)
    requires
        note_slots(*old(s)).contains_key(key as int),
    ensures
        note_slots(*final(s)) == note_slots(*old(s)).remove(key as int),
        note_extent(*final(s)) == note_extent(*old(s)),
        note_slots(*final(s)).dom().finite(),
        note_slots(*final(s)).dom().len() <= note_extent(*final(s)),
{
    s.remove(key);
}

/// Relies on `Slab::remove`: frees an occupied slot (it panics on a vacant one) and leaves
/// every other slot, and the layout, as they were.
#[verifier::external_body]
pub(crate) fn node_arena_remove(s: &mut Slab<NoteSkipListNode>, key: usize)
    requires
        node_slots(*old(s)).contains_key(key as int),
    ensures
        node_slots(*final(s)) == node_slots(*old(s)).remove(key as int),
        node_extent(*final(s)) == node_extent(*old(s)),
        node_slots(*final(s)).dom().finite(),
        node_slots(*final(s)).dom().len() <= node_extent(*final(s)),
{
    s.remove(key);
}

} // verus!
