//! The fixed-capacity list of ghost tags that each site keeps.
//!
//! Each site owns an `arrayvec::ArrayVec` with room for `MAX_GHOSTS` tags.
//! The items below declare that type to Verus and state, for the handful of
//! its methods that the microstate calls, what they do to the list.

use arrayvec::ArrayVec;
use vstd::prelude::*;

use crate::boundary::MAX_GHOSTS;

verus! {

/// `arrayvec::ArrayVec`, carried through verified code as an opaque value.
#[verifier::external_type_specification]
#[verifier::external_body]
#[verifier::reject_recursive_types(T)]
pub struct ExArrayVec<T, const CAP: usize>(ArrayVec<T, CAP>);

/// The tags that a ghost-tag list holds, in order.
pub uninterp spec fn ghost_tags(list: ArrayVec<usize, MAX_GHOSTS>) -> Seq<usize>;

/// Calls `ArrayVec::new`; the list it returns is empty.
#[verifier::external_body]
pub fn new_ghost_list() -> (r: ArrayVec<usize, MAX_GHOSTS>)
    ensures
        ghost_tags(r) == Seq::<usize>::empty(),
{
    ArrayVec::new()
}

/// Calls `ArrayVec::len`: the number of tags held, which never exceeds the
/// capacity `MAX_GHOSTS`.
#[verifier::external_body]
pub fn ghost_list_len(list: &ArrayVec<usize, MAX_GHOSTS>) -> (r: usize)
    ensures
        r == ghost_tags(*list).len(),
        r <= MAX_GHOSTS,
{
    list.len()
}

/// Reads the tag at position `i` through the slice `ArrayVec` dereferences to.
#[verifier::external_body]
pub fn ghost_list_get(list: &ArrayVec<usize, MAX_GHOSTS>, i: usize) -> (r: usize)
    requires
        i < ghost_tags(*list).len(),
    ensures
        r == ghost_tags(*list)[i as int],
{
    list[i]
}

/// Calls `ArrayVec::push`, which appends the tag; it panics on a full list,
/// so the caller must leave room.
#[verifier::external_body]
pub fn ghost_list_push(list: &mut ArrayVec<usize, MAX_GHOSTS>, tag: usize)
    requires
        ghost_tags(*old(list)).len() < MAX_GHOSTS,
    ensures
        ghost_tags(*final(list)) == ghost_tags(*old(list)).push(tag),
{
    list.push(tag);
}

/// Calls `ArrayVec::truncate`, which keeps the first `len` tags (all of them
/// when `len` is not smaller than the length).
#[verifier::external_body]
pub fn ghost_list_truncate(list: &mut ArrayVec<usize, MAX_GHOSTS>, len: usize)
    ensures
        len < ghost_tags(*old(list)).len() ==> ghost_tags(*final(list)) == ghost_tags(
            *old(list),
        ).subrange(0, len as int),
        len >= ghost_tags(*old(list)).len() ==> ghost_tags(*final(list)) == ghost_tags(*old(list)),
{
    list.truncate(len);
}

} // verus!
