//! The fixed-capacity vector of the `arrayvec` crate, as this library uses it:
//! a stack of at most nine tiles, never allocated on the heap.
use vstd::prelude::*;
use arrayvec::ArrayVec;
use crate::tile::Tile;

verus! {

#[verifier::external_type_specification]
#[verifier::external_body]
#[verifier::reject_recursive_types(T)]
pub struct ExArrayVec<T, const CAP: usize>(ArrayVec<T, CAP>);

/// The tiles that a stack holds, bottom first.
pub uninterp spec fn tiles_of(v: ArrayVec<Tile, 9>) -> Seq<Tile>;

/// Relies on `ArrayVec::new`: a new vector is empty.
#[verifier::external_body]
pub(crate) fn stack_new() -> (r: ArrayVec<Tile, 9>)
    ensures
        tiles_of(r) == Seq::<Tile>::empty(),
{
    ArrayVec::new()
}

/// Relies on `From<[T; CAP]> for ArrayVec`: the vector holds the array's items in order.
#[verifier::external_body]
pub(crate) fn stack_from(deck: [Tile; 9]) -> (r: ArrayVec<Tile, 9>)
    ensures
        tiles_of(r) == deck@,
{
    ArrayVec::from(deck)
}

/// Relies on `ArrayVec::len`: the number of items held.
#[verifier::external_body]
pub(crate) fn stack_len(v: &ArrayVec<Tile, 9>) -> (r: usize)
    ensures
        r == tiles_of(*v).len(),
{
    v.len()
}

/// Relies on indexing through `ArrayVec`'s `Deref` to a slice of its items.
#[verifier::external_body]
pub(crate) fn stack_get(v: &ArrayVec<Tile, 9>, i: usize) -> (r: Tile)
    requires
        i < tiles_of(*v).len(),
    ensures
        r == tiles_of(*v)[i as int],
{
    v[i]
}

/// Relies on `ArrayVec::push`, which panics on a full vector: the item goes on top.
#[verifier::external_body]
pub(crate) fn stack_push(v: &mut ArrayVec<Tile, 9>, t: Tile)
    requires
        tiles_of(*old(v)).len() < 9,
    ensures
        tiles_of(*final(v)) == tiles_of(*old(v)).push(t),
{
    v.push(t)
}

/// Relies on `ArrayVec::pop`: the top item leaves and is returned, `None` when empty.
#[verifier::external_body]
pub(crate) fn stack_pop(v: &mut ArrayVec<Tile, 9>) -> (r: Option<Tile>)
    ensures
        tiles_of(*old(v)).len() == 0 ==> r is None && tiles_of(*final(v)) == tiles_of(*old(v)),
        tiles_of(*old(v)).len() > 0 ==> r == Some(tiles_of(*old(v)).last())
            && tiles_of(*final(v)) == tiles_of(*old(v)).drop_last(),
{
    v.pop()
}

/// Relies on `ArrayVec::swap_remove`, which panics on an index out of
/// bounds: the item at `i` leaves and the top item takes its place.
#[verifier::external_body]
pub(crate) fn stack_swap_remove(v: &mut ArrayVec<Tile, 9>, i: usize) -> (r: Tile)
    requires
        i < tiles_of(*old(v)).len(),
    ensures
        r == tiles_of(*old(v))[i as int],
        tiles_of(*final(v)) == tiles_of(*old(v)).update(i as int, tiles_of(*old(v)).last()).drop_last(),
{
    v.swap_remove(i)
}

/// Relies on `Clone for ArrayVec`: the copy holds the same items in order.
#[verifier::external_body]
pub(crate) fn stack_clone(v: &ArrayVec<Tile, 9>) -> (r: ArrayVec<Tile, 9>)
    ensures
        tiles_of(r) == tiles_of(*v),
{
    v.clone()
}

/// Relies on `ArrayVec::into_inner`: the array when the vector is full,
/// the vector itself otherwise.
#[verifier::external_body]
pub(crate) fn stack_into_inner(v: ArrayVec<Tile, 9>) -> (r: Result<[Tile; 9], ArrayVec<Tile, 9>>)
    ensures
        tiles_of(v).len() == 9 ==> r is Ok && r->Ok_0@ == tiles_of(v),
        tiles_of(v).len() < 9 ==> r is Err && tiles_of(r->Err_0) == tiles_of(v),
{
    v.into_inner()
}

} // verus!
