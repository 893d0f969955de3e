//! A scratch buffer of coordinate pairs with inline storage, backed by the
//! `smallvec` crate: rules that first gather a handful of coordinates and
//! then act on them keep the gathering allocation-free for small boards.

use vstd::prelude::*;

use smallvec::SmallVec;

verus! {

/// A buffer of coordinate pairs. The backing store is a `smallvec` vector
/// with room for thirty-two pairs before it spills to the heap; Verus sees
/// the buffer only through `coord_buffer_items` and the functions below.
#[verifier::external_body]
pub struct CoordBuffer {
    items: SmallVec<[(usize, usize); 32]>,
}

/// The coordinate pairs the buffer holds, in order.
pub uninterp spec fn coord_buffer_items(v: CoordBuffer) -> Seq<(usize, usize)>;

/// Relies on `smallvec::SmallVec::new`: the new vector is empty.
#[verifier::external_body]
pub fn coord_buffer_new() -> (v: CoordBuffer)
    ensures
        coord_buffer_items(v) == Seq::<(usize, usize)>::empty(),
{
    CoordBuffer { items: SmallVec::new() }
}

/// Relies on `smallvec::SmallVec::push`: the value is appended at the end,
/// spilling to the heap when the inline capacity is full.
#[verifier::external_body]
pub fn coord_buffer_push(v: &mut CoordBuffer, item: (usize, usize))
    ensures
        coord_buffer_items(*final(v)) == coord_buffer_items(*old(v)).push(item),
{
    v.items.push(item)
}

/// Relies on `smallvec::SmallVec::len`: the number of items held.
#[verifier::external_body]
pub fn coord_buffer_len(v: &CoordBuffer) -> (n: usize)
    ensures
        n == coord_buffer_items(*v).len(),
{
    v.items.len()
}

/// Relies on `smallvec`'s `Index` implementation, which indexes the items as
/// a slice.
#[verifier::external_body]
pub fn coord_buffer_get(v: &CoordBuffer, i: usize) -> (item: (usize, usize))
    requires
        i < coord_buffer_items(*v).len(),
    ensures
        item == coord_buffer_items(*v)[i as int],
{
    v.items[i]
}

} // verus!
