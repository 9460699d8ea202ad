//! The fixed-capacity vectors of `arrayvec` that moves use, with the contracts of the methods called on them.
use vstd::prelude::*;

use arrayvec::ArrayVec;

use super::utils::Piece;

verus! {

#[verifier::external_type_specification]
#[verifier::external_body]
#[verifier::reject_recursive_types(T)]
pub struct ExArrayVec<T, const CAP: usize>(ArrayVec<T, CAP>);

/// The elements of an `ArrayVec<u8, 8>`, in order.
pub uninterp spec fn u8_array_contents(v: ArrayVec<u8, 8>) -> Seq<u8>;

/// The elements of an `ArrayVec<Piece, 8>`, in order.
pub uninterp spec fn piece_array_contents(v: ArrayVec<Piece, 8>) -> Seq<Piece>;

/// `ArrayVec::new`: an empty vector.
#[verifier::external_body]
pub(crate) fn new_u8_array() -> (v: ArrayVec<u8, 8>)
    ensures
        u8_array_contents(v) == Seq::<u8>::empty(),
{
    ArrayVec::new()
}

/// `ArrayVec::push`: appends an element; it panics when the vector is full, which
/// `requires` rules out.
#[verifier::external_body]
pub(crate) fn u8_array_push(v: &mut ArrayVec<u8, 8>, x: u8)
    requires
        u8_array_contents(*old(v)).len() < 8,
    ensures
        u8_array_contents(*final(v)) == u8_array_contents(*old(v)).push(x),
{
    v.push(x)
}

/// `ArrayVec::len`: the number of elements.
#[verifier::external_body]
pub(crate) fn u8_array_len(v: &ArrayVec<u8, 8>) -> (n: usize)
    ensures
        n == u8_array_contents(*v).len(),
        n <= 8,
{
    v.len()
}

/// Indexing through the slice that `ArrayVec` dereferences to: the element at `i`.
#[verifier::external_body]
pub(crate) fn u8_array_get(v: &ArrayVec<u8, 8>, i: usize) -> (x: u8)
    requires
        i < u8_array_contents(*v).len(),
    ensures
        x == u8_array_contents(*v)[i as int],
{
    v[i]
}

/// `ArrayVec::new`: an empty vector.
#[verifier::external_body]
pub(crate) fn new_piece_array() -> (v: ArrayVec<Piece, 8>)
    ensures
        piece_array_contents(v) == Seq::<Piece>::empty(),
{
    ArrayVec::new()
}

/// `ArrayVec::push`: appends an element; it panics when the vector is full, which
/// `requires` rules out.
#[verifier::external_body]
pub(crate) fn piece_array_push(v: &mut ArrayVec<Piece, 8>, x: Piece)
    requires
        piece_array_contents(*old(v)).len() < 8,
    ensures
        piece_array_contents(*final(v)) == piece_array_contents(*old(v)).push(x),
{
    v.push(x)
}

/// `ArrayVec::pop`: removes and returns the last element, or `None` when empty.
#[verifier::external_body]
pub(crate) fn piece_array_pop(v: &mut ArrayVec<Piece, 8>) -> (x: Option<Piece>)
    ensures
        piece_array_contents(*old(v)).len() == 0 ==> x is None && piece_array_contents(*final(v))
            == piece_array_contents(*old(v)),
        piece_array_contents(*old(v)).len() > 0 ==> x == Some(piece_array_contents(*old(v)).last())
            && piece_array_contents(*final(v)) == piece_array_contents(*old(v)).drop_last(),
{
    v.pop()
}

/// `ArrayVec::len`: the number of elements.
#[verifier::external_body]
pub(crate) fn piece_array_len(v: &ArrayVec<Piece, 8>) -> (n: usize)
    ensures
        n == piece_array_contents(*v).len(),
        n <= 8,
{
    v.len()
}

/// The elements of an `ArrayVec<u8, 255>`, in order.
pub uninterp spec fn u8_array255_contents(v: ArrayVec<u8, 255>) -> Seq<u8>;

/// `ArrayVec::new`: an empty vector.
#[verifier::external_body]
pub(crate) fn new_u8_array255() -> (v: ArrayVec<u8, 255>)
    ensures
        u8_array255_contents(v) == Seq::<u8>::empty(),
{
    ArrayVec::new()
}

/// `ArrayVec::push`: appends an element; it panics when the vector is full, which
/// `requires` rules out.
#[verifier::external_body]
pub(crate) fn u8_array255_push(v: &mut ArrayVec<u8, 255>, x: u8)
    requires
        u8_array255_contents(*old(v)).len() < 255,
    ensures
        u8_array255_contents(*final(v)) == u8_array255_contents(*old(v)).push(x),
{
    v.push(x)
}

/// `ArrayVec::len`: the number of elements.
#[verifier::external_body]
pub(crate) fn u8_array255_len(v: &ArrayVec<u8, 255>) -> (n: usize)
    ensures
        n == u8_array255_contents(*v).len(),
        n <= 255,
{
    v.len()
}

/// Indexing through the slice that `ArrayVec` dereferences to: the element at `i`.
#[verifier::external_body]
pub(crate) fn u8_array255_get(v: &ArrayVec<u8, 255>, i: usize) -> (x: u8)
    requires
        i < u8_array255_contents(*v).len(),
    ensures
        x == u8_array255_contents(*v)[i as int],
{
    v[i]
}

} // verus!
