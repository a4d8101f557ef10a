//! The fixed-capacity vectors of `heapless` that hold the note table and the
//! bytes of a frame being received, with what this library relies on of them.
use vstd::prelude::*;

verus! {

#[verifier::external_type_specification]
#[verifier::external_body]
#[verifier::reject_recursive_types(T)]
pub struct ExHeaplessVec<T, const N: usize>(heapless::Vec<T, N>);

/// The bytes that a vector of received bytes holds, in order.
pub uninterp spec fn frame_bytes_of(v: heapless::Vec<u8, 29>) -> Seq<u8>;

/// The slots that a note table holds, in order.
pub uninterp spec fn slots_of(v: heapless::Vec<Option<(u8, [u8; 20])>, 20>) -> Seq<
    Option<(u8, [u8; 20])>,
>;

/// Relies on heapless::Vec::new: a new vector holds nothing.
#[verifier::external_body]
pub(crate) fn frame_vec_new() -> (r: heapless::Vec<u8, 29>)
    ensures
        frame_bytes_of(r) == Seq::<u8>::empty(),
{
    heapless::Vec::new()
}

/// Relies on heapless::Vec::push: below the capacity of 29 the byte is
/// appended; at capacity the vector is left as it is and the byte handed back.
#[verifier::external_body]
pub(crate) fn frame_vec_push(v: &mut heapless::Vec<u8, 29>, byte: u8) -> (r: Result<(), u8>)
    ensures
        frame_bytes_of(*old(v)).len() < 29 ==> r is Ok && frame_bytes_of(*final(v)) == frame_bytes_of(*old(v)).push(byte),
        frame_bytes_of(*old(v)).len() >= 29 ==> (r matches Err(b) && b == byte) && frame_bytes_of(*final(v)) == frame_bytes_of(*old(v)),
    no_unwind
{
    v.push(byte)
}

/// Relies on heapless::Vec::as_slice: the slice holds the vector's bytes.
#[verifier::external_body]
pub(crate) fn frame_vec_as_slice(v: &heapless::Vec<u8, 29>) -> (r: &[u8])
    ensures
        r@ == frame_bytes_of(*v),
{
    v.as_slice()
}

/// Relies on heapless::Vec::clear: afterwards the vector holds nothing.
#[verifier::external_body]
pub(crate) fn frame_vec_clear(v: &mut heapless::Vec<u8, 29>)
    ensures
        frame_bytes_of(*final(v)) == Seq::<u8>::empty(),
    no_unwind
{
    v.clear()
}

/// Relies on heapless::Vec::from_slice: a slice no longer than the capacity
/// of 20 gives a vector of its items, in order; it fails only on a longer one.
#[verifier::external_body]
pub(crate) fn slot_vec_from_slice(items: &[Option<(u8, [u8; 20])>]) -> (r: heapless::Vec<
    Option<(u8, [u8; 20])>,
    20,
>)
    requires
        items@.len() <= 20,
    ensures
        slots_of(r) == items@,
{
    heapless::Vec::from_slice(items).unwrap()
}

/// Relies on heapless::Vec::as_slice: the slice holds the vector's slots.
#[verifier::external_body]
pub(crate) fn slot_vec_as_slice(v: &heapless::Vec<Option<(u8, [u8; 20])>, 20>) -> (r: &[Option<
    (u8, [u8; 20]),
>])
    ensures
        r@ == slots_of(*v),
{
    v.as_slice()
}

/// Relies on heapless::Vec's `DerefMut`: writing through the slice it gives
/// replaces that slot of the vector and nothing else.
#[verifier::external_body]
pub(crate) fn slot_vec_set(v: &mut heapless::Vec<Option<(u8, [u8; 20])>, 20>, i: usize, item: Option<(u8, [u8; 20])>)
    requires
        i < slots_of(*old(v)).len(),
    ensures
        slots_of(*final(v)) == slots_of(*old(v)).update(i as int, item),
    no_unwind
{
    core::ops::DerefMut::deref_mut(v)[i] = item;
}

} // verus!
