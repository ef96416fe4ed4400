//! The bounded vectors of the `fixedvec` crate that hold the free-list and the
//! region table, and the calls the library makes on them.
use vstd::prelude::*;

use crate::frame::FrameRange;
use crate::region::MemoryRegion;
use fixedvec::{ErrorKind, FixedVec};

verus! {

#[verifier::external_type_specification]
#[verifier::external_body]
#[verifier::reject_recursive_types(T)]
pub struct ExFixedVec<'a, T: 'a + Copy>(FixedVec<'a, T>);

#[verifier::external_type_specification]
#[verifier::external_body]
pub struct ExErrorKind(ErrorKind);

/// The ranges a free-list vector holds, in order.
pub uninterp spec fn stored_ranges(v: FixedVec<FrameRange>) -> Seq<FrameRange>;

/// The number of slots a free-list vector was given.
pub uninterp spec fn range_slots(v: FixedVec<FrameRange>) -> nat;

/// Relies on FixedVec::new: an empty vector whose capacity is the slice's length.
#[verifier::external_body]
pub(crate) fn ranges_new<'a>(memory: &'a mut [FrameRange]) -> (r: FixedVec<'a, FrameRange>)
    ensures
        stored_ranges(r) == Seq::<FrameRange>::empty(),
        range_slots(r) == old(memory)@.len(),
{
    FixedVec::new(memory)
}

/// Relies on FixedVec::len: the number of stored elements, never above capacity.
#[verifier::external_body]
pub(crate) fn ranges_len(v: &FixedVec<FrameRange>) -> (r: usize)
    ensures
        r == stored_ranges(*v).len(),
        r <= range_slots(*v),
{
    v.len()
}

/// Relies on FixedVec::capacity: the length of the slice it was made with.
#[verifier::external_body]
pub(crate) fn ranges_capacity(v: &FixedVec<FrameRange>) -> (r: usize)
    ensures
        r == range_slots(*v),
{
    v.capacity()
}

/// Relies on FixedVec::get: the element at `index`, if it is stored.
#[verifier::external_body]
pub(crate) fn ranges_get(v: &FixedVec<FrameRange>, index: usize) -> (r: Option<FrameRange>)
    ensures
        index < stored_ranges(*v).len() ==> r == Some(stored_ranges(*v)[index as int]),
        index >= stored_ranges(*v).len() ==> r is None,
{
    v.get(index).copied()
}

/// Relies on FixedVec::as_mut_slice: the stored elements, writable in place.
#[verifier::external_body]
pub(crate) fn ranges_set(v: &mut FixedVec<FrameRange>, index: usize, value: FrameRange)
    requires
        index < stored_ranges(*old(v)).len(),
    ensures
        stored_ranges(*final(v)) == stored_ranges(*old(v)).update(index as int, value),
        range_slots(*final(v)) == range_slots(*old(v)),
{
    v.as_mut_slice()[index] = value;
}

/// Relies on FixedVec::insert: shifts the tail right when there is a free
/// slot, else reports `NoSpace`. It indexes one past the slice when a
/// middle insertion takes the last free slot, so that case is excluded.
#[verifier::external_body]
pub(crate) fn ranges_insert(v: &mut FixedVec<FrameRange>, index: usize, value: FrameRange) -> (r:
    Result<(), ErrorKind>)
    requires
        index <= stored_ranges(*old(v)).len(),
        index == stored_ranges(*old(v)).len() || stored_ranges(*old(v)).len() == 0
            || stored_ranges(*old(v)).len() + 1 != range_slots(*old(v)),
    ensures
        range_slots(*final(v)) == range_slots(*old(v)),
        r is Ok <==> stored_ranges(*old(v)).len() < range_slots(*old(v)),
        r is Ok ==> stored_ranges(*final(v)) == stored_ranges(*old(v)).insert(index as int, value),
        r is Err ==> stored_ranges(*final(v)) == stored_ranges(*old(v)),
{
    v.insert(index, value)
}

/// Relies on FixedVec::push: appends when there is a free slot, else reports
/// `NoSpace`.
#[verifier::external_body]
pub(crate) fn ranges_push(v: &mut FixedVec<FrameRange>, value: FrameRange) -> (r: Result<
    (),
    ErrorKind,
>)
    ensures
        range_slots(*final(v)) == range_slots(*old(v)),
        r is Ok <==> stored_ranges(*old(v)).len() < range_slots(*old(v)),
        r is Ok ==> stored_ranges(*final(v)) == stored_ranges(*old(v)).push(value),
        r is Err ==> stored_ranges(*final(v)) == stored_ranges(*old(v)),
{
    v.push(value)
}

/// Relies on FixedVec::remove: takes out the element at `index` and shifts
/// the tail left.
#[verifier::external_body]
pub(crate) fn ranges_remove(v: &mut FixedVec<FrameRange>, index: usize) -> (r: FrameRange)
    requires
        index < stored_ranges(*old(v)).len(),
    ensures
        r == stored_ranges(*old(v))[index as int],
        stored_ranges(*final(v)) == stored_ranges(*old(v)).remove(index as int),
        range_slots(*final(v)) == range_slots(*old(v)),
{
    v.remove(index)
}

/// The regions a region-table vector holds, in order.
pub uninterp spec fn stored_regions(v: FixedVec<MemoryRegion>) -> Seq<MemoryRegion>;

/// The number of slots a region-table vector was given.
pub uninterp spec fn region_slots(v: FixedVec<MemoryRegion>) -> nat;

/// Relies on FixedVec::new: an empty vector whose capacity is the slice's length.
#[verifier::external_body]
pub(crate) fn regions_new<'a>(memory: &'a mut [MemoryRegion]) -> (r: FixedVec<'a, MemoryRegion>)
    ensures
        stored_regions(r) == Seq::<MemoryRegion>::empty(),
        region_slots(r) == old(memory)@.len(),
{
    FixedVec::new(memory)
}

/// Relies on FixedVec::len: the number of stored elements, never above capacity.
#[verifier::external_body]
pub(crate) fn regions_len(v: &FixedVec<MemoryRegion>) -> (r: usize)
    ensures
        r == stored_regions(*v).len(),
        r <= region_slots(*v),
{
    v.len()
}

/// Relies on FixedVec::get: the element at `index`, if it is stored.
#[verifier::external_body]
pub(crate) fn regions_get(v: &FixedVec<MemoryRegion>, index: usize) -> (r: Option<MemoryRegion>)
    ensures
        index < stored_regions(*v).len() ==> r == Some(stored_regions(*v)[index as int]),
        index >= stored_regions(*v).len() ==> r is None,
{
    v.get(index).copied()
}

/// Relies on FixedVec::push: appends when there is a free slot, else reports
/// `NoSpace`.
#[verifier::external_body]
pub(crate) fn regions_push(v: &mut FixedVec<MemoryRegion>, value: MemoryRegion) -> (r: Result<
    (),
    ErrorKind,
>)
    ensures
        region_slots(*final(v)) == region_slots(*old(v)),
        r is Ok <==> stored_regions(*old(v)).len() < region_slots(*old(v)),
        r is Ok ==> stored_regions(*final(v)) == stored_regions(*old(v)).push(value),
        r is Err ==> stored_regions(*final(v)) == stored_regions(*old(v)),
{
    v.push(value)
}

} // verus!
