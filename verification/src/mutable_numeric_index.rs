//! The numeric store that accepts new values.

use vstd::prelude::*;
use crate::counter::HardwareCounterCell;
use crate::encodable::Encodable;
use crate::in_memory_numeric_index::grown_to;
use crate::in_memory_numeric_index::InMemoryNumericIndex;
use crate::sorted_points::insert_points;
use crate::sorted_points::without_point;
use crate::types::OperationResult;
use crate::types::Point;
use crate::types::PointOffsetType;

verus! {

pub struct MutableNumericIndex<T: Encodable> {
    in_memory_index: InMemoryNumericIndex<T>,
}

impl<T: Encodable> MutableNumericIndex<T> {
    /// The store behind the index.
    pub closed spec fn view(&self) -> InMemoryNumericIndex<T> {
        self.in_memory_index
    }

    pub open spec fn wf(&self) -> bool {
        self@.wf()
    }

    pub fn new() -> (index: Self)
        ensures
            index.wf(),
            index@.points() == Seq::<Point<T>>::empty(),
            index@.point_values() == Seq::<Seq<T>>::empty(),
            index@.max_values() == 0,
    {
        MutableNumericIndex { in_memory_index: InMemoryNumericIndex::new() }
    }

    pub fn into_in_memory_index(self) -> (index: InMemoryNumericIndex<T>)
        ensures
            index == self@,
    {
        self.in_memory_index
    }

    /// The ordered store, for reading.
    pub fn map(&self) -> (index: &InMemoryNumericIndex<T>)
        ensures
            *index == self@,
    {
        &self.in_memory_index
    }

    /// Forgets everything.
    pub fn clear(&mut self) -> (r: OperationResult<()>)
        ensures
            r.is_ok(),
            final(self).wf(),
            final(self)@.points() == Seq::<Point<T>>::empty(),
            final(self)@.point_values() == Seq::<Seq<T>>::empty(),
            final(self)@.max_values() == 0,
    {
        self.in_memory_index = InMemoryNumericIndex::new();
        Ok(())
    }

    /// Gives point `idx` the values `values`, in place of any it had, and
    /// charges the size of the list header as written. With no values
    /// nothing but the counter changes.
    pub fn add_many_to_list(
        &mut self,
        idx: PointOffsetType,
        values: Vec<T>,
        hw_counter: &mut HardwareCounterCell,
    ) -> (r: OperationResult<()>)
        requires
            old(self).wf(),
        ensures
            r.is_ok(),
            final(self).wf(),
            *final(hw_counter) == old(hw_counter).written_more(
                vstd::layout::size_of::<Vec<T>>() as usize,
            ),
            values@.len() == 0 ==> final(self)@ == old(self)@,
            values@.len() > 0 ==> {
                &&& final(self)@.points() == insert_points(
                    without_point(old(self)@.points(), idx),
                    values@,
                    idx,
                )
                &&& final(self)@.point_values() == grown_to(old(self)@.point_values(), idx).update(
                    idx as int,
                    values@,
                )
                &&& final(self)@.max_values() == if values@.len() > old(self)@.max_values() {
                    values@.len()
                } else {
                    old(self)@.max_values()
                }
            },
    {
        hw_counter.incr_write(core::mem::size_of::<Vec<T>>());
        self.in_memory_index.add_many_to_list(idx, values);
        Ok(())
    }

    /// Forgets point `idx`.
    pub fn remove_point(&mut self, idx: PointOffsetType) -> (r: OperationResult<()>)
        requires
            old(self).wf(),
        ensures
            r.is_ok(),
            final(self).wf(),
            final(self)@.points() == without_point(old(self)@.points(), idx),
            final(self)@.point_values() == if idx < old(self)@.point_values().len() {
                old(self)@.point_values().update(idx as int, Seq::<T>::empty())
            } else {
                old(self)@.point_values()
            },
            final(self)@.max_values() == old(self)@.max_values(),
    {
        self.in_memory_index.remove_point(idx);
        Ok(())
    }
}

} // verus!
