//! The numeric store loaded into memory from its file. It answers from
//! memory and records removals in the file's tombstones.

use vstd::prelude::*;
use crate::encodable::Encodable;
use crate::in_memory_numeric_index::InMemoryNumericIndex;
use crate::mmap_numeric_index::live_lists;
use crate::mmap_numeric_index::MmapNumericIndex;
use crate::sorted_points::without_point;
use crate::types::OperationResult;
use crate::types::Point;
use crate::types::PointOffsetType;

verus! {

pub struct ImmutableNumericIndex<T: Encodable> {
    index: InMemoryNumericIndex<T>,
    storage: MmapNumericIndex<T>,
}

impl<T: Encodable> ImmutableNumericIndex<T> {
    /// The store held in memory.
    pub closed spec fn view(&self) -> InMemoryNumericIndex<T> {
        self.index
    }

    /// The file the store was loaded from.
    pub closed spec fn storage(&self) -> MmapNumericIndex<T> {
        self.storage
    }

    pub open spec fn wf(&self) -> bool {
        &&& self@.wf()
        &&& self.storage().wf()
        &&& self@.points() == self.storage().points()
    }

    /// Loads every live point of `mmap_index` into memory.
    pub fn open_mmap(mmap_index: MmapNumericIndex<T>) -> (index: Self)
        requires
            mmap_index.wf(),
        ensures
            index.wf(),
            index.storage() == mmap_index,
            index@.points() == mmap_index.points(),
            index@.point_values() == live_lists(
                mmap_index.point_values(),
                mmap_index.deleted_bits(),
            ),
    {
        proof {
            mmap_index.lemma_wf();
        }
        let points = mmap_index.live_points_vec();
        let lists = mmap_index.live_value_lists();
        ImmutableNumericIndex {
            index: InMemoryNumericIndex::from_sorted(points, lists),
            storage: mmap_index,
        }
    }

    /// The store, for reading.
    pub fn map(&self) -> (index: &InMemoryNumericIndex<T>)
        ensures
            *index == self@,
    {
        &self.index
    }

    /// The file behind the store.
    pub fn mmap(&self) -> (storage: &MmapNumericIndex<T>)
        ensures
            *storage == self.storage(),
    {
        &self.storage
    }

    /// Forgets point `idx` in memory and tombstones it in the file.
    pub fn remove_point(&mut self, idx: PointOffsetType) -> (r: OperationResult<()>)
        requires
            old(self).wf(),
        ensures
            r.is_ok(),
            final(self).wf(),
            final(self)@.points() == without_point(old(self)@.points(), idx),
            final(self)@.point_values() == if idx < old(self)@.point_values().len() {
                old(self)@.point_values().update(idx as int, Seq::<T>::empty())
            } else {
                old(self)@.point_values()
            },
            final(self)@.max_values() == old(self)@.max_values(),
            final(self).storage().stored() == old(self).storage().stored(),
            final(self).storage().points() == without_point(old(self).storage().points(), idx),
    {
        self.index.remove_point(idx);
        self.storage.remove_point(idx);
        Ok(())
    }

    /// Writes pending tombstones through to the bitmap bytes.
    pub fn flusher(&mut self)
        requires
            old(self).wf(),
        ensures
            final(self).wf(),
            final(self)@ == old(self)@,
            final(self).storage().points() == old(self).storage().points(),
            final(self).storage().stored() == old(self).storage().stored(),
            final(self).storage().deleted_bits() == old(self).storage().deleted_bits(),
            final(self).storage().point_values() == old(self).storage().point_values(),
            crate::bitslice::bits_of(final(self).storage().deleted_file()) == old(
                self,
            ).storage().deleted_bits(),
    {
        self.storage.flusher();
    }
}

} // verus!
