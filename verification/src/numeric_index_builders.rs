//! The numeric index as the segment holds it, typed by the payload it
//! indexes, and the builders that fill it.

use vstd::prelude::*;
use core::marker::PhantomData;
use crate::counter::HardwareCounterCell;
use crate::encodable::Encodable;
use crate::encodable::Numericable;
use crate::immutable_numeric_index::ImmutableNumericIndex;
use crate::in_memory_numeric_index::InMemoryNumericIndex;
use crate::mmap_numeric_index::MmapNumericIndex;
use crate::mutable_numeric_index::MutableNumericIndex;
use crate::numeric_index::NumericIndexInner;
use crate::point_to_values::MmapPointToValues;
use crate::sorted_points::insert_points;
use crate::sorted_points::lemma_filter_agree;
use crate::sorted_points::lemma_filter_both;
use crate::sorted_points::without_point;
use crate::types::DateTimePayloadType;
use crate::types::FloatPayloadType;
use crate::types::IndexMutability;
use crate::types::IntPayloadType;
use crate::types::OperationError;
use crate::types::OperationResult;
use crate::types::PayloadIndexTelemetry;
use crate::types::Point;
use crate::types::PointOffsetType;
use crate::types::StorageType;
use crate::types::UuidIntType;
use crate::types::UuidPayloadType;

verus! {

/// How a payload value is held inside the index.
pub trait NumericIndexIntoInnerValue<T, P> {
    spec fn inner_value(value: P) -> T;

    fn into_inner_value(value: P) -> (v: T)
        ensures
            v == Self::inner_value(value),
    ;
}

pub struct NumericIndex<T: Encodable, P> {
    inner: NumericIndexInner<T>,
    _phantom: PhantomData<P>,
}

impl NumericIndexIntoInnerValue<IntPayloadType, IntPayloadType> for NumericIndex<
    IntPayloadType,
    IntPayloadType,
> {
    open spec fn inner_value(value: IntPayloadType) -> IntPayloadType {
        value
    }

    fn into_inner_value(value: IntPayloadType) -> (v: IntPayloadType) {
        value
    }
}

/// A date-time is held by its timestamp in microseconds.
impl NumericIndexIntoInnerValue<IntPayloadType, DateTimePayloadType> for NumericIndex<
    IntPayloadType,
    DateTimePayloadType,
> {
    open spec fn inner_value(value: DateTimePayloadType) -> IntPayloadType {
        value.micros
    }

    fn into_inner_value(value: DateTimePayloadType) -> (v: IntPayloadType) {
        value.timestamp()
    }
}

impl NumericIndexIntoInnerValue<FloatPayloadType, FloatPayloadType> for NumericIndex<
    FloatPayloadType,
    FloatPayloadType,
> {
    open spec fn inner_value(value: FloatPayloadType) -> FloatPayloadType {
        value
    }

    fn into_inner_value(value: FloatPayloadType) -> (v: FloatPayloadType) {
        value
    }
}

/// A UUID is held as the 128-bit integer its bytes spell.
impl NumericIndexIntoInnerValue<UuidIntType, UuidPayloadType> for NumericIndex<
    UuidIntType,
    UuidPayloadType,
> {
    open spec fn inner_value(value: UuidPayloadType) -> UuidIntType {
        value.value
    }

    fn into_inner_value(value: UuidPayloadType) -> (v: UuidIntType) {
        value.as_u128()
    }
}

/// The values of several payload entries, one after the other.
pub open spec fn flattened<P>(payload: Seq<Vec<P>>) -> Seq<P>
    decreases payload.len(),
{
    if payload.len() == 0 {
        Seq::empty()
    } else {
        flattened(payload.drop_last()) + payload.last()@
    }
}

pub fn flatten_values<P: Copy>(payload: &Vec<Vec<P>>) -> (values: Vec<P>)
    ensures
        values@ == flattened(payload@),
{
    let mut values: Vec<P> = Vec::new();
    let mut i: usize = 0;
    while i < payload.len()
        invariant
            i <= payload.len(),
            values@ == flattened(payload@.take(i as int)),
        decreases payload.len() - i,
    {
        let entry = &payload[i];
        let ghost before = values@;
        let mut k: usize = 0;
        while k < entry.len()
            invariant
                k <= entry.len(),
                values@ == before + entry@.take(k as int),
            decreases entry.len() - k,
        {
            values.push(entry[k]);
            assert(values@ =~= before + entry@.take(k + 1));
            k = k + 1;
        }
        proof {
            assert(entry@.take(entry.len() as int) =~= entry@);
            assert(payload@.take(i + 1).drop_last() =~= payload@.take(i as int));
        }
        i = i + 1;
    }
    assert(payload@.take(payload.len() as int) =~= payload@);
    values
}

/// Removing a point twice is removing it once.
pub proof fn lemma_without_point_twice<T: Encodable>(s: Seq<Point<T>>, idx: PointOffsetType)
    ensures
        without_point(without_point(s, idx), idx) == without_point(s, idx),
{
    let other = |p: Point<T>| p.idx != idx;
    lemma_filter_both(s, other, other);
    lemma_filter_agree(s, |p: Point<T>| other(p) && other(p), other);
}

impl<T: Numericable, P> NumericIndex<T, P> {
    /// The index behind the typed face.
    pub closed spec fn view(&self) -> NumericIndexInner<T> {
        self.inner
    }

    pub open spec fn wf(&self) -> bool {
        self@.wf()
    }

    /// Opens the index over the files it was built into: on disk it
    /// answers from the files, else it is loaded into memory. Fails
    /// unless the keys are whole, strictly ascending and in agreement with
    /// the values of the points, and the bitmap can be addressed.
    pub fn new_mmap(
        pairs: Vec<u8>,
        deleted: Vec<u8>,
        point_to_values: MmapPointToValues<T>,
        is_on_disk: bool,
    ) -> (r: OperationResult<Self>)
        ensures
            r.is_ok() <==> {
                &&& pairs@.len() % crate::mmap_numeric_index::stride::<T>() == 0
                &&& crate::sorted_points::is_sorted(
                    crate::mmap_numeric_index::decoded_points::<T>(pairs@),
                )
                &&& crate::pairing::tied(
                    crate::mmap_numeric_index::decoded_points::<T>(pairs@),
                    point_to_values@,
                )
                &&& deleted@.len() * 8 <= usize::MAX
            },
            r matches Ok(index) ==> {
                &&& index.wf()
                &&& (index@ is Mmap <==> is_on_disk)
                &&& (index@ is Immutable <==> !is_on_disk)
                &&& index@.points() == crate::mmap_numeric_index::live_points(
                    crate::mmap_numeric_index::decoded_points::<T>(pairs@),
                    crate::bitslice::bits_of(deleted@),
                )
            },
    {
        match NumericIndexInner::new_mmap(pairs, deleted, point_to_values, is_on_disk) {
            Ok(inner) => Ok(NumericIndex { inner, _phantom: PhantomData }),
            Err(e) => Err(e),
        }
    }

    /// An empty index that accepts values.
    pub fn new_gridstore() -> (r: OperationResult<Self>)
        ensures
            r matches Ok(index) && index.wf() && index@ is Mutable && index@.points() == Seq::<
                Point<T>,
            >::empty() && index@.max_values() == 0 && index@.lists() == Seq::<Seq<T>>::empty()
                && index@.points_count() == 0 && index@.total_values() == 0,
            forall|idx: PointOffsetType| (#[trigger] r->Ok_0@.values_of(idx)).is_none(),
    {
        match NumericIndexInner::new_gridstore() {
            Ok(inner) => Ok(NumericIndex { inner, _phantom: PhantomData }),
            Err(e) => Err(e),
        }
    }

    /// A builder that collects points in memory and lays them out as
    /// files when it is done.
    pub fn builder_mmap(is_on_disk: bool) -> (b: NumericIndexMmapBuilder<T, P>)
        ensures
            b.wf(),
            b.points() == Seq::<Point<T>>::empty(),
            b.on_disk() == is_on_disk,
    {
        NumericIndexMmapBuilder {
            in_memory_index: InMemoryNumericIndex::new(),
            is_on_disk,
            _phantom: PhantomData,
        }
    }

    /// A builder of an index that accepts values.
    pub fn builder_gridstore() -> (b: NumericIndexGridstoreBuilder<T, P>)
        ensures
            b.index().is_none(),
    {
        NumericIndexGridstoreBuilder::new()
    }

    pub fn inner(&self) -> (inner: &NumericIndexInner<T>)
        ensures
            *inner == self@,
    {
        &self.inner
    }

    pub fn mut_inner(&mut self) -> (inner: &mut NumericIndexInner<T>)
        ensures
            *inner == old(self)@,
            final(self)@ == *final(inner),
    {
        &mut self.inner
    }

    /// Whether the index accepts new values: only the mutable store does.
    pub fn get_mutability_type(&self) -> (m: IndexMutability)
        ensures
            m == match self@ {
                NumericIndexInner::Mutable(_) => IndexMutability::Mutable,
                NumericIndexInner::Immutable(_) => IndexMutability::Immutable,
                NumericIndexInner::Mmap(_) => IndexMutability::Immutable,
            },
    {
        match &self.inner {
            NumericIndexInner::Mutable(_) => IndexMutability::Mutable,
            NumericIndexInner::Immutable(_) => IndexMutability::Immutable,
            NumericIndexInner::Mmap(_) => IndexMutability::Immutable,
        }
    }

    /// Where the index keeps its data: the mutable store in a key-value
    /// store, the others in files, read from disk or held in memory.
    pub fn get_storage_type(&self) -> (t: StorageType)
        ensures
            t == match self@ {
                NumericIndexInner::Mutable(_) => StorageType::Gridstore,
                NumericIndexInner::Immutable(_) => StorageType::Mmap { is_on_disk: false },
                NumericIndexInner::Mmap(index) => StorageType::Mmap { is_on_disk: index.on_disk() },
            },
    {
        match &self.inner {
            NumericIndexInner::Mutable(_) => StorageType::Gridstore,
            NumericIndexInner::Immutable(_) => StorageType::Mmap { is_on_disk: false },
            NumericIndexInner::Mmap(index) => StorageType::Mmap { is_on_disk: index.is_on_disk() },
        }
    }

    pub fn check_values_any<F: Fn(&T) -> bool>(&self, idx: PointOffsetType, check_fn: F) -> (r:
        bool)
        requires
            self.wf(),
            forall|v: &T| check_fn.requires((v,)),
        ensures
            r ==> self@.values_of(idx).is_some() && exists|k: int|
                0 <= k < self@.values_of(idx).unwrap().len() && check_fn.ensures(
                    (&#[trigger] self@.values_of(idx).unwrap()[k],),
                    true,
                ),
            !r ==> self@.values_of(idx).is_none() || forall|k: int|
                0 <= k < self@.values_of(idx).unwrap().len() ==> check_fn.ensures(
                    (&#[trigger] self@.values_of(idx).unwrap()[k],),
                    false,
                ),
    {
        self.inner.check_values_any(idx, check_fn)
    }

    pub fn get_telemetry_data(&self) -> (t: PayloadIndexTelemetry)
        requires
            self.wf(),
        ensures
            t.field_name.is_none(),
            t.points_count == self@.points_count(),
            t.points_values_count == self@.points().len(),
            t.histogram_bucket_size == Some(
                if self@.points().len() == 0 {
                    0usize
                } else {
                    1usize
                },
            ),
            t.index_type@ == match self@ {
                NumericIndexInner::Mutable(_) => "mutable_numeric"@,
                NumericIndexInner::Immutable(_) => "immutable_numeric"@,
                NumericIndexInner::Mmap(_) => "mmap_numeric"@,
            },
    {
        self.inner.get_telemetry_data()
    }

    /// Whether the index holds its data. An index of this kind is only
    /// ever made of its data, so it always does, and asking changes
    /// nothing.
    pub fn load(&mut self) -> (r: OperationResult<bool>)
        ensures
            r == OperationResult::<bool>::Ok(true),
            final(self)@ == old(self)@,
    {
        self.inner.load()
    }

    pub fn values_count(&self, idx: PointOffsetType) -> (n: usize)
        requires
            self.wf(),
        ensures
            n == match self@.values_of(idx) {
                Some(values) => values.len(),
                None => 0,
            },
    {
        self.inner.values_count(idx)
    }

    pub fn get_values(&self, idx: PointOffsetType) -> (r: Option<&Vec<T>>)
        requires
            self.wf(),
        ensures
            r.is_some() == self@.values_of(idx).is_some(),
            r matches Some(values) ==> values@ == self@.values_of(idx).unwrap(),
    {
        self.inner.get_values(idx)
    }

    pub fn values_is_empty(&self, idx: PointOffsetType) -> (b: bool)
        requires
            self.wf(),
        ensures
            b == match self@.values_of(idx) {
                Some(values) => values.len() == 0,
                None => true,
            },
    {
        self.inner.values_is_empty(idx)
    }

    pub fn is_on_disk(&self) -> (b: bool)
        ensures
            b == self@.on_disk(),
    {
        self.inner.is_on_disk()
    }

    /// Removes point `id` from what queries see: its pairs leave the
    /// ordered store, its values are no longer visible, and it no longer
    /// counts as indexed. Every other point stays as it is.
    pub fn remove_point(&mut self, id: PointOffsetType) -> (r: OperationResult<()>)
        requires
            old(self).wf(),
        ensures
            r.is_ok(),
            final(self).wf(),
            final(self)@.points() == without_point(old(self)@.points(), id),
            final(self)@.max_values() == old(self)@.max_values(),
            (old(self)@ is Mutable) <==> (final(self)@ is Mutable),
            (old(self)@ is Immutable) <==> (final(self)@ is Immutable),
            (old(self)@ is Mmap) <==> (final(self)@ is Mmap),
            final(self)@.lists() == if old(self)@ is Mmap {
                old(self)@.lists()
            } else {
                lists_after_removal(old(self)@.lists(), id)
            },
            final(self)@.tombstones() == if (old(self)@ is Mmap) && crate::mmap_numeric_index::is_live(
                old(self)@.tombstones(),
                id,
            ) {
                old(self)@.tombstones().update(id as int, true)
            } else {
                old(self)@.tombstones()
            },
            final(self)@.values_of(id) == if !(old(self)@ is Mmap) && old(self)@.values_of(
                id,
            ).is_some() {
                Some(Seq::<T>::empty())
            } else {
                None
            },
            forall|other: PointOffsetType|
                other != id ==> #[trigger] final(self)@.values_of(other) == old(self)@.values_of(
                    other,
                ),
            final(self)@.points_count() == crate::numeric_index::minus(
                old(self)@.points_count(),
                if old(self)@.counts_point(id) {
                    1
                } else {
                    0
                },
            ),
    {
        self.inner.remove_point(id)
    }
}

/// The value lists after point `id` was removed from a store in memory.
pub open spec fn lists_after_removal<T>(lists: Seq<Seq<T>>, id: PointOffsetType) -> Seq<Seq<T>> {
    if id < lists.len() {
        lists.update(id as int, Seq::<T>::empty())
    } else {
        lists
    }
}

/// The value lists after point `id` was given `values`: with no values
/// nothing changes; else the lists reach up to the point and the point
/// has the values.
pub open spec fn lists_after_adding<T>(
    lists: Seq<Seq<T>>,
    id: PointOffsetType,
    values: Seq<T>,
) -> Seq<Seq<T>> {
    if values.len() == 0 {
        lists
    } else {
        crate::in_memory_numeric_index::grown_to(lists, id).update(id as int, values)
    }
}

/// The values of a payload as the index holds them.
pub open spec fn inner_values<T, P, I: NumericIndexIntoInnerValue<T, P>>(values: Seq<P>) -> Seq<T> {
    values.map_values(|p: P| I::inner_value(p))
}

pub fn into_inner_values<T, P: Copy, I: NumericIndexIntoInnerValue<T, P>>(values: &Vec<P>) -> (r:
    Vec<T>)
    ensures
        r@ == inner_values::<T, P, I>(values@),
{
    let mut r: Vec<T> = Vec::new();
    let mut k: usize = 0;
    while k < values.len()
        invariant
            k <= values.len(),
            r@ == inner_values::<T, P, I>(values@.take(k as int)),
        decreases values.len() - k,
    {
        r.push(I::into_inner_value(values[k]));
        assert(r@ =~= inner_values::<T, P, I>(values@.take(k + 1)));
        k = k + 1;
    }
    assert(values@.take(values.len() as int) =~= values@);
    r
}

impl<T: Numericable, P: Copy> NumericIndex<T, P> where
    NumericIndex<T, P>: NumericIndexIntoInnerValue<T, P>,
 {
    /// Gives point `id` the values `values`. Only the mutable store takes
    /// values; the others refuse and stay as they are.
    pub fn add_many(
        &mut self,
        id: PointOffsetType,
        values: Vec<P>,
        hw_counter: &mut HardwareCounterCell,
    ) -> (r: OperationResult<()>)
        requires
            old(self).wf(),
        ensures
            final(self).wf(),
            r.is_ok() <==> old(self)@ is Mutable,
            r matches Err(e) ==> {
                &&& final(self)@ == old(self)@
                &&& *final(hw_counter) == *old(hw_counter)
                &&& e is ServiceError
                &&& e->ServiceError_description@ == if old(self)@ is Immutable {
                    "Can't add values to immutable numeric index"@
                } else {
                    "Can't add values to mmap numeric index"@
                }
            },
            r.is_ok() ==> {
                &&& final(self)@ is Mutable
                &&& *final(hw_counter) == old(hw_counter).written_more(
                    vstd::layout::size_of::<Vec<T>>() as usize,
                )
                &&& values@.len() == 0 ==> final(self)@.points() == old(self)@.points()
                &&& values@.len() > 0 ==> final(self)@.points() == insert_points(
                    without_point(old(self)@.points(), id),
                    inner_values::<T, P, NumericIndex<T, P>>(values@),
                    id,
                )
                &&& final(self)@.lists() == lists_after_adding(
                    old(self)@.lists(),
                    id,
                    inner_values::<T, P, NumericIndex<T, P>>(values@),
                )
                &&& values@.len() > 0 ==> final(self)@.values_of(id) == Some(
                    inner_values::<T, P, NumericIndex<T, P>>(values@),
                )
                &&& final(self)@.max_values() == crate::numeric_index::larger(
                    old(self)@.max_values(),
                    values@.len(),
                )
            },
    {
        match &mut self.inner {
            NumericIndexInner::Mutable(index) => {
                let inner = into_inner_values::<T, P, NumericIndex<T, P>>(&values);
                index.add_many_to_list(id, inner, hw_counter)
            },
            NumericIndexInner::Immutable(_) => Err(
                OperationError::service_error("Can't add values to immutable numeric index"),
            ),
            NumericIndexInner::Mmap(_) => Err(
                OperationError::service_error("Can't add values to mmap numeric index"),
            ),
        }
    }

    /// Replaces the values of point `id` by the values of `payload`,
    /// entry after entry. A store that takes no values only forgets the
    /// point.
    pub fn add_point(
        &mut self,
        id: PointOffsetType,
        payload: &Vec<Vec<P>>,
        hw_counter: &mut HardwareCounterCell,
    ) -> (r: OperationResult<()>)
        requires
            old(self).wf(),
        ensures
            final(self).wf(),
            r.is_ok() <==> old(self)@ is Mutable,
            r.is_err() ==> {
                &&& final(self)@.points() == without_point(old(self)@.points(), id)
                &&& final(self)@.max_values() == old(self)@.max_values()
                &&& final(self)@.lists() == if old(self)@ is Mmap {
                    old(self)@.lists()
                } else {
                    lists_after_removal(old(self)@.lists(), id)
                }
                &&& final(self)@.tombstones() == if (old(self)@ is Mmap)
                    && crate::mmap_numeric_index::is_live(old(self)@.tombstones(), id) {
                    old(self)@.tombstones().update(id as int, true)
                } else {
                    old(self)@.tombstones()
                }
            },
            r.is_ok() ==> {
                &&& final(self)@ is Mutable
                &&& final(self)@.points() == insert_points(
                    without_point(old(self)@.points(), id),
                    inner_values::<T, P, NumericIndex<T, P>>(flattened(payload@)),
                    id,
                )
                &&& final(self)@.lists() == lists_after_adding(
                    lists_after_removal(old(self)@.lists(), id),
                    id,
                    inner_values::<T, P, NumericIndex<T, P>>(flattened(payload@)),
                )
                &&& final(self)@.max_values() == crate::numeric_index::larger(
                    old(self)@.max_values(),
                    flattened(payload@).len(),
                )
            },
    {
        let removed = self.remove_point(id);
        let flatten_values = flatten_values(payload);
        proof {
            lemma_without_point_twice(old(self)@.points(), id);
        }
        self.add_many(id, flatten_values, hw_counter)
    }
}

/// Builder of a mutable index.
pub struct NumericIndexBuilder<T: Encodable, P>(pub NumericIndex<T, P>);

impl<T: Numericable, P: Copy> NumericIndexBuilder<T, P> where
    NumericIndex<T, P>: NumericIndexIntoInnerValue<T, P>,
 {
    /// Empties the index before it is filled.
    pub fn init(&mut self) -> (r: OperationResult<()>)
        requires
            old(self).0@ is Mutable,
        ensures
            r.is_ok(),
            final(self).0.wf(),
            final(self).0@ is Mutable,
            final(self).0@.points() == Seq::<Point<T>>::empty(),
    {
        match &mut self.0.inner {
            NumericIndexInner::Mutable(index) => index.clear(),
            _ => Ok(()),
        }
    }

    pub fn add_point(
        &mut self,
        id: PointOffsetType,
        payload: &Vec<Vec<P>>,
        hw_counter: &mut HardwareCounterCell,
    ) -> (r: OperationResult<()>)
        requires
            old(self).0.wf(),
        ensures
            final(self).0.wf(),
            r.is_ok() <==> old(self).0@ is Mutable,
            r.is_err() ==> final(self).0@.points() == without_point(old(self).0@.points(), id),
            r.is_ok() ==> {
                &&& final(self).0@ is Mutable
                &&& final(self).0@.points() == insert_points(
                    without_point(old(self).0@.points(), id),
                    inner_values::<T, P, NumericIndex<T, P>>(flattened(payload@)),
                    id,
                )
            },
    {
        self.0.add_point(id, payload, hw_counter)
    }

    /// Hands over the index that was built.
    pub fn finalize(self) -> (r: OperationResult<NumericIndex<T, P>>)
        requires
            self.0.wf(),
        ensures
            r matches Ok(index) && index.wf() && index@.points() == self.0@.points(),
    {
        let mut index = self.0;
        index.inner.flusher();
        Ok(index)
    }
}

/// Builder of an index that is filled while it accepts values and then
/// frozen: written out as files and loaded back into memory.
pub struct NumericIndexImmutableBuilder<T: Encodable, P> {
    index: NumericIndex<T, P>,
}

impl<T: Numericable, P: Copy> NumericIndexImmutableBuilder<T, P> where
    NumericIndex<T, P>: NumericIndexIntoInnerValue<T, P>,
 {
    pub closed spec fn index(&self) -> NumericIndex<T, P> {
        self.index
    }

    pub fn new() -> (b: Self)
        ensures
            b.index().wf(),
            b.index()@ is Mutable,
            b.index()@.points() == Seq::<Point<T>>::empty(),
    {
        NumericIndexImmutableBuilder {
            index: NumericIndex {
                inner: NumericIndexInner::Mutable(MutableNumericIndex::new()),
                _phantom: PhantomData,
            },
        }
    }

    pub fn init(&mut self) -> (r: OperationResult<()>)
        requires
            old(self).index()@ is Mutable,
        ensures
            r.is_ok(),
            final(self).index().wf(),
            final(self).index()@ is Mutable,
            final(self).index()@.points() == Seq::<Point<T>>::empty(),
    {
        match &mut self.index.inner {
            NumericIndexInner::Mutable(index) => index.clear(),
            _ => Ok(()),
        }
    }

    pub fn add_point(
        &mut self,
        id: PointOffsetType,
        payload: &Vec<Vec<P>>,
        hw_counter: &mut HardwareCounterCell,
    ) -> (r: OperationResult<()>)
        requires
            old(self).index().wf(),
            old(self).index()@ is Mutable,
        ensures
            r.is_ok(),
            final(self).index().wf(),
            final(self).index()@ is Mutable,
            final(self).index()@.points() == insert_points(
                without_point(old(self).index()@.points(), id),
                inner_values::<T, P, NumericIndex<T, P>>(flattened(payload@)),
                id,
            ),
    {
        self.index.add_point(id, payload, hw_counter)
    }

    /// Freezes what was collected. Every point comes back as its key
    /// restores it.
    pub fn finalize(self) -> (r: OperationResult<NumericIndex<T, P>>)
        requires
            self.index().wf(),
            self.index()@ is Mutable,
        ensures
            r.is_ok() <==> self.index()@->Mutable_0@.point_values().len() <= usize::MAX - 63,
            r matches Ok(index) ==> {
                &&& index.wf()
                &&& index@ matches NumericIndexInner::Immutable(frozen) && frozen.storage().stored()
                    == self.index()@->Mutable_0@.points().map_values(
                    |p: Point<T>| crate::mmap_numeric_index::restored(p),
                ) && frozen.storage().deleted_bits() == crate::mmap_numeric_index::empty_flags(
                    self.index()@->Mutable_0@.point_values(),
                    frozen.storage().deleted_bits().len(),
                ) && frozen.storage().point_values() == self.index()@->Mutable_0@.point_values()
                &&& index@.points() == index@->Immutable_0.storage().points()
            },
    {
        match self.index.inner {
            NumericIndexInner::Mutable(mutable) => {
                match MmapNumericIndex::build(mutable.into_in_memory_index(), false) {
                    Ok(mmap) => Ok(
                        NumericIndex {
                            inner: NumericIndexInner::Immutable(
                                ImmutableNumericIndex::open_mmap(mmap),
                            ),
                            _phantom: PhantomData,
                        },
                    ),
                    Err(e) => Err(e),
                }
            },
            _ => Err(OperationError::service_error("index must be mutable while it is built")),
        }
    }
}

/// Builder that collects points in memory and lays them out as files.
pub struct NumericIndexMmapBuilder<T: Encodable, P> {
    in_memory_index: InMemoryNumericIndex<T>,
    is_on_disk: bool,
    _phantom: PhantomData<P>,
}

impl<T: Numericable, P> NumericIndexMmapBuilder<T, P> {
    /// The points collected so far, ascending.
    pub closed spec fn points(&self) -> Seq<Point<T>> {
        self.in_memory_index.points()
    }

    /// The values collected so far, by point id.
    pub closed spec fn point_values(&self) -> Seq<Seq<T>> {
        self.in_memory_index.point_values()
    }

    pub closed spec fn on_disk(&self) -> bool {
        self.is_on_disk
    }

    pub closed spec fn wf(&self) -> bool {
        self.in_memory_index.wf()
    }

    pub fn init(&mut self) -> (r: OperationResult<()>)
        ensures
            r.is_ok(),
            *final(self) == *old(self),
    {
        Ok(())
    }
}

impl<T: Numericable, P: Copy> NumericIndexMmapBuilder<T, P> where
    NumericIndex<T, P>: NumericIndexIntoInnerValue<T, P>,
 {
    /// Replaces the values of point `id` by the values of `payload`,
    /// entry after entry, and charges the size of the list header as
    /// written.
    pub fn add_point(
        &mut self,
        id: PointOffsetType,
        payload: &Vec<Vec<P>>,
        hw_counter: &mut HardwareCounterCell,
    ) -> (r: OperationResult<()>)
        requires
            old(self).wf(),
        ensures
            r.is_ok(),
            final(self).wf(),
            final(self).on_disk() == old(self).on_disk(),
            *final(hw_counter) == old(hw_counter).written_more(
                vstd::layout::size_of::<Vec<T>>() as usize,
            ),
            final(self).points() == insert_points(
                without_point(old(self).points(), id),
                inner_values::<T, P, NumericIndex<T, P>>(flattened(payload@)),
                id,
            ),
    {
        self.in_memory_index.remove_point(id);
        let flatten_values = flatten_values(payload);
        let flatten_values = into_inner_values::<T, P, NumericIndex<T, P>>(&flatten_values);
        hw_counter.incr_write(core::mem::size_of::<Vec<T>>());
        proof {
            lemma_without_point_twice(old(self).points(), id);
        }
        self.in_memory_index.add_many_to_list(id, flatten_values);
        Ok(())
    }

    /// Lays the collected points out as files and opens the index over
    /// them. Every point comes back as its key restores it.
    pub fn finalize(self) -> (r: OperationResult<NumericIndex<T, P>>)
        requires
            self.wf(),
        ensures
            r.is_ok() <==> self.point_values().len() <= usize::MAX - 63,
            r matches Ok(index) ==> {
                &&& index.wf()
                &&& index@ matches NumericIndexInner::Mmap(mmap) && mmap.stored()
                    == self.points().map_values(
                    |p: Point<T>| crate::mmap_numeric_index::restored(p),
                ) && mmap.pairs_bytes() == crate::mmap_numeric_index::encoded_points(self.points())
                    && mmap.on_disk() == self.on_disk() && mmap.point_values()
                    == self.point_values() && mmap.deleted_bits()
                    == crate::mmap_numeric_index::empty_flags(
                    self.point_values(),
                    mmap.deleted_bits().len(),
                ) && mmap.deleted_bits().len() >= self.point_values().len()
                &&& index@.tombstones_in_order()
            },
    {
        match MmapNumericIndex::build(self.in_memory_index, self.is_on_disk) {
            Ok(inner) => Ok(
                NumericIndex { inner: NumericIndexInner::Mmap(inner), _phantom: PhantomData },
            ),
            Err(e) => Err(e),
        }
    }
}

/// Builder of a mutable index that is opened when the build starts.
pub struct NumericIndexGridstoreBuilder<T: Encodable, P> {
    index: Option<NumericIndex<T, P>>,
}

impl<T: Numericable, P> NumericIndexGridstoreBuilder<T, P> {
    /// The index being built, once the build has started.
    pub closed spec fn index(&self) -> Option<NumericIndex<T, P>> {
        self.index
    }

    pub fn new() -> (b: Self)
        ensures
            b.index().is_none(),
    {
        NumericIndexGridstoreBuilder { index: None }
    }

    /// Starts the build with an empty index. A build starts once.
    pub fn init(&mut self) -> (r: OperationResult<()>)
        requires
            old(self).index().is_none(),
        ensures
            r.is_ok(),
            final(self).index() matches Some(index) && index.wf() && index@ is Mutable
                && index@.points() == Seq::<Point<T>>::empty(),
    {
        match NumericIndex::new_gridstore() {
            Ok(index) => {
                self.index = Some(index);
                Ok(())
            },
            Err(e) => Err(e),
        }
    }
}

impl<T: Numericable, P: Copy> NumericIndexGridstoreBuilder<T, P> where
    NumericIndex<T, P>: NumericIndexIntoInnerValue<T, P>,
 {
    /// Replaces the values of point `id`. Fails before the build has
    /// started.
    pub fn add_point(
        &mut self,
        id: PointOffsetType,
        payload: &Vec<Vec<P>>,
        hw_counter: &mut HardwareCounterCell,
    ) -> (r: OperationResult<()>)
        requires
            old(self).index() matches Some(index) ==> index.wf(),
        ensures
            old(self).index().is_none() ==> {
                &&& final(self).index().is_none()
                &&& r matches Err(e) && e is ServiceError && e->ServiceError_description@
                    == "NumericIndexGridstoreBuilder: index must be initialized before adding points"@
            },
            old(self).index() matches Some(before) ==> {
                &&& final(self).index() matches Some(after) && after.wf() && (r.is_ok()
                    <==> before@ is Mutable) && (r.is_ok() ==> after@.points() == insert_points(
                    without_point(before@.points(), id),
                    inner_values::<T, P, NumericIndex<T, P>>(flattened(payload@)),
                    id,
                ))
            },
    {
        match &mut self.index {
            Some(index) => index.add_point(id, payload, hw_counter),
            None => Err(
                OperationError::service_error(
                    "NumericIndexGridstoreBuilder: index must be initialized before adding points",
                ),
            ),
        }
    }

    /// Hands over the index that was built. Fails if the build never
    /// started.
    pub fn finalize(self) -> (r: OperationResult<NumericIndex<T, P>>)
        requires
            self.index() matches Some(index) ==> index.wf(),
        ensures
            r.is_ok() <==> self.index().is_some(),
            r matches Ok(index) ==> index.wf() && index@.points() == self.index().unwrap()@.points(),
            r matches Err(e) ==> e is ServiceError && e->ServiceError_description@
                == "NumericIndexGridstoreBuilder: index must be initialized to finalize"@,
    {
        match self.index {
            Some(index) => {
                let mut index = index;
                index.inner.flusher();
                Ok(index)
            },
            None => Err(
                OperationError::service_error(
                    "NumericIndexGridstoreBuilder: index must be initialized to finalize",
                ),
            ),
        }
    }
}

} // verus!
