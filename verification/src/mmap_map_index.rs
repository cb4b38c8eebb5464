//! The map index over files: a table from values to the points that carry
//! them, the values of every point, and tombstones for deleted points.

use vstd::prelude::*;
use crate::bitslice::bits_of;
use crate::bitslice::count_true;
use crate::bitslice::lemma_count_true_bound;
use crate::bitslice::lemma_count_true_update;
use crate::bitslice::MmapBitSlice;
use crate::bitslice::MmapBitSliceBufferedUpdateWrapper;
use crate::counter::id_bytes;
use crate::counter::HardwareCounterCell;
use crate::counter::READ_ENTRY_OVERHEAD;
use crate::hashmap_file::is_table_file;
use crate::hashmap_file::lemma_file_of_standard;
use crate::hashmap_file::table_file_of;
use crate::in_memory_numeric_index::lists_of;
use crate::mmap_hashmap::entry_of;
use crate::mmap_hashmap::has_key;
use crate::mmap_hashmap::id_lists;
use crate::mmap_hashmap::keys_distinct;
use crate::mmap_hashmap::MapIndexKey;
use crate::mmap_hashmap::MmapHashMap;
use crate::mmap_numeric_index::build_tombstones;
use crate::mmap_numeric_index::empty_flags;
use crate::mmap_numeric_index::is_live;
use crate::point_to_values::MmapPointToValues;
use crate::point_to_values::POINT_TO_VALUES_OFFSETS_PATH;
use crate::point_to_values::POINT_TO_VALUES_PATH;
use crate::types::OperationError;
use crate::types::OperationResult;
use crate::types::PointOffsetType;

verus! {

/// File that holds the tombstone bitmap.
pub const DELETED_PATH: &'static str = "deleted.bin";

/// File that holds the value-to-points table.
pub const HASHMAP_PATH: &'static str = "values_to_points.bin";

/// File that holds the counters fixed at build time.
pub const CONFIG_PATH: &'static str = "mmap_field_index_config.json";

/// What the index fixes when it is built.
#[derive(Clone, Copy, Debug, PartialEq, Eq, Structural)]
pub struct MmapMapIndexConfig {
    pub total_key_value_pairs: usize,
}

/// The number of values that all points carry together.
pub open spec fn total_pairs<N>(lists: Seq<Seq<N>>) -> nat
    decreases lists.len(),
{
    if lists.len() == 0 {
        0
    } else {
        total_pairs(lists.drop_last()) + lists.last().len()
    }
}

/// Whether a point id is kept by a lookup: it is kept unless its
/// tombstone is set. An id beyond the bitmap is kept.
pub open spec fn is_kept(deleted: Seq<bool>, id: PointOffsetType) -> bool {
    !(id < deleted.len() && deleted[id as int])
}

/// The ids of a list that a lookup keeps, in the order of the list.
pub open spec fn kept_ids(ids: Seq<PointOffsetType>, deleted: Seq<bool>) -> Seq<PointOffsetType> {
    ids.filter(|id: PointOffsetType| is_kept(deleted, id))
}

/// The ids of a list that are known and not tombstoned, in the order of
/// the list.
pub open spec fn live_ids(ids: Seq<PointOffsetType>, deleted: Seq<bool>) -> Seq<PointOffsetType> {
    ids.filter(|id: PointOffsetType| is_live(deleted, id))
}

/// A sequence without its repetitions: of equal items the first stays.
pub open spec fn first_occurrences(s: Seq<PointOffsetType>) -> Seq<PointOffsetType>
    decreases s.len(),
{
    if s.len() == 0 {
        s
    } else {
        let rest = first_occurrences(s.drop_last());
        if rest.contains(s.last()) {
            rest
        } else {
            rest.push(s.last())
        }
    }
}

/// Drops the repetitions of a list of ids.
///
/// Trusted: calls `itertools::Itertools::unique`, which yields the items
/// in the order in which they occur and, of equal items, only the first.
#[verifier::external_body]
fn unique_ids(ids: &Vec<PointOffsetType>) -> (unique: Vec<PointOffsetType>)
    ensures
        unique@ == first_occurrences(ids@),
{
    itertools::Itertools::unique(ids.iter().copied()).collect()
}

/// The files of a map index, as they were read.
pub struct MmapMapIndexFiles<N> {
    /// What the config file holds.
    pub config: MmapMapIndexConfig,
    /// The bytes of the table file.
    pub value_to_points: Vec<u8>,
    /// The values of every point.
    pub point_to_values: MmapPointToValues<N>,
    /// The bytes of the tombstone file.
    pub deleted: Vec<u8>,
}

pub struct Storage<N> {
    value_to_points: MmapHashMap<N>,
    point_to_values: MmapPointToValues<N>,
    deleted: MmapBitSliceBufferedUpdateWrapper,
}

pub struct MmapMapIndex<N> {
    storage: Option<Storage<N>>,
    deleted_count: usize,
    total_key_value_pairs: usize,
    is_on_disk: bool,
}

impl<N: MapIndexKey> MmapMapIndex<N> {
    /// Whether the index was opened over files.
    pub closed spec fn has_storage(&self) -> bool {
        self.storage.is_some()
    }

    /// The table from values to points.
    pub closed spec fn table(&self) -> MmapHashMap<N> {
        self.storage.unwrap().value_to_points
    }

    /// The table as a map from the bytes of a value to its ids; empty
    /// without files.
    pub open spec fn value_to_points(&self) -> Map<Seq<u8>, Seq<PointOffsetType>> {
        if self.has_storage() {
            self.table()@
        } else {
            Map::empty()
        }
    }

    /// The values of every point, tombstoned or not; none without files.
    pub closed spec fn point_values(&self) -> Seq<Seq<N>> {
        if self.storage.is_some() {
            self.storage.unwrap().point_to_values@
        } else {
            Seq::empty()
        }
    }

    /// The tombstones as readers see them; none without files.
    pub closed spec fn deleted_bits(&self) -> Seq<bool> {
        if self.storage.is_some() {
            self.storage.unwrap().deleted@
        } else {
            Seq::empty()
        }
    }

    /// The bytes of the tombstone file as last flushed.
    pub closed spec fn deleted_file(&self) -> Seq<u8> {
        if self.storage.is_some() {
            self.storage.unwrap().deleted.flushed_bytes()
        } else {
            Seq::empty()
        }
    }

    pub closed spec fn deleted_count(&self) -> nat {
        self.deleted_count as nat
    }

    pub closed spec fn total_key_value_pairs(&self) -> nat {
        self.total_key_value_pairs as nat
    }

    pub closed spec fn on_disk(&self) -> bool {
        self.is_on_disk
    }

    /// The values of point `idx` as queries see them.
    pub open spec fn values_of(&self, idx: PointOffsetType) -> Option<Seq<N>> {
        if is_live(self.deleted_bits(), idx) && idx < self.point_values().len() {
            Some(self.point_values()[idx as int])
        } else {
            None
        }
    }

    /// The ids that a lookup of a value yields.
    pub open spec fn iterator_ids(&self, value: N) -> Seq<PointOffsetType> {
        if self.value_to_points().contains_key(value.key_bytes()) {
            kept_ids(self.value_to_points()[value.key_bytes()], self.deleted_bits())
        } else {
            Seq::empty()
        }
    }

    pub closed spec fn wf(&self) -> bool {
        match self.storage {
            Some(storage) => {
                &&& storage.value_to_points.wf()
                &&& storage.deleted.wf()
                &&& self.deleted_count == count_true(storage.deleted@)
            },
            None => self.deleted_count == 0 && self.total_key_value_pairs == 0,
        }
    }

    /// The number of tombstones is the number of set bits, and without
    /// files there is nothing.
    pub proof fn lemma_wf(&self)
        requires
            self.wf(),
        ensures
            self.deleted_count() == count_true(self.deleted_bits()),
            self.has_storage() ==> self.table().wf(),
            !self.has_storage() ==> self.total_key_value_pairs() == 0 && self.deleted_bits().len()
                == 0 && self.point_values().len() == 0 && self.deleted_count() == 0,
    {
        if !self.has_storage() {
            assert(count_true(Seq::<bool>::empty()) == 0);
        }
    }

    /// Opens the index over its files. Without files the index is an
    /// empty stub: it knows no point and no value, and every query on it
    /// answers with nothing. Fails if the table file is not the file of a
    /// table, or if the tombstone bitmap is too large to be addressed.
    ///
    /// The whole table file is read and checked here, once. A file with
    /// a damaged entry is therefore refused as a whole, and an index that
    /// has opened holds no entry that cannot be read: a lookup never
    /// meets a damaged entry, and never has to pass one over as absent.
    pub fn open(files: Option<MmapMapIndexFiles<N>>, is_on_disk: bool) -> (r: OperationResult<Self>)
        ensures
            r.is_ok() <==> (files matches Some(f) ==> f.deleted@.len() * 8 <= usize::MAX
                && is_table_file::<N>(f.value_to_points@)),
            r matches Ok(index) ==> {
                &&& index.wf()
                &&& index.on_disk() == is_on_disk
                &&& index.has_storage() == files.is_some()
                &&& files.is_none() ==> index.total_key_value_pairs() == 0 && index.deleted_count()
                    == 0 && index.point_values() == Seq::<Seq<N>>::empty() && index.deleted_bits()
                    == Seq::<bool>::empty()
                &&& files matches Some(f) ==> {
                    &&& index.table().is_standard()
                    &&& index.table().fits_file()
                    &&& index.table().file() == f.value_to_points@
                    &&& index.point_values() == f.point_to_values@
                    &&& index.deleted_bits() == bits_of(f.deleted@)
                    &&& index.deleted_file() == f.deleted@
                    &&& index.deleted_count() == count_true(bits_of(f.deleted@))
                    &&& index.total_key_value_pairs() == f.config.total_key_value_pairs
                }
            },
    {
        let files = match files {
            Some(files) => files,
            None => {
                return Ok(
                    MmapMapIndex {
                        storage: None,
                        deleted_count: 0,
                        total_key_value_pairs: 0,
                        is_on_disk,
                    },
                );
            },
        };
        let value_to_points = match MmapHashMap::from_bytes(files.value_to_points.as_slice()) {
            Ok(table) => table,
            Err(e) => {
                return Err(e);
            },
        };
        let deleted = match MmapBitSlice::from_bytes(files.deleted) {
            Some(deleted) => deleted,
            None => {
                return Err(OperationError::corruption("tombstone bitmap is too large"));
            },
        };
        let deleted_count: usize = deleted.count_ones();
        Ok(
            MmapMapIndex {
                storage: Some(
                    Storage {
                        value_to_points,
                        point_to_values: files.point_to_values,
                        deleted: MmapBitSliceBufferedUpdateWrapper::new(deleted),
                    },
                ),
                deleted_count,
                total_key_value_pairs: files.config.total_key_value_pairs,
                is_on_disk,
            },
        )
    }

    /// Whether the index holds its data.
    pub fn load(&self) -> (r: OperationResult<bool>)
        ensures
            r == OperationResult::<bool>::Ok(self.has_storage()),
    {
        let is_loaded = self.storage.is_some();
        Ok(is_loaded)
    }

    /// Whether an index can be built of the values of the points and of
    /// the table from `values` to `ids`: no value occurs twice, every
    /// value has its list, the table can be written to its file, and a
    /// machine word can count the points, the values and the pairs.
    pub open spec fn can_build(
        point_to_values: Seq<Seq<N>>,
        values: Seq<N>,
        ids: Seq<Seq<PointOffsetType>>,
    ) -> bool {
        &&& values.len() == ids.len()
        &&& keys_distinct(values)
        &&& 2 * values.len() + 1 <= usize::MAX
        &&& point_to_values.len() <= usize::MAX - 63
        &&& total_pairs(point_to_values) <= usize::MAX
        &&& forall|e: int|
            0 <= e < values.len() ==> (#[trigger] values[e]).key_bytes().len() < 0x1_0000_0000
                && ids[e].len() < 0x1_0000_0000
        &&& crate::hashmap_file::payload_bytes(crate::hashmap_file::table_entries(values, ids)).len()
            < crate::hashmap_file::EMPTY_WORD
    }

    /// The files of an index over the values of the points and the table
    /// from `values` to `ids`: the count of all pairs, the file of the
    /// table, the values of every point, and a tombstone bitmap with a
    /// tombstone for every point without values.
    pub fn build_files(
        point_to_values: Vec<Vec<N>>,
        values: Vec<N>,
        ids: Vec<Vec<PointOffsetType>>,
    ) -> (r: OperationResult<MmapMapIndexFiles<N>>)
        ensures
            r.is_ok() <==> Self::can_build(lists_of(point_to_values@), values@, id_lists(ids@)),
            r matches Ok(files) ==> {
                &&& files.config.total_key_value_pairs == total_pairs(lists_of(point_to_values@))
                &&& files.value_to_points@ == table_file_of(values@, id_lists(ids@))
                &&& is_table_file::<N>(files.value_to_points@)
                &&& files.point_to_values@ == lists_of(point_to_values@)
                &&& files.deleted@.len() == crate::bitslice::bitmap_file_len(point_to_values@.len())
                &&& files.deleted@.len() * 8 <= usize::MAX
                &&& bits_of(files.deleted@) == empty_flags(
                    lists_of(point_to_values@),
                    files.deleted@.len() * 8,
                )
            },
    {
        let total = match count_pairs(&point_to_values) {
            Some(total) => total,
            None => {
                return Err(OperationError::service_error("too many values for a machine word"));
            },
        };
        if point_to_values.len() > usize::MAX - 63 {
            return Err(OperationError::service_error("too many points for a tombstone bitmap"));
        }
        let table = match MmapHashMap::create(values, ids) {
            Ok(table) => table,
            Err(e) => {
                return Err(e);
            },
        };
        let value_to_points = match table.to_bytes() {
            Some(bytes) => bytes,
            None => {
                return Err(OperationError::service_error("the table does not fit its file"));
            },
        };
        proof {
            lemma_file_of_standard(table);
        }
        let bitmap = build_tombstones(&point_to_values);
        proof {
            bitmap.lemma_view();
        }
        Ok(
            MmapMapIndexFiles {
                config: MmapMapIndexConfig { total_key_value_pairs: total },
                value_to_points,
                point_to_values: MmapPointToValues::from_lists(point_to_values),
                deleted: bitmap.into_bytes(),
            },
        )
    }

    /// Builds the index: makes its files and opens it over them.
    pub fn build(
        point_to_values: Vec<Vec<N>>,
        values: Vec<N>,
        ids: Vec<Vec<PointOffsetType>>,
        is_on_disk: bool,
    ) -> (r: OperationResult<Self>)
        ensures
            r.is_ok() <==> Self::can_build(lists_of(point_to_values@), values@, id_lists(ids@)),
            r matches Ok(index) ==> {
                &&& index.wf()
                &&& index.has_storage()
                &&& index.on_disk() == is_on_disk
                &&& index.table().is_standard()
                &&& index.table().fits_file()
                &&& index.table().file() == table_file_of(values@, id_lists(ids@))
                &&& index.table().keys().len() == values@.len()
                &&& forall|e: int|
                    0 <= e < values@.len() ==> (#[trigger] index.table().keys()[e]).key_bytes()
                        == values@[e].key_bytes()
                &&& index.table().values() == id_lists(ids@)
                &&& index.value_to_points() == crate::mmap_hashmap::map_of(values@, id_lists(ids@))
                &&& index.point_values() == lists_of(point_to_values@)
                &&& index.deleted_bits() == empty_flags(
                    lists_of(point_to_values@),
                    index.deleted_bits().len(),
                )
                &&& index.deleted_bits().len() >= point_to_values@.len()
                &&& index.deleted_file().len() == crate::bitslice::bitmap_file_len(
                    point_to_values@.len(),
                )
                &&& bits_of(index.deleted_file()) == index.deleted_bits()
                &&& index.deleted_count() == count_true(index.deleted_bits())
                &&& index.deleted_count() + crate::in_memory_numeric_index::count_nonempty(
                    lists_of(point_to_values@),
                ) == point_to_values@.len()
                &&& index.total_key_value_pairs() == total_pairs(lists_of(point_to_values@))
            },
    {
        match Self::build_files(point_to_values, values, ids) {
            Ok(files) => {
                let r = Self::open(Some(files), is_on_disk);
                proof {
                    if r.is_ok() {
                        crate::hashmap_file::lemma_table_of_written_file(
                            r->Ok_0.table(),
                            values@,
                            id_lists(ids@),
                        );
                        crate::laws::lemma_build_tombstones_count(
                            lists_of(point_to_values@),
                            r->Ok_0.deleted_bits().len(),
                        );
                    }
                }
                r
            },
            Err(e) => Err(e),
        }
    }

    /// Writes pending tombstones through to the bytes of the bitmap file.
    /// What queries see does not change.
    pub fn flusher(&mut self)
        requires
            old(self).wf(),
        ensures
            final(self).wf(),
            final(self).has_storage() == old(self).has_storage(),
            final(self).has_storage() ==> final(self).table() == old(self).table(),
            final(self).point_values() == old(self).point_values(),
            final(self).deleted_bits() == old(self).deleted_bits(),
            final(self).deleted_count() == old(self).deleted_count(),
            final(self).total_key_value_pairs() == old(self).total_key_value_pairs(),
            final(self).on_disk() == old(self).on_disk(),
            final(self).has_storage() ==> bits_of(final(self).deleted_file()) == old(
                self,
            ).deleted_bits(),
    {
        if let Some(storage) = &mut self.storage {
            storage.deleted.flush();
        }
    }

    /// The files that back the index, relative to its directory.
    pub fn files(&self) -> (files: Vec<&'static str>)
        ensures
            files@ == if self.has_storage() {
                seq![
                    HASHMAP_PATH,
                    DELETED_PATH,
                    CONFIG_PATH,
                    POINT_TO_VALUES_PATH,
                    POINT_TO_VALUES_OFFSETS_PATH,
                ]
            } else {
                seq![HASHMAP_PATH, DELETED_PATH, CONFIG_PATH]
            },
    {
        let mut files: Vec<&'static str> = Vec::new();
        files.push(HASHMAP_PATH);
        files.push(DELETED_PATH);
        files.push(CONFIG_PATH);
        if let Some(storage) = &self.storage {
            let more = storage.point_to_values.files();
            files.push(more[0]);
            files.push(more[1]);
        }
        assert(files@ =~= if self.has_storage() {
            seq![
                    HASHMAP_PATH,
                    DELETED_PATH,
                    CONFIG_PATH,
                    POINT_TO_VALUES_PATH,
                    POINT_TO_VALUES_OFFSETS_PATH,
                ]
        } else {
            seq![HASHMAP_PATH, DELETED_PATH, CONFIG_PATH]
        });
        files
    }

    /// The files that never change after the build: all but the
    /// tombstones.
    pub fn immutable_files(&self) -> (files: Vec<&'static str>)
        ensures
            files@ == if self.has_storage() {
                seq![HASHMAP_PATH, CONFIG_PATH, POINT_TO_VALUES_PATH, POINT_TO_VALUES_OFFSETS_PATH]
            } else {
                seq![HASHMAP_PATH, CONFIG_PATH]
            },
    {
        let mut files: Vec<&'static str> = Vec::new();
        files.push(HASHMAP_PATH);
        files.push(CONFIG_PATH);
        if let Some(storage) = &self.storage {
            let more = storage.point_to_values.immutable_files();
            files.push(more[0]);
            files.push(more[1]);
        }
        assert(files@ =~= if self.has_storage() {
            seq![HASHMAP_PATH, CONFIG_PATH, POINT_TO_VALUES_PATH, POINT_TO_VALUES_OFFSETS_PATH]
        } else {
            seq![HASHMAP_PATH, CONFIG_PATH]
        });
        files
    }

    /// Tombstones point `idx`. A point that is tombstoned already, or
    /// that the index does not know, stays as it is.
    pub fn remove_point(&mut self, idx: PointOffsetType)
        requires
            old(self).wf(),
        ensures
            final(self).wf(),
            final(self).has_storage() == old(self).has_storage(),
            final(self).has_storage() ==> final(self).table() == old(self).table(),
            final(self).point_values() == old(self).point_values(),
            final(self).total_key_value_pairs() == old(self).total_key_value_pairs(),
            final(self).on_disk() == old(self).on_disk(),
            final(self).deleted_bits() == crate::laws::after_removal(old(self).deleted_bits(), idx),
            final(self).deleted_bits() == if is_live(old(self).deleted_bits(), idx) {
                old(self).deleted_bits().update(idx as int, true)
            } else {
                old(self).deleted_bits()
            },
            final(self).deleted_count() == old(self).deleted_count() + if is_live(
                old(self).deleted_bits(),
                idx,
            ) {
                1nat
            } else {
                0nat
            },
    {
        let storage = match &mut self.storage {
            Some(storage) => storage,
            None => {
                return ;
            },
        };
        let idx = idx as usize;
        let ghost bits = storage.deleted@;
        let bit_count: usize = storage.deleted.len();
        if let Some(deleted) = storage.deleted.get(idx) {
            if !deleted {
                proof {
                    lemma_count_true_update(bits, idx as int, true);
                    lemma_count_true_bound(bits.update(idx as int, true));
                }
                storage.deleted.set(idx, true);
                self.deleted_count = self.deleted_count + 1;
            }
        }
    }

    /// Whether `check_fn` accepts one of the values of point `idx`;
    /// `false` for a tombstoned or unknown point. Looking at the tombstone
    /// is charged as one byte read where the index lives on disk.
    pub fn check_values_any<F: Fn(&N) -> bool>(
        &self,
        idx: PointOffsetType,
        hw_counter: &mut HardwareCounterCell,
        check_fn: F,
    ) -> (r: bool)
        requires
            self.wf(),
            forall|v: &N| check_fn.requires((v,)),
        ensures
            *final(hw_counter) == old(hw_counter).read_more_if(
                self.has_storage() && self.on_disk(),
                1,
            ),
            r ==> self.values_of(idx).is_some() && exists|k: int|
                0 <= k < self.values_of(idx).unwrap().len() && check_fn.ensures(
                    (&#[trigger] self.values_of(idx).unwrap()[k],),
                    true,
                ),
            !r ==> self.values_of(idx).is_none() || forall|k: int|
                0 <= k < self.values_of(idx).unwrap().len() ==> check_fn.ensures(
                    (&#[trigger] self.values_of(idx).unwrap()[k],),
                    false,
                ),
    {
        let storage = match &self.storage {
            Some(storage) => storage,
            None => {
                return false;
            },
        };
        hw_counter.incr_read_if(self.is_on_disk, 1);
        if storage.deleted.get(idx as usize) == Some(false) {
            let found = storage.point_to_values.check_values_any(idx, check_fn);
            proof {
                if found {
                    let values = storage.point_to_values@[idx as int];
                    let k = choose|k: int|
                        0 <= k < values.len() && check_fn.ensures((&#[trigger] values[k],), true);
                    assert(self.values_of(idx).unwrap()[k] == values[k]);
                }
            }
            found
        } else {
            false
        }
    }

    /// The values of point `idx`; `None` if it is tombstoned or unknown.
    pub fn get_values(&self, idx: PointOffsetType) -> (r: Option<&Vec<N>>)
        requires
            self.wf(),
        ensures
            r.is_some() == self.values_of(idx).is_some(),
            r matches Some(values) ==> values@ == self.values_of(idx).unwrap(),
    {
        let storage = match &self.storage {
            Some(storage) => storage,
            None => {
                return None;
            },
        };
        if storage.deleted.get(idx as usize) == Some(false) {
            storage.point_to_values.get_values(idx)
        } else {
            None
        }
    }

    /// The number of values of point `idx`; `None` if it is tombstoned or
    /// unknown.
    pub fn values_count(&self, idx: PointOffsetType) -> (r: Option<usize>)
        requires
            self.wf(),
        ensures
            r.is_some() == self.values_of(idx).is_some(),
            r matches Some(n) ==> n == self.values_of(idx).unwrap().len(),
    {
        let storage = match &self.storage {
            Some(storage) => storage,
            None => {
                return None;
            },
        };
        if storage.deleted.get(idx as usize) == Some(false) {
            storage.point_to_values.get_values_count(idx)
        } else {
            None
        }
    }

    /// The number of points that are not tombstoned; zero where there
    /// are more tombstones than points.
    pub fn get_indexed_points(&self) -> (n: usize)
        requires
            self.wf(),
        ensures
            n == if self.point_values().len() >= self.deleted_count() {
                self.point_values().len() - self.deleted_count()
            } else {
                0
            },
    {
        let storage = match &self.storage {
            Some(storage) => storage,
            None => {
                return 0;
            },
        };
        storage.point_to_values.len().saturating_sub(self.deleted_count)
    }

    /// The number of key-value pairs counted when the index was built.
    /// Deleting points does not lower it.
    pub fn get_values_count(&self) -> (n: usize)
        ensures
            n == self.total_key_value_pairs(),
    {
        self.total_key_value_pairs
    }

    /// The number of distinct values.
    pub fn get_unique_values_count(&self) -> (n: usize)
        ensures
            n == if self.has_storage() {
                self.table().keys().len()
            } else {
                0
            },
    {
        let storage = match &self.storage {
            Some(storage) => storage,
            None => {
                return 0;
            },
        };
        storage.value_to_points.keys_count()
    }

    /// The number of ids listed for a value, tombstoned or not; `None`
    /// for a value the table does not hold. Finding the entry is charged
    /// where the index lives on disk.
    pub fn get_count_for_value(&self, value: &N, hw_counter: &mut HardwareCounterCell) -> (r:
        Option<usize>)
        requires
            self.wf(),
        ensures
            *final(hw_counter) == old(hw_counter).read_more_if(
                self.has_storage() && self.on_disk(),
                READ_ENTRY_OVERHEAD,
            ),
            r.is_some() == self.value_to_points().contains_key(value.key_bytes()),
            r matches Some(n) ==> n == self.value_to_points()[value.key_bytes()].len(),
    {
        let storage = match &self.storage {
            Some(storage) => storage,
            None => {
                return None;
            },
        };
        hw_counter.incr_read_if(self.is_on_disk, READ_ENTRY_OVERHEAD);
        match storage.value_to_points.get(value) {
            Some(points) => Some(points.len()),
            None => None,
        }
    }

    /// The charge for a lookup that found a list of `len` ids: four
    /// bytes per id and the entry itself.
    pub open spec fn lookup_charge(len: nat) -> usize {
        if 4 * len + READ_ENTRY_OVERHEAD > usize::MAX {
            usize::MAX
        } else {
            (4 * len + READ_ENTRY_OVERHEAD) as usize
        }
    }

    /// The ids listed for a value that are not tombstoned, in the order
    /// of the list; nothing for a value the table does not hold. Where
    /// the index lives on disk, the entry and the ids read are charged.
    pub fn get_iterator(&self, value: &N, hw_counter: &mut HardwareCounterCell) -> (ids: Vec<
        PointOffsetType,
    >)
        requires
            self.wf(),
        ensures
            ids@ == self.iterator_ids(*value),
            *final(hw_counter) == old(hw_counter).read_more_if(
                self.has_storage() && self.on_disk(),
                if self.value_to_points().contains_key(value.key_bytes()) {
                    Self::lookup_charge(self.value_to_points()[value.key_bytes()].len())
                } else {
                    READ_ENTRY_OVERHEAD
                },
            ),
    {
        let storage = match &self.storage {
            Some(storage) => storage,
            None => {
                return Vec::new();
            },
        };
        match storage.value_to_points.get(value) {
            Some(slice) => {
                let bytes: usize = id_bytes(slice.len()).saturating_add(READ_ENTRY_OVERHEAD);
                hw_counter.incr_read_if(self.is_on_disk, bytes);
                filter_ids(slice, &storage.deleted, false)
            },
            None => {
                hw_counter.incr_read_if(self.is_on_disk, READ_ENTRY_OVERHEAD);
                Vec::new()
            },
        }
    }

    /// Every value of the table, in the order of its entries.
    pub fn iter_values(&self) -> (values: Vec<&N>)
        requires
            self.wf(),
        ensures
            values@.len() == if self.has_storage() {
                self.table().keys().len()
            } else {
                0
            },
            forall|e: int| 0 <= e < values@.len() ==> *(#[trigger] values@[e]) == self.table().keys()[e],
    {
        let mut values: Vec<&N> = Vec::new();
        let storage = match &self.storage {
            Some(storage) => storage,
            None => {
                return values;
            },
        };
        let n: usize = storage.value_to_points.keys_count();
        let mut e: usize = 0;
        while e < n
            invariant
                e <= n,
                n == storage.value_to_points.keys().len(),
                values@.len() == e,
                forall|j: int|
                    0 <= j < e ==> *(#[trigger] values@[j]) == storage.value_to_points.keys()[j],
            decreases n - e,
        {
            values.push(storage.value_to_points.key_at(e));
            e = e + 1;
        }
        values
    }

    /// For every value, the number of distinct live points listed for
    /// it.
    pub fn iter_counts_per_value(&self) -> (counts: Vec<(&N, usize)>)
        requires
            self.wf(),
        ensures
            counts@.len() == if self.has_storage() {
                self.table().keys().len()
            } else {
                0
            },
            forall|e: int|
                0 <= e < counts@.len() ==> {
                    &&& *(#[trigger] counts@[e]).0 == self.table().keys()[e]
                    &&& counts@[e].1 == first_occurrences(
                        live_ids(self.table().values()[e], self.deleted_bits()),
                    ).len()
                },
    {
        let mut counts: Vec<(&N, usize)> = Vec::new();
        let storage = match &self.storage {
            Some(storage) => storage,
            None => {
                return counts;
            },
        };
        let n: usize = storage.value_to_points.keys_count();
        proof {
            storage.value_to_points.lemma_wf();
        }
        let mut e: usize = 0;
        while e < n
            invariant
                e <= n,
                n == storage.value_to_points.keys().len(),
                n == storage.value_to_points.values().len(),
                storage.value_to_points.wf(),
                storage.deleted.wf(),
                counts@.len() == e,
                forall|j: int|
                    0 <= j < e ==> {
                        &&& *(#[trigger] counts@[j]).0 == storage.value_to_points.keys()[j]
                        &&& counts@[j].1 == first_occurrences(
                            live_ids(storage.value_to_points.values()[j], storage.deleted@),
                        ).len()
                    },
            decreases n - e,
        {
            let live = filter_ids(storage.value_to_points.values_at(e), &storage.deleted, true);
            let count: usize = unique_ids(&live).len();
            counts.push((storage.value_to_points.key_at(e), count));
            e = e + 1;
        }
        counts
    }

    /// The charge for reading the ids of every entry before `upto`:
    /// the bytes of the key and four bytes per live id.
    pub open spec fn map_charge(&self, upto: int) -> usize
        decreases upto,
    {
        if upto <= 0 || !self.has_storage() {
            0
        } else {
            let e = upto - 1;
            let key = self.table().keys()[e].key_bytes().len();
            let ids = live_ids(self.table().values()[e], self.deleted_bits()).len();
            let entry: usize = if key + 4 * ids > usize::MAX {
                usize::MAX
            } else {
                (key + 4 * ids) as usize
            };
            crate::counter::saturating_sum(self.map_charge(e), entry)
        }
    }

    /// For every value, the live points listed for it, in the order of
    /// the list. Where the index lives on disk, the bytes of every key
    /// and of every id handed out are charged.
    pub fn iter_values_map(&self, hw_counter: &mut HardwareCounterCell) -> (map: Vec<
        (&N, Vec<PointOffsetType>),
    >)
        requires
            self.wf(),
        ensures
            map@.len() == if self.has_storage() {
                self.table().keys().len()
            } else {
                0
            },
            forall|e: int|
                0 <= e < map@.len() ==> {
                    &&& *(#[trigger] map@[e]).0 == self.table().keys()[e]
                    &&& map@[e].1@ == live_ids(self.table().values()[e], self.deleted_bits())
                },
            *final(hw_counter) == old(hw_counter).read_more_if(
                self.has_storage() && self.on_disk(),
                self.map_charge(map@.len() as int),
            ),
    {
        let mut map: Vec<(&N, Vec<PointOffsetType>)> = Vec::new();
        let storage = match &self.storage {
            Some(storage) => storage,
            None => {
                return map;
            },
        };
        let n: usize = storage.value_to_points.keys_count();
        proof {
            storage.value_to_points.lemma_wf();
        }
        let mut charge: usize = 0;
        let mut e: usize = 0;
        while e < n
            invariant
                e <= n,
                self.storage == Some(*storage),
                n == storage.value_to_points.keys().len(),
                n == storage.value_to_points.values().len(),
                storage.value_to_points.wf(),
                storage.deleted.wf(),
                map@.len() == e,
                charge == self.map_charge(e as int),
                forall|j: int|
                    0 <= j < e ==> {
                        &&& *(#[trigger] map@[j]).0 == storage.value_to_points.keys()[j]
                        &&& map@[j].1@ == live_ids(
                            storage.value_to_points.values()[j],
                            storage.deleted@,
                        )
                    },
            decreases n - e,
        {
            let key = storage.value_to_points.key_at(e);
            let key_len: usize = key.write_bytes().len();
            let live = filter_ids(storage.value_to_points.values_at(e), &storage.deleted, true);
            let entry: usize = id_bytes(live.len()).saturating_add(key_len);
            charge = charge.saturating_add(entry);
            map.push((key, live));
            e = e + 1;
        }
        hw_counter.incr_read_if(self.is_on_disk, charge);
        map
    }

    pub fn is_on_disk(&self) -> (b: bool)
        ensures
            b == self.on_disk(),
    {
        self.is_on_disk
    }

    /// The table, as it goes to disk.
    pub fn value_to_points_table(&self) -> (table: Option<&MmapHashMap<N>>)
        ensures
            table.is_some() == self.has_storage(),
            table matches Some(t) ==> *t == self.table(),
    {
        match &self.storage {
            Some(storage) => Some(&storage.value_to_points),
            None => None,
        }
    }

    /// The values of every point, as they go to disk.
    pub fn point_to_values(&self) -> (p: Option<&MmapPointToValues<N>>)
        ensures
            p.is_some() == self.has_storage(),
            p matches Some(p) ==> p@ == self.point_values(),
    {
        match &self.storage {
            Some(storage) => Some(&storage.point_to_values),
            None => None,
        }
    }

    /// The bytes of the tombstone file as last flushed.
    pub fn deleted_bytes(&self) -> (bytes: Option<&Vec<u8>>)
        ensures
            bytes.is_some() == self.has_storage(),
            bytes matches Some(b) ==> b@ == self.deleted_file(),
    {
        match &self.storage {
            Some(storage) => Some(storage.deleted.as_bytes()),
            None => None,
        }
    }

    /// What the index fixed when it was built.
    pub fn config(&self) -> (config: MmapMapIndexConfig)
        ensures
            config.total_key_value_pairs == self.total_key_value_pairs(),
    {
        MmapMapIndexConfig { total_key_value_pairs: self.total_key_value_pairs }
    }
}

/// The number of values that all points carry together; `None` if a
/// machine word cannot hold it.
pub fn count_pairs<N>(lists: &Vec<Vec<N>>) -> (r: Option<usize>)
    ensures
        r.is_some() <==> total_pairs(lists_of(lists@)) <= usize::MAX,
        r matches Some(n) ==> n == total_pairs(lists_of(lists@)),
{
    let mut total: usize = 0;
    let mut k: usize = 0;
    assert(lists_of(lists@).take(0) =~= Seq::<Seq<N>>::empty());
    while k < lists.len()
        invariant
            k <= lists.len(),
            total == total_pairs(lists_of(lists@).take(k as int)),
        decreases lists.len() - k,
    {
        proof {
            assert(lists_of(lists@).take(k + 1).drop_last() =~= lists_of(lists@).take(k as int));
            lemma_total_pairs_grows(lists_of(lists@), k + 1);
        }
        if lists[k].len() > usize::MAX - total {
            return None;
        }
        total = total + lists[k].len();
        k = k + 1;
    }
    assert(lists_of(lists@).take(lists.len() as int) =~= lists_of(lists@));
    Some(total)
}

/// The pairs of the first points are no more than the pairs of all.
pub proof fn lemma_total_pairs_grows<N>(lists: Seq<Seq<N>>, upto: int)
    requires
        0 <= upto <= lists.len(),
    ensures
        total_pairs(lists.take(upto)) <= total_pairs(lists),
    decreases lists.len(),
{
    if upto == lists.len() {
        assert(lists.take(upto) =~= lists);
    } else {
        assert(lists.drop_last().take(upto) =~= lists.take(upto));
        lemma_total_pairs_grows(lists.drop_last(), upto);
    }
}

/// The ids of a list whose tombstone is not set, in the order of the
/// list. An id beyond the bitmap is dropped if `known_only` holds and
/// kept otherwise.
pub fn filter_ids(
    ids: &Vec<PointOffsetType>,
    deleted: &MmapBitSliceBufferedUpdateWrapper,
    known_only: bool,
) -> (kept: Vec<PointOffsetType>)
    requires
        deleted.wf(),
    ensures
        kept@ == if known_only {
            live_ids(ids@, deleted@)
        } else {
            kept_ids(ids@, deleted@)
        },
{
    let ghost pred = if known_only {
        |id: PointOffsetType| is_live(deleted@, id)
    } else {
        |id: PointOffsetType| is_kept(deleted@, id)
    };
    let mut kept: Vec<PointOffsetType> = Vec::new();
    let mut k: usize = 0;
    proof {
        reveal(Seq::filter);
        assert(ids@.take(0) =~= Seq::<PointOffsetType>::empty());
    }
    while k < ids.len()
        invariant
            k <= ids.len(),
            deleted.wf(),
            pred == if known_only {
                |id: PointOffsetType| is_live(deleted@, id)
            } else {
                |id: PointOffsetType| is_kept(deleted@, id)
            },
            kept@ == ids@.take(k as int).filter(pred),
        decreases ids.len() - k,
    {
        let id: PointOffsetType = ids[k];
        proof {
            assert(ids@.take(k + 1) =~= ids@.take(k as int).push(id));
            ids@.take(k as int).lemma_filter_push(id, pred);
        }
        let keep = match deleted.get(id as usize) {
            Some(bit) => !bit,
            None => !known_only,
        };
        if keep {
            kept.push(id);
        }
        k = k + 1;
    }
    assert(ids@.take(ids.len() as int) =~= ids@);
    kept
}

} // verus!
