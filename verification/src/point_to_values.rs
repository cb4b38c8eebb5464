//! The inverse side of an index: for every point, the values it carries.
//!
//! Deletion is not reflected here; an index that holds tombstones checks
//! them before it asks.

use vstd::prelude::*;
use crate::byte_format::words_bytes;
use crate::in_memory_numeric_index::lists_of;
use crate::mmap_hashmap::MapIndexKey;
use crate::point_values_file::lemma_files_read_then_written;
use crate::point_values_file::lemma_files_written_then_read;
use crate::point_values_file::lists_fit;
use crate::point_values_file::offsets_words;
use crate::point_values_file::parse_files;
use crate::point_values_file::raw_lists;
use crate::point_values_file::read_values;
use crate::point_values_file::region_bytes;
use crate::point_values_file::write_values;
use crate::point_values_file::RawList;
use crate::types::OperationError;
use crate::types::OperationResult;
use crate::types::PointOffsetType;

verus! {

/// File that holds the values of every point.
pub const POINT_TO_VALUES_PATH: &'static str = "point_to_values.bin";

/// File that says where the values of every point start, and how many
/// there are.
pub const POINT_TO_VALUES_OFFSETS_PATH: &'static str = "point_to_values_offsets.bin";

pub struct MmapPointToValues<T> {
    lists: Vec<Vec<T>>,
}

impl<T> MmapPointToValues<T> {
    /// The values of every point, by point id.
    pub closed spec fn view(&self) -> Seq<Seq<T>> {
        lists_of(self.lists@)
    }

    pub fn from_lists(lists: Vec<Vec<T>>) -> (p: Self)
        ensures
            p@ == lists_of(lists@),
    {
        MmapPointToValues { lists }
    }

    /// The number of points, with or without values.
    pub fn len(&self) -> (n: usize)
        ensures
            n == self@.len(),
    {
        self.lists.len()
    }

    /// The values of point `idx`; `None` past the last point.
    pub fn get_values(&self, idx: PointOffsetType) -> (r: Option<&Vec<T>>)
        ensures
            r.is_some() <==> idx < self@.len(),
            r matches Some(values) ==> values@ == self@[idx as int],
    {
        if (idx as usize) < self.lists.len() {
            Some(&self.lists[idx as usize])
        } else {
            None
        }
    }

    pub fn get_values_count(&self, idx: PointOffsetType) -> (r: Option<usize>)
        ensures
            r.is_some() <==> idx < self@.len(),
            r matches Some(n) ==> n == self@[idx as int].len(),
    {
        if (idx as usize) < self.lists.len() {
            Some(self.lists[idx as usize].len())
        } else {
            None
        }
    }

    /// Whether `check_fn` accepts one of the values of point `idx`. Stops
    /// at the first value accepted.
    pub fn check_values_any<F: Fn(&T) -> bool>(&self, idx: PointOffsetType, check_fn: F) -> (r:
        bool)
        requires
            forall|v: &T| check_fn.requires((v,)),
        ensures
            r ==> idx < self@.len() && exists|k: int|
                0 <= k < self@[idx as int].len() && check_fn.ensures(
                    (&#[trigger] self@[idx as int][k],),
                    true,
                ),
            !r ==> idx >= self@.len() || forall|k: int|
                0 <= k < self@[idx as int].len() ==> check_fn.ensures(
                    (&#[trigger] self@[idx as int][k],),
                    false,
                ),
    {
        if (idx as usize) >= self.lists.len() {
            return false;
        }
        let values = &self.lists[idx as usize];
        let mut k: usize = 0;
        while k < values.len()
            invariant
                k <= values.len(),
                idx < self@.len(),
                values@ == self@[idx as int],
                forall|v: &T| check_fn.requires((v,)),
                forall|j: int| 0 <= j < k ==> check_fn.ensures((&#[trigger] values@[j],), false),
            decreases values.len() - k,
        {
            if check_fn(&values[k]) {
                return true;
            }
            k = k + 1;
        }
        false
    }

    /// The value lists as they go to disk.
    pub fn as_lists(&self) -> (lists: &Vec<Vec<T>>)
        ensures
            lists_of(lists@) == self@,
    {
        &self.lists
    }

    /// The files that back the map, relative to the index directory.
    pub fn files(&self) -> (files: Vec<&'static str>)
        ensures
            files@ == seq![POINT_TO_VALUES_PATH, POINT_TO_VALUES_OFFSETS_PATH],
    {
        let mut files: Vec<&'static str> = Vec::new();
        files.push(POINT_TO_VALUES_PATH);
        files.push(POINT_TO_VALUES_OFFSETS_PATH);
        assert(files@ =~= seq![POINT_TO_VALUES_PATH, POINT_TO_VALUES_OFFSETS_PATH]);
        files
    }

    /// The files that never change after the build.
    pub fn immutable_files(&self) -> (files: Vec<&'static str>)
        ensures
            files@ == seq![POINT_TO_VALUES_PATH, POINT_TO_VALUES_OFFSETS_PATH],
    {
        self.files()
    }
}

/// The values of every point, each by its bytes.
pub open spec fn raw_values<K: MapIndexKey>(lists: Seq<Seq<K>>) -> Seq<RawList> {
    Seq::new(lists.len(), |i: int| Seq::new(lists[i].len(), |k: int| lists[i][k].key_bytes()))
}

impl<K: MapIndexKey> MmapPointToValues<K> {
    /// The bytes of the offsets file.
    pub open spec fn offsets_file(&self) -> Seq<u8> {
        words_bytes(offsets_words(K::fixed_width(), raw_values(self@)), 8)
    }

    /// The bytes of the values file.
    pub open spec fn values_file(&self) -> Seq<u8> {
        region_bytes(K::fixed_width(), raw_values(self@))
    }

    /// Whether the map can be written: every value fits the place the
    /// values file gives it.
    pub open spec fn fits_files(&self) -> bool {
        lists_fit(K::fixed_width(), raw_values(self@))
    }

    /// The files of a map that can be written are read back as the bytes
    /// of its values.
    pub proof fn lemma_files_are_read_back(&self)
        requires
            self.fits_files(),
        ensures
            parse_files(K::fixed_width(), self.offsets_file(), self.values_file()) == Some(
                raw_values(self@),
            ),
    {
        lemma_files_written_then_read(K::fixed_width(), raw_values(self@));
    }

    /// The offsets file and the values file of the map; `None` if a
    /// value does not fit.
    pub fn to_files(&self) -> (r: Option<(Vec<u8>, Vec<u8>)>)
        ensures
            r.is_some() <==> self.fits_files(),
            r matches Some((offsets, values)) ==> offsets@ == self.offsets_file() && values@
                == self.values_file(),
    {
        let mut raw: Vec<Vec<Vec<u8>>> = Vec::new();
        let mut i: usize = 0;
        while i < self.lists.len()
            invariant
                i <= self.lists@.len(),
                raw@.len() == i,
                forall|j: int|
                    0 <= j < i ==> (#[trigger] raw@[j])@.len() == self.lists@[j]@.len() && forall|
                        k: int,
                    |
                        0 <= k < raw@[j]@.len() ==> (#[trigger] raw@[j]@[k])@
                            == self.lists@[j]@[k].key_bytes(),
            decreases self.lists.len() - i,
        {
            let list = &self.lists[i];
            let mut bytes: Vec<Vec<u8>> = Vec::new();
            let mut k: usize = 0;
            while k < list.len()
                invariant
                    k <= list@.len(),
                    bytes@.len() == k,
                    forall|j: int|
                        0 <= j < k ==> (#[trigger] bytes@[j])@ == list@[j].key_bytes(),
                decreases list.len() - k,
            {
                bytes.push(list[k].write_bytes());
                k = k + 1;
            }
            raw.push(bytes);
            i = i + 1;
        }
        proof {
            assert(raw_lists(raw@) =~= raw_values(self@)) by {
                assert forall|j: int| 0 <= j < raw@.len() implies raw_lists(raw@)[j]
                    =~= raw_values(self@)[j] by {
                    assert(raw@[j]@.len() == self.lists@[j]@.len());
                    assert forall|k: int| 0 <= k < raw@[j]@.len() implies raw_lists(raw@)[j][k]
                        == raw_values(self@)[j][k] by {
                        assert(raw@[j]@[k]@ == self.lists@[j]@[k].key_bytes());
                    }
                }
            }
        }
        write_values(K::key_width(), &raw)
    }

    /// Opens the map that two files hold. Fails unless the bytes are the
    /// files of a map.
    pub fn from_files(offsets: &[u8], values: &[u8]) -> (r: OperationResult<Self>)
        ensures
            r matches Ok(map) ==> map.fits_files() && map.offsets_file() == offsets@
                && map.values_file() == values@,
            r.is_err() ==> forall|map: MmapPointToValues<K>|
                map.fits_files() ==> !(#[trigger] map.offsets_file() == offsets@
                    && map.values_file() == values@),
    {
        let ghost width = K::fixed_width();
        let raw = match read_values(K::key_width(), offsets, values) {
            Some(raw) => raw,
            None => {
                proof {
                    assert forall|map: MmapPointToValues<K>| map.fits_files() implies !(
                    #[trigger] map.offsets_file() == offsets@ && map.values_file() == values@) by {
                        if map.offsets_file() == offsets@ && map.values_file() == values@ {
                            map.lemma_files_are_read_back();
                        }
                    }
                }
                return Err(OperationError::corruption("point values files are cut short"));
            },
        };
        let ghost parsed = raw_lists(raw@);
        proof {
            assert forall|map: MmapPointToValues<K>|
                map.fits_files() && #[trigger] map.offsets_file() == offsets@ && map.values_file()
                    == values@ implies raw_values(map@) == parsed by {
                map.lemma_files_are_read_back();
            }
        }
        let mut lists: Vec<Vec<K>> = Vec::new();
        let mut i: usize = 0;
        while i < raw.len()
            invariant
                i <= raw@.len(),
                parsed == raw_lists(raw@),
                lists@.len() == i,
                forall|j: int|
                    0 <= j < i ==> (#[trigger] lists@[j])@.len() == raw@[j]@.len() && forall|k: int|
                        0 <= k < raw@[j]@.len() ==> (#[trigger] lists@[j]@[k]).key_bytes()
                            == raw@[j]@[k]@,
                forall|map: MmapPointToValues<K>|
                    map.fits_files() && #[trigger] map.offsets_file() == offsets@
                        && map.values_file() == values@ ==> raw_values(map@) == parsed,
            decreases raw.len() - i,
        {
            let source = &raw[i];
            let mut list: Vec<K> = Vec::new();
            let mut k: usize = 0;
            while k < source.len()
                invariant
                    k <= source@.len(),
                    i < raw@.len(),
                    source == &raw@[i as int],
                    parsed == raw_lists(raw@),
                    list@.len() == k,
                    forall|j: int|
                        0 <= j < k ==> (#[trigger] list@[j]).key_bytes() == source@[j]@,
                    forall|map: MmapPointToValues<K>|
                        map.fits_files() && #[trigger] map.offsets_file() == offsets@
                            && map.values_file() == values@ ==> raw_values(map@) == parsed,
                decreases source.len() - k,
            {
                let mut bytes: Vec<u8> = Vec::new();
                let stored = &source[k];
                let mut b: usize = 0;
                while b < stored.len()
                    invariant
                        b <= stored@.len(),
                        bytes@ == stored@.take(b as int),
                    decreases stored.len() - b,
                {
                    bytes.push(stored[b]);
                    assert(bytes@ =~= stored@.take(b + 1));
                    b = b + 1;
                }
                assert(stored@.take(stored@.len() as int) =~= stored@);
                let value = match K::from_key_bytes(bytes) {
                    Some(value) => value,
                    None => {
                        proof {
                            assert forall|map: MmapPointToValues<K>| map.fits_files() implies !(
                            #[trigger] map.offsets_file() == offsets@ && map.values_file()
                                == values@) by {
                                if map.offsets_file() == offsets@ && map.values_file() == values@ {
                                    assert(raw_values(map@) == parsed);
                                    assert(parsed[i as int][k as int] == stored@);
                                    assert(raw_values(map@)[i as int][k as int]
                                        == map@[i as int][k as int].key_bytes());
                                    map@[i as int][k as int].lemma_key_bytes_spell_a_key();
                                }
                            }
                        }
                        return Err(
                            OperationError::corruption("point values file holds bytes that are no value"),
                        );
                    },
                };
                list.push(value);
                k = k + 1;
            }
            lists.push(list);
            i = i + 1;
        }
        let map = MmapPointToValues { lists };
        proof {
            assert(raw_values(map@) =~= parsed) by {
                assert forall|j: int| 0 <= j < parsed.len() implies raw_values(map@)[j]
                    =~= parsed[j] by {
                    assert(map.lists@[j]@.len() == raw@[j]@.len());
                    assert forall|k: int| 0 <= k < parsed[j].len() implies raw_values(
                        map@,
                    )[j][k] == parsed[j][k] by {
                        assert(map.lists@[j]@[k].key_bytes() == raw@[j]@[k]@);
                    }
                }
            }
            assert(usize::MAX <= 0xffff_ffff_ffff_ffff) by {
                vstd::layout::unsigned_int_max_values();
            }
            let total = values.len();
            lemma_files_read_then_written(width, offsets@, values@);
        }
        Ok(map)
    }
}

} // verus!
