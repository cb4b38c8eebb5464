use field_index::counter::HardwareCounterCell;
use field_index::mmap_hashmap::bytes_less;
use field_index::mmap_hashmap::order_entries;
use field_index::counter::READ_ENTRY_OVERHEAD;
use field_index::mmap_map_index::MmapMapIndex;
use field_index::mmap_map_index::MmapMapIndexFiles;
use field_index::mmap_map_index::CONFIG_PATH;
use field_index::mmap_map_index::DELETED_PATH;
use field_index::mmap_map_index::HASHMAP_PATH;
use field_index::point_to_values::MmapPointToValues;
use field_index::point_to_values::POINT_TO_VALUES_OFFSETS_PATH;
use field_index::point_to_values::POINT_TO_VALUES_PATH;
use field_index::types::OperationError;

fn s(v: &str) -> String {
    v.to_string()
}

fn build_strings(points: &[Vec<&str>], on_disk: bool) -> MmapMapIndex<String> {
    let point_to_values: Vec<Vec<String>> = points
        .iter()
        .map(|values| values.iter().map(|v| s(v)).collect())
        .collect();
    let mut values: Vec<String> = Vec::new();
    let mut ids: Vec<Vec<u32>> = Vec::new();
    for (id, list) in point_to_values.iter().enumerate() {
        for value in list {
            match values.iter().position(|v| v == value) {
                Some(at) => ids[at].push(id as u32),
                None => {
                    values.push(value.clone());
                    ids.push(vec![id as u32]);
                }
            }
        }
    }
    MmapMapIndex::build(point_to_values, values, ids, on_disk).unwrap()
}

#[test]
fn lookup_yields_the_points_of_a_value() {
    let index = build_strings(&[vec!["a"], vec!["b"], vec!["a"]], false);
    let mut hw = HardwareCounterCell::new();
    assert_eq!(index.get_iterator(&s("a"), &mut hw), vec![0, 2]);
    assert_eq!(index.get_iterator(&s("b"), &mut hw), vec![1]);
    assert_eq!(index.get_iterator(&s("c"), &mut hw), Vec::<u32>::new());
    assert_eq!(hw, HardwareCounterCell::new());
}

#[test]
fn removed_point_leaves_lookups() {
    let mut index = build_strings(&[vec!["a"], vec!["b"], vec!["a"]], false);
    let mut hw = HardwareCounterCell::new();
    index.remove_point(0);
    assert_eq!(index.get_iterator(&s("a"), &mut hw), vec![2]);
    assert_eq!(index.get_indexed_points(), 2);
    // removing twice, or removing what is not there, changes nothing
    index.remove_point(0);
    index.remove_point(1000);
    assert_eq!(index.get_iterator(&s("a"), &mut hw), vec![2]);
    assert_eq!(index.get_indexed_points(), 2);
    // the count of a value and the build-time total ignore tombstones
    assert_eq!(index.get_count_for_value(&s("a"), &mut hw), Some(2));
    assert_eq!(index.get_values_count(), 3);
    assert_eq!(index.get_values(0), None);
    assert_eq!(index.get_values(2), Some(&vec![s("a")]));
}

#[test]
fn point_without_values_is_tombstoned_at_build() {
    let index = build_strings(&[vec![]], false);
    assert_eq!(index.get_values(0), None);
    assert_eq!(index.values_count(0), None);
    assert_eq!(index.get_indexed_points(), 0);
    // one word of bitmap, bit 0 set
    assert_eq!(index.deleted_bytes(), Some(&vec![1u8, 0, 0, 0, 0, 0, 0, 0]));
    assert_eq!(index.get_values_count(), 0);
    assert_eq!(index.get_unique_values_count(), 0);
}

#[test]
fn tombstone_file_is_whole_words() {
    let points: Vec<Vec<&str>> = (0..65).map(|i| if i % 2 == 0 { vec!["x"] } else { vec![] }).collect();
    let index = build_strings(&points, false);
    let bytes = index.deleted_bytes().unwrap();
    assert_eq!(bytes.len(), 16);
    assert_eq!(bytes[0], 0b1010_1010);
    assert_eq!(bytes[7], 0b1010_1010);
    assert_eq!(bytes[8], 0);
    assert_eq!(index.get_indexed_points(), 33);
    assert_eq!(field_index::bitslice::deleted_file_len(0), 0);
    assert_eq!(field_index::bitslice::deleted_file_len(1), 8);
    assert_eq!(field_index::bitslice::deleted_file_len(64), 8);
    assert_eq!(field_index::bitslice::deleted_file_len(65), 16);
}

#[test]
fn tombstones_reach_the_file_on_flush() {
    let mut index = build_strings(&[vec!["a"], vec!["b"], vec!["a"]], true);
    index.remove_point(1);
    assert_eq!(index.deleted_bytes().unwrap()[0], 0);
    assert_eq!(index.get_values(1), None);
    index.flusher();
    assert_eq!(index.deleted_bytes().unwrap()[0], 0b10);
    assert_eq!(index.get_values(1), None);
    assert_eq!(index.get_indexed_points(), 2);
}

#[test]
fn reopened_index_counts_its_tombstones() {
    let mut index = build_strings(&[vec!["a"], vec![], vec!["a", "b"]], false);
    index.remove_point(0);
    index.flusher();
    let deleted = index.deleted_bytes().unwrap().clone();
    let lists = index.point_to_values().unwrap().as_lists().clone();
    let files = MmapMapIndexFiles {
        config: index.config(),
        value_to_points: index.value_to_points_table().unwrap().to_bytes().unwrap(),
        point_to_values: field_index::point_to_values::MmapPointToValues::from_lists(lists),
        deleted,
    };
    let reopened = MmapMapIndex::open(Some(files), true).unwrap();
    assert_eq!(reopened.get_indexed_points(), 1);
    assert_eq!(reopened.get_values_count(), 3);
    let mut hw = HardwareCounterCell::new();
    assert_eq!(reopened.get_iterator(&s("a"), &mut hw), vec![2]);
    assert_eq!(reopened.load().unwrap(), true);
    assert!(reopened.is_on_disk());
}

#[test]
fn index_without_files_is_an_empty_stub() {
    let mut index: MmapMapIndex<String> = MmapMapIndex::open(None, false).unwrap();
    let mut hw = HardwareCounterCell::new();
    assert_eq!(index.load().unwrap(), false);
    assert_eq!(index.get_iterator(&s("a"), &mut hw), Vec::<u32>::new());
    assert_eq!(index.get_count_for_value(&s("a"), &mut hw), None);
    assert_eq!(index.get_values(0), None);
    assert_eq!(index.values_count(0), None);
    assert!(!index.check_values_any(0, &mut hw, |_| true));
    assert_eq!(index.get_indexed_points(), 0);
    assert_eq!(index.get_values_count(), 0);
    assert_eq!(index.get_unique_values_count(), 0);
    assert!(index.iter_values().is_empty());
    assert!(index.iter_counts_per_value().is_empty());
    assert!(index.iter_values_map(&mut hw).is_empty());
    index.remove_point(3);
    index.flusher();
    assert_eq!(index.files(), vec![HASHMAP_PATH, DELETED_PATH, CONFIG_PATH]);
    assert_eq!(index.immutable_files(), vec![HASHMAP_PATH, CONFIG_PATH]);
    assert_eq!(hw, HardwareCounterCell::new());
}

#[test]
fn files_of_a_built_index() {
    let index = build_strings(&[vec!["a"]], false);
    assert_eq!(
        index.files(),
        vec![
            HASHMAP_PATH,
            DELETED_PATH,
            CONFIG_PATH,
            POINT_TO_VALUES_PATH,
            POINT_TO_VALUES_OFFSETS_PATH
        ]
    );
    assert_eq!(
        index.immutable_files(),
        vec![
            HASHMAP_PATH,
            CONFIG_PATH,
            POINT_TO_VALUES_PATH,
            POINT_TO_VALUES_OFFSETS_PATH
        ]
    );
    assert_eq!(HASHMAP_PATH, "values_to_points.bin");
    assert_eq!(DELETED_PATH, "deleted.bin");
    assert_eq!(CONFIG_PATH, "mmap_field_index_config.json");
}

#[test]
fn counts_per_value_are_live_and_distinct() {
    let point_to_values = vec![vec![7i64, 8], vec![7], vec![8], vec![]];
    let values = vec![7i64, 8];
    // point 0 is listed twice under 7, and point 1000 is unknown
    let ids = vec![vec![0u32, 0, 1], vec![0, 2, 1000]];
    let mut index = MmapMapIndex::build(point_to_values, values, ids, false).unwrap();
    let counts: Vec<(i64, usize)> = index
        .iter_counts_per_value()
        .into_iter()
        .map(|(k, n)| (*k, n))
        .collect();
    assert_eq!(counts, vec![(7, 2), (8, 2)]);
    index.remove_point(0);
    let counts: Vec<(i64, usize)> = index
        .iter_counts_per_value()
        .into_iter()
        .map(|(k, n)| (*k, n))
        .collect();
    assert_eq!(counts, vec![(7, 1), (8, 1)]);
    let mut hw = HardwareCounterCell::new();
    let map: Vec<(i64, Vec<u32>)> = index
        .iter_values_map(&mut hw)
        .into_iter()
        .map(|(k, ids)| (*k, ids))
        .collect();
    assert_eq!(map, vec![(7, vec![1]), (8, vec![2])]);
    // a lookup keeps an id beyond the bitmap, the counts do not
    assert_eq!(index.get_iterator(&8, &mut hw), vec![2, 1000]);
    let keys: Vec<i64> = index.iter_values().into_iter().copied().collect();
    assert_eq!(keys, vec![7, 8]);
    assert_eq!(index.get_unique_values_count(), 2);
}

#[test]
fn reads_are_charged_on_disk_only() {
    let in_ram = build_strings(&[vec!["a"], vec!["b"], vec!["a"]], false);
    let on_disk = build_strings(&[vec!["a"], vec!["b"], vec!["a"]], true);
    let mut hw = HardwareCounterCell::new();
    in_ram.get_iterator(&s("a"), &mut hw);
    in_ram.get_count_for_value(&s("a"), &mut hw);
    in_ram.check_values_any(0, &mut hw, |_| true);
    in_ram.iter_values_map(&mut hw);
    assert_eq!(hw.payload_index_io_read, 0);

    let mut hw = HardwareCounterCell::new();
    on_disk.get_iterator(&s("a"), &mut hw);
    assert_eq!(hw.payload_index_io_read, 2 * 4 + READ_ENTRY_OVERHEAD);
    let mut hw = HardwareCounterCell::new();
    on_disk.get_iterator(&s("zzz"), &mut hw);
    assert_eq!(hw.payload_index_io_read, READ_ENTRY_OVERHEAD);
    let mut hw = HardwareCounterCell::new();
    on_disk.get_count_for_value(&s("a"), &mut hw);
    assert_eq!(hw.payload_index_io_read, READ_ENTRY_OVERHEAD);
    let mut hw = HardwareCounterCell::new();
    assert!(on_disk.check_values_any(0, &mut hw, |v| v == "a"));
    assert_eq!(hw.payload_index_io_read, 1);
    let mut hw = HardwareCounterCell::new();
    on_disk.iter_values_map(&mut hw);
    // keys "a" and "b", three ids
    assert_eq!(hw.payload_index_io_read, 2 + 3 * 4);
    assert_eq!(hw.payload_index_io_write, 0);
}

#[test]
fn check_values_any_skips_tombstoned_points() {
    let mut index = build_strings(&[vec!["a", "b"], vec!["c"]], false);
    let mut hw = HardwareCounterCell::new();
    assert!(index.check_values_any(0, &mut hw, |v| v == "b"));
    assert!(!index.check_values_any(0, &mut hw, |v| v == "c"));
    index.remove_point(0);
    assert!(!index.check_values_any(0, &mut hw, |_| true));
    assert!(!index.check_values_any(5, &mut hw, |_| true));
}

#[test]
fn build_refuses_a_value_listed_twice() {
    let r = MmapMapIndex::build(
        vec![vec![s("a")]],
        vec![s("a"), s("a")],
        vec![vec![0], vec![0]],
        false,
    );
    match r {
        Err(OperationError::ServiceError { description }) => {
            assert_eq!(description, "a key occurs twice")
        }
        _ => panic!("a repeated key was accepted"),
    }
    let r = MmapMapIndex::build(vec![vec![s("a")]], vec![s("a")], vec![], false);
    assert!(matches!(r, Err(OperationError::ServiceError { .. })));
}

#[test]
fn many_keys_are_all_found() {
    let n = 500u32;
    let values: Vec<u128> = (0..n).map(|i| (i as u128) * 0x1_0000_0001_0000_0001).collect();
    let ids: Vec<Vec<u32>> = (0..n).map(|i| vec![i, i + n]).collect();
    let point_to_values: Vec<Vec<u128>> = (0..2 * n)
        .map(|i| vec![values[(i % n) as usize]])
        .collect();
    let mut index = MmapMapIndex::build(point_to_values, values.clone(), ids, true).unwrap();
    let mut hw = HardwareCounterCell::new();
    for i in 0..n {
        assert_eq!(index.get_iterator(&values[i as usize], &mut hw), vec![i, i + n]);
    }
    assert_eq!(index.get_iterator(&12345u128, &mut hw), Vec::<u32>::new());
    assert_eq!(index.get_unique_values_count(), n as usize);
    assert_eq!(index.get_values_count(), 2 * n as usize);
    for i in 0..n {
        index.remove_point(i);
    }
    for i in 0..n {
        assert_eq!(index.get_iterator(&values[i as usize], &mut hw), vec![i + n]);
    }
    assert_eq!(index.get_indexed_points(), n as usize);
}

#[test]
fn table_file_has_header_buckets_and_payload() {
    let files = MmapMapIndex::build_files(vec![vec![7i64], vec![7]], vec![7i64], vec![vec![0, 1]])
        .unwrap();
    let bytes = files.value_to_points;
    // one entry, three buckets, the seed
    assert_eq!(&bytes[0..8], &[0, 0, 0, 0, 0, 0, 0, 1]);
    assert_eq!(&bytes[8..16], &[0, 0, 0, 0, 0, 0, 0, 3]);
    assert_eq!(&bytes[16..24], &[0x5e, 0xed, 0x5e, 0xed, 0x5e, 0xed, 0x5e, 0xed]);
    // two buckets are empty, one holds the entry at offset zero
    let buckets: Vec<&[u8]> = bytes[24..48].chunks(8).collect();
    assert_eq!(buckets.iter().filter(|b| **b == [0xff; 8]).count(), 2);
    assert_eq!(buckets.iter().filter(|b| **b == [0; 8]).count(), 1);
    // payload: key length, key, id count, ids
    assert_eq!(
        &bytes[48..],
        &[
            0, 0, 0, 8, 0x80, 0, 0, 0, 0, 0, 0, 7, 0, 0, 0, 2, 0, 0, 0, 0, 0, 0, 0, 1
        ]
    );
    assert_eq!(files.config.total_key_value_pairs, 2);
    assert_eq!(files.deleted, vec![0u8; 8]);
}

#[test]
fn table_file_round_trips() {
    let index = build_strings(&[vec!["a", "bb"], vec!["ccc"], vec!["a", "\u{e9}t\u{e9}"]], false);
    let table = index.value_to_points_table().unwrap();
    let bytes = table.to_bytes().unwrap();
    let back = field_index::mmap_hashmap::MmapHashMap::<String>::from_bytes(&bytes).unwrap();
    assert_eq!(back.keys_count(), 4);
    for e in 0..table.keys_count() {
        assert_eq!(back.key_at(e), table.key_at(e));
        assert_eq!(back.values_at(e), table.values_at(e));
    }
    assert_eq!(back.get(&s("a")), Some(&vec![0, 2]));
    assert_eq!(back.get(&s("\u{e9}t\u{e9}")), Some(&vec![2]));
    assert_eq!(back.get(&s("zz")), None);
    assert_eq!(back.to_bytes().unwrap(), bytes);
}

#[test]
fn damaged_table_file_is_refused() {
    let index = build_strings(&[vec!["a", "bb"], vec!["ccc"]], false);
    let bytes = index.value_to_points_table().unwrap().to_bytes().unwrap();
    type Table = field_index::mmap_hashmap::MmapHashMap<String>;
    assert!(Table::from_bytes(&bytes).is_ok());
    // cut short
    assert!(Table::from_bytes(&bytes[..bytes.len() - 1]).is_err());
    assert!(Table::from_bytes(&bytes[..10]).is_err());
    assert!(Table::from_bytes(&[]).is_err());
    // trailing bytes
    let mut longer = bytes.clone();
    longer.push(0);
    assert!(Table::from_bytes(&longer).is_err());
    // wrong seed
    let mut seed = bytes.clone();
    seed[23] ^= 1;
    assert!(Table::from_bytes(&seed).is_err());
    // a bucket out of place
    let mut bucket = bytes.clone();
    let at = 24 + (0..7).find(|b| bytes[24 + b * 8] == 0xff).unwrap() * 8;
    for byte in &mut bucket[at..at + 8] {
        *byte = 0;
    }
    assert!(Table::from_bytes(&bucket).is_err());
    // a key that is no text
    let mut key = bytes.clone();
    let last = key.len() - 1 - 4 - 4 - 1;
    let payload = 24 + 7 * 8;
    key[payload + 4] = 0xff;
    assert!(Table::from_bytes(&key).is_err());
    let _ = last;
    // an index over a damaged file does not open
    let files = MmapMapIndexFiles {
        config: index.config(),
        value_to_points: seed,
        point_to_values: field_index::point_to_values::MmapPointToValues::from_lists(vec![]),
        deleted: vec![0; 8],
    };
    match MmapMapIndex::<String>::open(Some(files), false) {
        Err(OperationError::Corruption { description }) => {
            assert_eq!(description, "table file has the wrong seed or size")
        }
        _ => panic!("a damaged file was opened"),
    }
}

#[test]
fn building_twice_gives_the_same_table() {
    let a = build_strings(&[vec!["a", "b"], vec!["c"], vec!["a"]], false);
    let b = build_strings(&[vec!["a", "b"], vec!["c"], vec!["a"]], false);
    let ta = a.value_to_points_table().unwrap();
    let tb = b.value_to_points_table().unwrap();
    assert_eq!(ta.keys_count(), tb.keys_count());
    for e in 0..ta.keys_count() {
        assert_eq!(ta.key_at(e), tb.key_at(e));
        assert_eq!(ta.values_at(e), tb.values_at(e));
    }
    assert_eq!(a.deleted_bytes(), b.deleted_bytes());
    assert_eq!(ta.to_bytes(), tb.to_bytes());
}

#[test]
fn point_values_files_of_fixed_width_values() {
    let map = MmapPointToValues::from_lists(vec![vec![1i64, -1], vec![], vec![7]]);
    let (offsets, values) = map.to_files().unwrap();
    // three points: (start, count) as 64-bit numbers
    assert_eq!(
        offsets,
        vec![
            0, 0, 0, 0, 0, 0, 0, 0, 0, 0, 0, 0, 0, 0, 0, 2, //
            0, 0, 0, 0, 0, 0, 0, 16, 0, 0, 0, 0, 0, 0, 0, 0, //
            0, 0, 0, 0, 0, 0, 0, 16, 0, 0, 0, 0, 0, 0, 0, 1,
        ]
    );
    // values of one width are held without a length
    assert_eq!(
        values,
        vec![
            0x80, 0, 0, 0, 0, 0, 0, 1, //
            0x7f, 0xff, 0xff, 0xff, 0xff, 0xff, 0xff, 0xff, //
            0x80, 0, 0, 0, 0, 0, 0, 7,
        ]
    );
    let back = MmapPointToValues::<i64>::from_files(&offsets, &values).unwrap();
    assert_eq!(back.as_lists(), &vec![vec![1i64, -1], vec![], vec![7]]);
    assert_eq!(back.len(), 3);
    assert_eq!(back.get_values(0), Some(&vec![1, -1]));
    assert_eq!(back.get_values_count(1), Some(0));
    assert_eq!(back.get_values(3), None);
}

#[test]
fn point_values_files_of_text_are_length_prefixed() {
    let map = MmapPointToValues::from_lists(vec![vec![s("ab"), s("")], vec![s("c")]]);
    let (offsets, values) = map.to_files().unwrap();
    assert_eq!(
        values,
        vec![0, 0, 0, 2, b'a', b'b', 0, 0, 0, 0, 0, 0, 0, 1, b'c']
    );
    assert_eq!(offsets.len(), 32);
    assert_eq!(offsets[23], 10);
    assert_eq!(offsets[31], 1);
    let back = MmapPointToValues::<String>::from_files(&offsets, &values).unwrap();
    assert_eq!(back.as_lists(), &vec![vec![s("ab"), s("")], vec![s("c")]]);
    assert!(back.check_values_any(0, |v| v.is_empty()));
    assert!(!back.check_values_any(1, |v| v.is_empty()));
}

#[test]
fn damaged_point_values_files_are_refused() {
    let map = MmapPointToValues::from_lists(vec![vec![s("ab")], vec![s("c")]]);
    let (offsets, values) = map.to_files().unwrap();
    type Map = MmapPointToValues<String>;
    assert!(Map::from_files(&offsets, &values).is_ok());
    // an offsets file that is not whole
    assert!(Map::from_files(&offsets[..31], &values).is_err());
    // values cut short, or with something left over
    assert!(Map::from_files(&offsets, &values[..values.len() - 1]).is_err());
    let mut longer = values.clone();
    longer.push(0);
    assert!(Map::from_files(&offsets, &longer).is_err());
    // a start that is not where the values before end
    let mut moved = offsets.clone();
    moved[23] += 1;
    assert!(Map::from_files(&moved, &values).is_err());
    // bytes that are no text
    let mut text = values.clone();
    text[4] = 0xff;
    assert!(Map::from_files(&offsets, &text).is_err());
    // a width that does not divide the values
    assert!(MmapPointToValues::<i64>::from_files(&offsets, &values).is_err());
    // no points at all
    let empty = Map::from_files(&[], &[]).unwrap();
    assert_eq!(empty.len(), 0);
}

#[test]
fn deleted_count_is_the_union_of_empty_and_removed() {
    // points 1 and 4 have no values
    let mut index = build_strings(
        &[vec!["a"], vec![], vec!["b"], vec!["a"], vec![], vec!["c"]],
        false,
    );
    assert_eq!(index.get_indexed_points(), 4);
    for id in [3u32, 0, 3, 1, 1000, 0, 3] {
        index.remove_point(id);
    }
    // empty: {1, 4}; removed and known: {0, 1, 3}; together four points
    assert_eq!(index.get_indexed_points(), 6 - 4);
    let set: Vec<usize> = {
        index.flusher();
        let bytes = index.deleted_bytes().unwrap();
        (0..64).filter(|i| bytes[i / 8] & (1 << (i % 8)) != 0).collect()
    };
    assert_eq!(set, vec![0, 1, 3, 4]);
    let mut hw = HardwareCounterCell::new();
    assert_eq!(index.get_iterator(&s("a"), &mut hw), Vec::<u32>::new());
    assert_eq!(index.get_iterator(&s("b"), &mut hw), vec![2]);
}

#[test]
fn entries_are_put_in_the_order_of_their_key_bytes() {
    let (keys, ids) = order_entries(
        vec![s("b"), s("ab"), s(""), s("a"), s("\u{e9}")],
        vec![vec![1], vec![2], vec![3], vec![4], vec![5]],
    );
    assert_eq!(keys, vec![s(""), s("a"), s("ab"), s("b"), s("\u{e9}")]);
    assert_eq!(ids, vec![vec![3], vec![4], vec![2], vec![1], vec![5]]);
    // integers sort by their flipped bytes: negative before positive
    let (keys, ids) = order_entries(vec![5i64, -1, 0, -7], vec![vec![0], vec![1], vec![2], vec![3]]);
    assert_eq!(keys, vec![-7, -1, 0, 5]);
    assert_eq!(ids, vec![vec![3], vec![1], vec![2], vec![0]]);
    // without a list for every key nothing is changed
    let (keys, ids) = order_entries(vec![2i64, 1], vec![vec![9]]);
    assert_eq!(keys, vec![2, 1]);
    assert_eq!(ids, vec![vec![9]]);
    let (keys, ids) = order_entries::<i64>(vec![], vec![]);
    assert!(keys.is_empty() && ids.is_empty());
    assert!(bytes_less(b"a", b"b"));
    assert!(bytes_less(b"a", b"ab"));
    assert!(bytes_less(b"", b"a"));
    assert!(!bytes_less(b"a", b"a"));
    assert!(!bytes_less(b"b", b"ab"));
    assert!(!bytes_less(b"", b""));
    // the table file does not depend on the order the values came in
    let one = MmapMapIndex::build_files(
        vec![vec![s("a")], vec![s("b")]],
        order_entries(vec![s("b"), s("a")], vec![vec![1], vec![0]]).0,
        order_entries(vec![s("b"), s("a")], vec![vec![1], vec![0]]).1,
    )
    .unwrap();
    let other = MmapMapIndex::build_files(
        vec![vec![s("a")], vec![s("b")]],
        order_entries(vec![s("a"), s("b")], vec![vec![0], vec![1]]).0,
        order_entries(vec![s("a"), s("b")], vec![vec![0], vec![1]]).1,
    )
    .unwrap();
    assert_eq!(one.value_to_points, other.value_to_points);
}
