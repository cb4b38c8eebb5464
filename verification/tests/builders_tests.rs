use field_index::byte_format::push_u32s;
use field_index::byte_format::read_u32s;
use field_index::counter::HardwareCounterCell;
use field_index::hashmap_file::entry_offsets;
use field_index::hashmap_file::TableFile;
use field_index::key_encoding::push_be;
use field_index::key_encoding::read_be;
use field_index::mmap_hashmap::bytes_equal;
use field_index::mmap_hashmap::compute_hash;
use field_index::mmap_hashmap::MapIndexKey;
use field_index::mmap_hashmap::MmapHashMap;
use field_index::numeric_index::compute_effective_threshold;
use field_index::numeric_index::estimate_from_endpoints;
use field_index::numeric_index::make_range;
use field_index::numeric_index::map_range;
use field_index::numeric_index::parse_condition_uuid;
use field_index::numeric_index::range_lower_bound;
use field_index::numeric_index::range_upper_bound;
use field_index::numeric_index::NumericIndexInner;
use field_index::numeric_index_builders::flatten_values;
use field_index::numeric_index_builders::into_inner_values;
use field_index::numeric_index_builders::NumericIndex;
use field_index::numeric_index_builders::NumericIndexBuilder;
use field_index::numeric_index_builders::NumericIndexGridstoreBuilder;
use field_index::numeric_index_builders::NumericIndexImmutableBuilder;
use field_index::point_values_file::read_values;
use field_index::point_values_file::write_values;
use field_index::types::Bound;
use field_index::types::DateTimePayloadType;
use field_index::types::FieldCondition;
use field_index::types::FloatPayloadType;
use field_index::types::Match;
use field_index::types::MatchValue;
use field_index::types::OperationError;
use field_index::types::Range;
use field_index::types::RangeInterface;
use field_index::types::UuidPayloadType;
use field_index::types::ValueVariants;

#[test]
fn gridstore_builder_needs_to_be_started() {
    let mut builder = NumericIndex::<i64, i64>::builder_gridstore();
    let mut hw = HardwareCounterCell::new();
    match builder.add_point(0, &vec![vec![1]], &mut hw) {
        Err(OperationError::ServiceError { description }) => assert_eq!(
            description,
            "NumericIndexGridstoreBuilder: index must be initialized before adding points"
        ),
        _ => panic!("a point was added before the build started"),
    }
    match builder.finalize() {
        Err(OperationError::ServiceError { description }) => assert_eq!(
            description,
            "NumericIndexGridstoreBuilder: index must be initialized to finalize"
        ),
        _ => panic!("a build that never started was finished"),
    }
    let mut builder: NumericIndexGridstoreBuilder<i64, i64> = NumericIndexGridstoreBuilder::new();
    builder.init().unwrap();
    builder.add_point(3, &vec![vec![7, 8], vec![9]], &mut hw).unwrap();
    builder.add_point(4, &vec![vec![8]], &mut hw).unwrap();
    let index = builder.finalize().unwrap();
    assert_eq!(index.inner().point_ids_by_value(8), vec![3, 4]);
    assert_eq!(index.get_values(3), Some(&vec![7, 8, 9]));
    assert!(matches!(index.inner(), NumericIndexInner::Mutable(_)));
}

#[test]
fn mutable_builder_starts_from_an_empty_index() {
    let mut index = NumericIndex::<i64, i64>::new_gridstore().unwrap();
    let mut hw = HardwareCounterCell::new();
    index.add_many(0, vec![1], &mut hw).unwrap();
    let mut builder = NumericIndexBuilder(index);
    builder.init().unwrap();
    assert_eq!(builder.0.inner().total_unique_values_count(), 0);
    builder.add_point(1, &vec![vec![5]], &mut hw).unwrap();
    let index = builder.finalize().unwrap();
    assert_eq!(index.inner().point_ids_by_value(5), vec![1]);
    assert_eq!(index.inner().point_ids_by_value(1), Vec::<u32>::new());
}

#[test]
fn immutable_builder_freezes_what_it_collected() {
    let mut builder: NumericIndexImmutableBuilder<i64, i64> = NumericIndexImmutableBuilder::new();
    let mut hw = HardwareCounterCell::new();
    builder.init().unwrap();
    builder.add_point(0, &vec![vec![3]], &mut hw).unwrap();
    builder.add_point(2, &vec![vec![3, 4]], &mut hw).unwrap();
    let mut index = builder.finalize().unwrap();
    assert!(matches!(index.inner(), NumericIndexInner::Immutable(_)));
    assert_eq!(index.inner().point_ids_by_value(3), vec![0, 2]);
    assert!(index.add_many(5, vec![1], &mut hw).is_err());
    index.mut_inner().remove_point(0).unwrap();
    assert_eq!(index.inner().point_ids_by_value(3), vec![2]);
    assert_eq!(index.load().unwrap(), true);
}

#[test]
fn mmap_builder_charges_and_lays_out_files() {
    let mut builder = NumericIndex::<u128, UuidPayloadType>::builder_mmap(true);
    let mut hw = HardwareCounterCell::new();
    builder.init().unwrap();
    builder
        .add_point(1, &vec![vec![UuidPayloadType::from_u128(9)]], &mut hw)
        .unwrap();
    builder
        .add_point(1, &vec![vec![UuidPayloadType::from_u128(7)]], &mut hw)
        .unwrap();
    assert_eq!(hw.payload_index_io_write, 2 * std::mem::size_of::<Vec<u128>>());
    let index = builder.finalize().unwrap();
    match index.inner() {
        NumericIndexInner::Mmap(mmap) => {
            // one key of sixteen bytes and an id of four
            assert_eq!(mmap.pairs_file().len(), 20);
            assert_eq!(mmap.pairs_file()[15], 7);
            assert_eq!(mmap.pairs_file()[19], 1);
            // point 0 never had values
            assert_eq!(mmap.deleted_bytes()[0], 0b01);
        }
        _ => panic!("the builder did not lay out files"),
    }
    assert_eq!(
        index.inner().files(),
        vec![
            "data.bin",
            "deleted.bin",
            "point_to_values.bin",
            "point_to_values_offsets.bin"
        ]
    );
    assert_eq!(
        index.inner().immutable_files(),
        vec!["data.bin", "point_to_values.bin", "point_to_values_offsets.bin"]
    );
    let mutable = NumericIndex::<i64, i64>::new_gridstore().unwrap();
    assert!(mutable.inner().files().is_empty());
    assert!(mutable.inner().immutable_files().is_empty());
}

#[test]
fn payload_entries_are_flattened_in_order() {
    assert_eq!(flatten_values(&vec![vec![1, 2], vec![], vec![3]]), vec![1, 2, 3]);
    assert_eq!(flatten_values::<i64>(&vec![]), Vec::<i64>::new());
    let inner: Vec<i64> = into_inner_values::<i64, DateTimePayloadType, NumericIndex<i64, DateTimePayloadType>>(
        &vec![
            DateTimePayloadType::from_timestamp_micros(5),
            DateTimePayloadType::from_timestamp_micros(-5),
        ],
    );
    assert_eq!(inner, vec![5, -5]);
}

#[test]
fn range_helpers_follow_the_bounds() {
    let r = Range { lt: Some(4i64), gt: Some(1), gte: Some(2), lte: None };
    assert!(matches!(range_lower_bound(&r), Bound::Included(2)));
    assert!(matches!(range_upper_bound(&r), Bound::Excluded(4)));
    let r = make_range(&Bound::Excluded(3i64), &Bound::Included(8));
    assert_eq!((r.gt, r.gte, r.lt, r.lte), (Some(3), None, None, Some(8)));
    let r = make_range(&Bound::Included(3i64), &Bound::Excluded(8));
    assert_eq!((r.gt, r.gte, r.lt, r.lte), (None, Some(3), Some(8), None));
    let r = make_range::<i64>(&Bound::Unbounded, &Bound::Unbounded);
    assert_eq!((r.gt, r.gte, r.lt, r.lte), (None, None, None, None));
    let dates = Range {
        lt: Some(DateTimePayloadType::from_timestamp_micros(10)),
        gt: None,
        gte: Some(DateTimePayloadType::from_timestamp_micros(-10)),
        lte: None,
    };
    let keys: Range<i64> = map_range(&RangeInterface::DateTime(dates));
    assert_eq!((keys.gt, keys.gte, keys.lt, keys.lte), (None, Some(-10), Some(10), None));
    // a negative timestamp wraps into the 128-bit integers
    let wide: Range<u128> = map_range(&RangeInterface::DateTime(dates));
    assert_eq!(wide.gte, Some(u128::MAX - 9));
    assert_eq!(wide.lt, Some(10));
    assert_eq!(compute_effective_threshold(100, 3000, 1000), 300);
    assert_eq!(compute_effective_threshold(100, 0, 0), 0);
    assert_eq!(compute_effective_threshold(7, 10, 3), 23);
    assert_eq!(compute_effective_threshold(usize::MAX, usize::MAX, 1), usize::MAX);
    assert_eq!(estimate_from_endpoints(None, None), 0);
    assert_eq!(estimate_from_endpoints(Some(4), None), 1);
    assert_eq!(estimate_from_endpoints(Some(4), Some(9)), 5);
    assert_eq!(estimate_from_endpoints(Some(9), Some(4)), 0);
}

#[test]
fn keyword_of_a_condition_is_parsed_as_uuid() {
    let condition = |matcher: Option<Match>| FieldCondition::<i64> {
        key: "k".to_string(),
        matcher,
        range: None,
    };
    let value = |v: ValueVariants| Some(Match::Value(MatchValue { value: v }));
    assert_eq!(
        parse_condition_uuid(&condition(value(ValueVariants::String(
            "00000000-0000-0000-0000-00000000002a".to_string()
        )))),
        Some(42)
    );
    assert_eq!(
        parse_condition_uuid(&condition(value(ValueVariants::String(
            "urn:uuid:00000000-0000-0000-0000-0000000000ff".to_string()
        )))),
        Some(255)
    );
    assert_eq!(
        parse_condition_uuid(&condition(value(ValueVariants::String("42".to_string())))),
        None
    );
    assert_eq!(parse_condition_uuid(&condition(value(ValueVariants::Integer(42)))), None);
    assert_eq!(parse_condition_uuid(&condition(value(ValueVariants::Bool(true)))), None);
    assert_eq!(parse_condition_uuid(&condition(None)), None);
    let copy = condition(value(ValueVariants::Integer(42))).duplicate();
    assert!(matches!(
        copy.matcher,
        Some(Match::Value(MatchValue { value: ValueVariants::Integer(42) }))
    ));
}

#[test]
fn numbers_are_written_most_significant_byte_first() {
    let mut out = vec![9u8];
    push_be(&mut out, 0x0102, 2);
    push_be(&mut out, 0x0a0b0c0d, 4);
    push_be(&mut out, 5, 0);
    assert_eq!(out, vec![9, 1, 2, 0x0a, 0x0b, 0x0c, 0x0d]);
    assert_eq!(read_be(&out, 1, 2), 0x0102);
    assert_eq!(read_be(&out, 3, 4), 0x0a0b0c0d);
    assert_eq!(read_be(&out, 3, 0), 0);
    // the low digits are kept where the number does not fit
    let mut low = Vec::new();
    push_be(&mut low, 0x010203, 2);
    assert_eq!(low, vec![2, 3]);
    let mut run = vec![0xffu8];
    push_u32s(&mut run, &vec![1, 0x01020304]);
    assert_eq!(run, vec![0xff, 0, 0, 0, 1, 1, 2, 3, 4]);
    assert_eq!(read_u32s(&run, 1, 2), vec![1, 0x01020304]);
    assert_eq!(read_u32s(&run, 1, 0), Vec::<u32>::new());
}

#[test]
fn keys_have_stable_bytes() {
    assert_eq!(5i64.write_bytes(), vec![0x80, 0, 0, 0, 0, 0, 0, 5]);
    assert_eq!((-1i64).write_bytes(), vec![0x7f, 0xff, 0xff, 0xff, 0xff, 0xff, 0xff, 0xff]);
    assert_eq!(i64::from_key_bytes(vec![0x80, 0, 0, 0, 0, 0, 0, 5]), Some(5));
    assert_eq!(i64::from_key_bytes(vec![0; 7]), None);
    assert_eq!(1u128.write_bytes().len(), 16);
    assert_eq!(u128::from_key_bytes(1u128.write_bytes()), Some(1));
    assert_eq!(u128::from_key_bytes(vec![0; 8]), None);
    assert_eq!("h\u{e9}".to_string().write_bytes(), vec![b'h', 0xc3, 0xa9]);
    assert_eq!(String::from_key_bytes(vec![b'h', 0xc3, 0xa9]), Some("h\u{e9}".to_string()));
    assert_eq!(String::from_key_bytes(vec![0xc3]), None);
    let half = FloatPayloadType::from_bits(0.5f64.to_bits());
    assert_eq!(half.write_bytes(), 0.5f64.to_bits().to_be_bytes().to_vec());
    assert_eq!(FloatPayloadType::from_key_bytes(half.write_bytes()), Some(half));
    assert!(5i64.matches(&5) && !5i64.matches(&6));
    assert!("a".to_string().matches(&"a".to_string()));
    assert!(!"a".to_string().matches(&"ab".to_string()));
    assert!(half.matches(&half));
    assert_eq!(i64::key_width(), Some(8));
    assert_eq!(u128::key_width(), Some(16));
    assert_eq!(FloatPayloadType::key_width(), Some(8));
    assert_eq!(String::key_width(), None);
    assert!(bytes_equal(&[1, 2], &[1, 2]));
    assert!(!bytes_equal(&[1, 2], &[1, 3]));
    assert!(!bytes_equal(&[1, 2], &[1]));
}

#[test]
fn hash_mixes_every_byte_with_the_seed() {
    // FNV-1a over the bytes, started from the seed
    let fnv = |seed: u64, bytes: &[u8]| {
        let mut h = seed ^ 0xcbf2_9ce4_8422_2325;
        for b in bytes {
            h = (h ^ *b as u64).wrapping_mul(0x0000_0100_0000_01b3);
        }
        h
    };
    for bytes in [&b""[..], &b"a"[..], &b"ab"[..], &[0u8, 255, 7][..]] {
        assert_eq!(compute_hash(0, bytes), fnv(0, bytes));
        assert_eq!(compute_hash(0x5eed, bytes), fnv(0x5eed, bytes));
    }
    assert_eq!(compute_hash(0, b""), 0xcbf2_9ce4_8422_2325);
    assert_eq!(compute_hash(0, b"a"), 0xaf63_dc4c_8601_ec8c);
}

#[test]
fn table_finds_what_it_holds() {
    let table = MmapHashMap::create(
        vec!["x".to_string(), "y".to_string(), "".to_string()],
        vec![vec![1, 2], vec![], vec![3]],
    )
    .unwrap();
    assert_eq!(table.keys_count(), 3);
    assert_eq!(table.buckets_count(), 7);
    assert_eq!(table.hash_seed(), 0x5eed_5eed_5eed_5eed);
    assert_eq!(table.get(&"x".to_string()), Some(&vec![1, 2]));
    assert_eq!(table.get(&"y".to_string()), Some(&vec![]));
    assert_eq!(table.get(&"".to_string()), Some(&vec![3]));
    assert_eq!(table.get(&"z".to_string()), None);
    let held: Vec<usize> = (0..7)
        .map(|b| table.bucket(b))
        .filter(|e| *e != usize::MAX)
        .collect();
    let mut sorted = held.clone();
    sorted.sort();
    assert_eq!(sorted, vec![0, 1, 2]);
    let empty = MmapHashMap::<i64>::create(vec![], vec![]).unwrap();
    assert_eq!(empty.buckets_count(), 1);
    assert_eq!(empty.get(&0), None);
    assert_eq!(empty.to_bytes().unwrap().len(), 24 + 8);
}

#[test]
fn table_file_contents_are_read_as_written() {
    let file = TableFile {
        keys: vec![vec![1, 2], vec![]],
        ids: vec![vec![7], vec![8, 9]],
        buckets: vec![u64::MAX, 0, 10],
        seed: 3,
    };
    let bytes = file.write().unwrap();
    assert_eq!(bytes.len(), 24 + 3 * 8 + (4 + 2 + 4 + 4) + (4 + 0 + 4 + 8));
    let back = TableFile::read(&bytes).unwrap();
    assert_eq!(back.keys, file.keys);
    assert_eq!(back.ids, file.ids);
    assert_eq!(back.buckets, file.buckets);
    assert_eq!(back.seed, 3);
    assert!(TableFile::read(&bytes[..bytes.len() - 1]).is_none());
    let uneven = TableFile { keys: vec![vec![1]], ids: vec![], buckets: vec![], seed: 0 };
    assert!(uneven.write().is_none());
    assert_eq!(
        entry_offsets(&file.keys, &file.ids),
        Some(vec![0, 14, 30])
    );
}

#[test]
fn point_values_are_read_as_written() {
    let lists = vec![vec![vec![1u8, 2], vec![3, 4]], vec![], vec![vec![5, 6]]];
    let (offsets, region) = write_values(Some(2), &lists).unwrap();
    assert_eq!(region, vec![1, 2, 3, 4, 5, 6]);
    assert_eq!(read_values(Some(2), &offsets, &region), Some(lists.clone()));
    // a value of another width does not fit
    assert!(write_values(Some(3), &lists).is_none());
    let (offsets, region) = write_values(None, &lists).unwrap();
    assert_eq!(region.len(), 3 * 4 + 6);
    assert_eq!(read_values(None, &offsets, &region), Some(lists));
    assert_eq!(read_values(Some(2), &offsets, &region), None);
}
