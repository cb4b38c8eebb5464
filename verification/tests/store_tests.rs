use field_index::encodable::datetime_or_epoch;
use field_index::encodable::decode_datetime;
use field_index::encodable::Encodable;
use field_index::histogram::point_end;
use field_index::histogram::point_start;
use field_index::histogram::Histogram;
use field_index::immutable_numeric_index::ImmutableNumericIndex;
use field_index::in_memory_numeric_index::InMemoryNumericIndex;
use field_index::mmap_numeric_index::check_sorted;
use field_index::mmap_numeric_index::encode_points;
use field_index::mmap_numeric_index::longest_of;
use field_index::mmap_numeric_index::MmapNumericIndex;
use field_index::mutable_numeric_index::MutableNumericIndex;
use field_index::point_to_values::MmapPointToValues;
use field_index::pairing::check_tied;
use field_index::sorted_points::check_boundaries;
use field_index::sorted_points::same_place;
use field_index::sorted_points::insert_sorted;
use field_index::sorted_points::partition_index;
use field_index::sorted_points::point_lt;
use field_index::sorted_points::range_indices;
use field_index::sorted_points::remove_point_entries;
use field_index::types::Bound;
use field_index::types::DateTimePayloadType;
use field_index::types::FloatPayloadType;
use field_index::types::KeyOrdering;
use field_index::types::OperationError;
use field_index::types::Point;
use field_index::types::Range;

fn p(val: i64, idx: u32) -> Point<i64> {
    Point::new(val, idx)
}

fn pairs(points: &[Point<i64>]) -> Vec<(i64, u32)> {
    points.iter().map(|p| (p.val, p.idx)).collect()
}

fn sorted(points: &[(i64, u32)]) -> Vec<Point<i64>> {
    let mut v = Vec::new();
    for (val, idx) in points {
        insert_sorted(&mut v, p(*val, *idx));
    }
    v
}

#[test]
fn points_are_kept_in_order_without_repeats() {
    let mut points = Vec::new();
    assert!(insert_sorted(&mut points, p(5, 1)));
    assert!(insert_sorted(&mut points, p(3, 9)));
    assert!(insert_sorted(&mut points, p(5, 0)));
    assert!(!insert_sorted(&mut points, p(5, 1)));
    assert!(insert_sorted(&mut points, p(-7, 2)));
    assert_eq!(pairs(&points), vec![(-7, 2), (3, 9), (5, 0), (5, 1)]);
    remove_point_entries(&mut points, 9);
    remove_point_entries(&mut points, 44);
    assert_eq!(pairs(&points), vec![(-7, 2), (5, 0), (5, 1)]);
    assert!(point_lt(&p(1, 5), &p(2, 0)));
    assert!(point_lt(&p(1, 5), &p(1, 6)));
    assert!(!point_lt(&p(1, 5), &p(1, 5)));
    assert!(!point_lt(&p(2, 0), &p(1, 5)));
}

#[test]
fn window_of_a_range_in_sorted_points() {
    let points = sorted(&[(1, 0), (2, 0), (2, 5), (3, 1), (7, 2)]);
    assert_eq!(partition_index(&points, &p(2, 0), false), 1);
    assert_eq!(partition_index(&points, &p(2, 0), true), 2);
    assert_eq!(partition_index(&points, &p(9, 0), false), 5);
    assert_eq!(partition_index(&points, &p(0, 0), true), 0);
    let all = (Bound::Unbounded, Bound::Unbounded);
    assert_eq!(range_indices(&points, &all.0, &all.1), (0, 5));
    assert_eq!(
        range_indices(&points, &Bound::Included(p(2, 0)), &Bound::Excluded(p(3, 1))),
        (1, 3)
    );
    assert_eq!(
        range_indices(&points, &Bound::Excluded(p(2, 0)), &Bound::Included(p(3, 1))),
        (2, 4)
    );
    // a range that cannot hold anything is an empty window
    let (lo, hi) = range_indices(&points, &Bound::Included(p(7, 0)), &Bound::Included(p(2, 0)));
    assert_eq!(lo, hi);
    assert!(check_sorted(&points));
    assert!(!check_sorted(&vec![p(2, 0), p(1, 0)]));
    assert!(!check_sorted(&vec![p(1, 0), p(1, 0)]));
}

#[test]
fn bounds_that_can_hold_something() {
    let at = |v: i64| p(v, 0);
    assert!(check_boundaries(&Bound::Included(at(1)), &Bound::Included(at(1))));
    assert!(check_boundaries(&Bound::Included(at(1)), &Bound::Excluded(at(1))));
    assert!(check_boundaries(&Bound::Excluded(at(1)), &Bound::Included(at(1))));
    assert!(!check_boundaries(&Bound::Excluded(at(1)), &Bound::Excluded(at(1))));
    assert!(check_boundaries(&Bound::Excluded(at(1)), &Bound::Excluded(at(2))));
    assert!(!check_boundaries(&Bound::Included(at(2)), &Bound::Included(at(1))));
    assert!(!check_boundaries(&Bound::Excluded(at(2)), &Bound::Included(at(1))));
    assert!(check_boundaries(&Bound::Unbounded, &Bound::Included(at(1))));
    assert!(check_boundaries(&Bound::Included(at(9)), &Bound::Unbounded));
    assert!(check_boundaries::<i64>(&Bound::Unbounded, &Bound::Unbounded));
}

#[test]
fn range_as_point_bounds() {
    let r: Range<i64> = Range { lt: Some(9), gt: Some(1), gte: None, lte: None };
    let (start, end) = r.as_index_key_bounds();
    assert!(matches!(start, Bound::Excluded(b) if b.val == 1 && b.idx == u32::MAX));
    assert!(matches!(end, Bound::Excluded(b) if b.val == 9 && b.idx == 0));
    let r: Range<i64> = Range { lt: Some(9), gt: Some(1), gte: Some(2), lte: Some(8) };
    let (start, end) = r.as_index_key_bounds();
    assert!(matches!(start, Bound::Included(b) if b.val == 2 && b.idx == 0));
    assert!(matches!(end, Bound::Included(b) if b.val == 8 && b.idx == u32::MAX));
    let r: Range<i64> = Range { lt: None, gt: None, gte: None, lte: None };
    let (start, end) = r.as_index_key_bounds();
    assert!(matches!(start, Bound::Unbounded));
    assert!(matches!(end, Bound::Unbounded));
    assert!(matches!(point_start(&Bound::Included(3i64)), Bound::Included(b) if b.idx == 0));
    assert!(matches!(point_end(&Bound::Excluded(3i64)), Bound::Excluded(b) if b.idx == 0));
}

#[test]
fn histogram_counts_values_between_bounds() {
    let mut histogram: Histogram<i64> = Histogram::new();
    assert_eq!(histogram.get_total_count(), 0);
    assert_eq!(histogram.current_bucket_size(), 0);
    for (val, idx) in [(10, 0), (20, 1), (20, 2), (30, 3), (40, 4)] {
        histogram.insert(p(val, idx));
    }
    histogram.insert(p(20, 1));
    assert_eq!(histogram.get_total_count(), 5);
    assert_eq!(histogram.current_bucket_size(), 1);
    assert_eq!(histogram.estimate(Bound::Unbounded, Bound::Unbounded), (5, 5, 5));
    assert_eq!(
        histogram.estimate(Bound::Included(20), Bound::Included(30)),
        (3, 3, 3)
    );
    assert_eq!(
        histogram.estimate(Bound::Excluded(20), Bound::Excluded(40)),
        (1, 1, 1)
    );
    assert_eq!(
        histogram.estimate(Bound::Included(35), Bound::Included(15)),
        (0, 0, 0)
    );
    histogram.remove_point(2);
    assert_eq!(
        histogram.estimate(Bound::Included(20), Bound::Included(20)),
        (1, 1, 1)
    );
    let from_sorted = Histogram::from_sorted(sorted(&[(1, 1), (2, 2)]));
    assert_eq!(from_sorted.get_total_count(), 2);
}

#[test]
fn histogram_finds_the_bound_for_a_size() {
    let mut histogram: Histogram<i64> = Histogram::new();
    for (val, idx) in [(10, 0), (20, 1), (20, 2), (30, 3), (40, 4)] {
        histogram.insert(p(val, idx));
    }
    let bound = |b: Bound<i64>| match b {
        Bound::Included(v) => Some(v),
        Bound::Excluded(_) => panic!("an exclusive bound"),
        Bound::Unbounded => None,
    };
    assert_eq!(bound(histogram.get_range_by_size(Bound::Unbounded, 1)), Some(10));
    assert_eq!(bound(histogram.get_range_by_size(Bound::Unbounded, 2)), Some(20));
    assert_eq!(bound(histogram.get_range_by_size(Bound::Unbounded, 3)), Some(20));
    assert_eq!(bound(histogram.get_range_by_size(Bound::Unbounded, 5)), Some(40));
    assert_eq!(bound(histogram.get_range_by_size(Bound::Unbounded, 6)), None);
    assert_eq!(bound(histogram.get_range_by_size(Bound::Excluded(20), 1)), Some(30));
    assert_eq!(bound(histogram.get_range_by_size(Bound::Included(20), 1)), Some(20));
    assert_eq!(bound(histogram.get_range_by_size(Bound::Excluded(40), 1)), None);
    // a size of zero is served as one
    assert_eq!(bound(histogram.get_range_by_size(Bound::Excluded(10), 0)), Some(20));
}

#[test]
fn in_memory_store_follows_its_points() {
    let mut index: InMemoryNumericIndex<i64> = InMemoryNumericIndex::new();
    index.add_many_to_list(2, vec![5, 5, 6]);
    index.add_many_to_list(0, vec![6]);
    index.add_many_to_list(7, vec![]);
    assert_eq!(index.get_points_count(), 2);
    assert_eq!(index.total_unique_values_count(), 3);
    assert_eq!(index.get_max_values_per_point(), 3);
    assert_eq!(index.get_values(2), Some(&vec![5, 5, 6]));
    assert_eq!(index.get_values(1), Some(&vec![]));
    assert_eq!(index.get_values(3), None);
    assert_eq!(index.values_count(0), Some(1));
    assert_eq!(index.values_count(9), None);
    assert_eq!(
        index.values_range(Bound::Unbounded, Bound::Unbounded),
        vec![2, 0, 2]
    );
    assert_eq!(
        index.orderable_values_range(Bound::Included(p(6, 0)), Bound::Unbounded),
        vec![(6, 0), (6, 2)]
    );
    assert_eq!(index.values_range_size(Bound::Unbounded, Bound::Excluded(p(6, 0))), 1);
    assert_eq!(
        index.range_endpoints(Bound::Included(p(6, 0)), Bound::Included(p(6, u32::MAX))),
        (Some(0), Some(2))
    );
    assert_eq!(
        index.range_endpoints(Bound::Included(p(5, 0)), Bound::Included(p(5, u32::MAX))),
        (Some(2), None)
    );
    assert_eq!(index.get_histogram().get_total_count(), 3);
    // new values take the place of old ones
    index.add_many_to_list(2, vec![9]);
    assert_eq!(index.values_range(Bound::Unbounded, Bound::Unbounded), vec![0, 2]);
    assert_eq!(index.get_histogram().get_total_count(), 2);
    index.remove_point(0);
    index.remove_point(0);
    index.remove_point(55);
    assert_eq!(index.get_points_count(), 1);
    assert_eq!(index.values_range(Bound::Unbounded, Bound::Unbounded), vec![2]);
    assert_eq!(index.get_max_values_per_point(), 3);
    assert!(index.check_values_any(2, |v| *v == 9));
    assert!(!index.check_values_any(0, |_| true));
    assert_eq!(pairs(index.sorted_points()), vec![(9, 2)]);
    assert_eq!(index.value_lists().len(), 3);
}

#[test]
fn keys_file_is_the_keys_in_order() {
    let points = sorted(&[(2, 7), (-1, 3)]);
    let bytes = encode_points(&points);
    let mut expected = (-1i64).encode_key(3);
    expected.extend(2i64.encode_key(7));
    assert_eq!(bytes, expected);
    assert_eq!(bytes.len(), 24);
    assert_eq!(longest_of(&vec![vec![1, 2], vec![], vec![3, 4, 5]]), 3);
    assert_eq!(longest_of::<i64>(&vec![]), 0);
}

#[test]
fn store_over_files_refuses_damaged_keys() {
    let lists = || MmapPointToValues::from_lists(vec![vec![1i64], vec![2]]);
    let mut keys = 1i64.encode_key(0);
    keys.extend(2i64.encode_key(1));
    assert!(MmapNumericIndex::<i64>::open(keys.clone(), vec![0; 8], lists(), true).is_ok());
    // not a whole number of keys
    match MmapNumericIndex::<i64>::open(keys[..23].to_vec(), vec![0; 8], lists(), true) {
        Err(OperationError::Corruption { description }) => {
            assert_eq!(description, "key file is not a whole number of keys")
        }
        _ => panic!("a cut key file was opened"),
    }
    // keys out of order
    let mut swapped = 2i64.encode_key(1);
    swapped.extend(1i64.encode_key(0));
    match MmapNumericIndex::<i64>::open(swapped, vec![0; 8], lists(), true) {
        Err(OperationError::Corruption { description }) => {
            assert_eq!(description, "keys are not strictly ascending")
        }
        _ => panic!("keys out of order were opened"),
    }
    // a key whose point does not carry its value, or a value without its key
    match MmapNumericIndex::<i64>::open(
        keys.clone(),
        vec![0; 8],
        MmapPointToValues::from_lists(vec![vec![1i64], vec![3]]),
        true,
    ) {
        Err(OperationError::Corruption { description }) => {
            assert_eq!(description, "keys and point values do not agree")
        }
        _ => panic!("keys and values that disagree were opened"),
    }
    assert!(MmapNumericIndex::<i64>::open(
        keys.clone(),
        vec![0; 8],
        MmapPointToValues::from_lists(vec![vec![1i64]]),
        true
    )
    .is_err());
    assert!(MmapNumericIndex::<i64>::open(
        keys.clone(),
        vec![0; 8],
        MmapPointToValues::from_lists(vec![vec![1i64], vec![2, 9]]),
        true
    )
    .is_err());
    // a value held twice has one key
    assert!(MmapNumericIndex::<i64>::open(
        keys.clone(),
        vec![0; 8],
        MmapPointToValues::from_lists(vec![vec![1i64, 1], vec![2], vec![]]),
        true
    )
    .is_ok());
    // the same key twice
    let mut twice = 1i64.encode_key(0);
    twice.extend(1i64.encode_key(0));
    assert!(MmapNumericIndex::<i64>::open(twice, vec![0; 8], lists(), true).is_err());
}

#[test]
fn store_over_files_hides_tombstoned_points() {
    let mut memory: InMemoryNumericIndex<i64> = InMemoryNumericIndex::new();
    memory.add_many_to_list(0, vec![10, 30]);
    memory.add_many_to_list(1, vec![20]);
    memory.add_many_to_list(3, vec![20]);
    let mut index = MmapNumericIndex::build(memory, true).unwrap();
    assert!(index.is_on_disk());
    // point 2 has no values and is tombstoned at once
    assert_eq!(index.deleted_bytes(), &vec![0b0100, 0, 0, 0, 0, 0, 0, 0]);
    assert_eq!(index.get_points_count(), 3);
    assert_eq!(index.total_unique_values_count(), 4);
    assert_eq!(index.get_max_values_per_point(), 2);
    assert_eq!(index.values_range(Bound::Unbounded, Bound::Unbounded), vec![0, 1, 3, 0]);
    assert_eq!(index.get_values(2), None);
    assert_eq!(index.get_values(0), Some(&vec![10, 30]));
    index.remove_point(1);
    index.remove_point(1);
    index.remove_point(64);
    assert_eq!(index.values_range(Bound::Unbounded, Bound::Unbounded), vec![0, 3, 0]);
    assert_eq!(
        index.orderable_values_range(Bound::Included(p(20, 0)), Bound::Unbounded),
        vec![(20, 3), (30, 0)]
    );
    assert_eq!(index.values_range_size(Bound::Unbounded, Bound::Included(p(20, u32::MAX))), 2);
    assert_eq!(index.get_points_count(), 2);
    // the stored pairs stay, the histogram follows the live ones
    assert_eq!(index.total_unique_values_count(), 4);
    assert_eq!(index.get_histogram().get_total_count(), 3);
    assert_eq!(index.get_values(1), None);
    assert_eq!(index.values_count(1), None);
    assert_eq!(index.values_count(3), Some(1));
    assert!(!index.check_values_any(1, |_| true));
    assert!(index.check_values_any(3, |v| *v == 20));
    assert_eq!(pairs(&index.live_points_vec()), vec![(10, 0), (20, 3), (30, 0)]);
    assert_eq!(
        index.live_value_lists(),
        vec![vec![10, 30], vec![], vec![], vec![20]]
    );
    // the tombstone reaches the file when flushed
    assert_eq!(index.deleted_bytes()[0], 0b0100);
    index.flusher();
    assert_eq!(index.deleted_bytes()[0], 0b0110);
    assert_eq!(index.pairs_file().len(), 4 * 12);
}

#[test]
fn store_loaded_from_files_answers_from_memory() {
    let mut memory: InMemoryNumericIndex<i64> = InMemoryNumericIndex::new();
    memory.add_many_to_list(0, vec![10]);
    memory.add_many_to_list(1, vec![20]);
    let mut files = MmapNumericIndex::build(memory, false).unwrap();
    files.remove_point(0);
    let mut loaded = ImmutableNumericIndex::open_mmap(files);
    assert_eq!(loaded.map().values_range(Bound::Unbounded, Bound::Unbounded), vec![1]);
    assert_eq!(loaded.map().get_values(0), Some(&vec![]));
    assert_eq!(loaded.map().get_points_count(), 1);
    loaded.remove_point(1).unwrap();
    assert_eq!(loaded.map().values_range(Bound::Unbounded, Bound::Unbounded), Vec::<u32>::new());
    assert_eq!(loaded.mmap().values_range(Bound::Unbounded, Bound::Unbounded), Vec::<u32>::new());
    loaded.flusher();
    assert_eq!(loaded.mmap().deleted_bytes()[0], 0b11);
}

#[test]
fn mutable_store_charges_what_it_writes() {
    let mut index: MutableNumericIndex<i64> = MutableNumericIndex::new();
    let mut hw = field_index::counter::HardwareCounterCell::new();
    index.add_many_to_list(4, vec![1, 2], &mut hw).unwrap();
    assert_eq!(hw.payload_index_io_write, std::mem::size_of::<Vec<i64>>());
    assert_eq!(hw.payload_index_io_read, 0);
    assert_eq!(index.map().get_values(4), Some(&vec![1, 2]));
    index.remove_point(4).unwrap();
    assert_eq!(index.map().get_points_count(), 0);
    index.add_many_to_list(1, vec![3], &mut hw).unwrap();
    index.clear().unwrap();
    assert_eq!(index.map().total_unique_values_count(), 0);
    assert_eq!(index.map().get_max_values_per_point(), 0);
    let memory = index.into_in_memory_index();
    assert_eq!(memory.get_values(1), None);
}

#[test]
fn datetime_key_is_its_timestamp() {
    let at = DateTimePayloadType::from_timestamp_micros(1_700_000_000_123_456);
    assert_eq!(at.timestamp(), 1_700_000_000_123_456);
    assert_eq!(at.encode_key(3), 1_700_000_000_123_456i64.encode_key(3));
    assert_eq!(<DateTimePayloadType as Encodable>::value_len(), 8);
    let earlier = DateTimePayloadType::from_timestamp_micros(-1);
    assert_eq!(earlier.cmp_encoded(&at), KeyOrdering::Less);
    assert_eq!(at.cmp_encoded(&at), KeyOrdering::Equal);
    assert_eq!(at.cmp_encoded(&earlier), KeyOrdering::Greater);
}

#[test]
fn datetime_decoding_reads_thousandths_of_seconds() {
    // 1234 thousandths are one second and 234 million nanoseconds
    assert_eq!(decode_datetime(1_234).timestamp(), 1_234_000);
    assert_eq!(decode_datetime(0).timestamp(), 0);
    assert_eq!(decode_datetime(5_000).timestamp(), 5_000_000);
    // whole negative seconds decode, others fall back to the epoch
    assert_eq!(decode_datetime(-2_000).timestamp(), -2_000_000);
    assert_eq!(decode_datetime(-1).timestamp(), 0);
    assert_eq!(decode_datetime(-1_999).timestamp(), 0);
    // out of the range of dates: the epoch
    assert_eq!(decode_datetime(i64::MAX).timestamp(), 0);
    assert_eq!(decode_datetime(i64::MIN).timestamp(), 0);
    assert_eq!(datetime_or_epoch(Some(-7)).timestamp(), -7);
    assert_eq!(datetime_or_epoch(None).timestamp(), 0);
    let (id, value) = <DateTimePayloadType as Encodable>::decode_key(&7_001i64.encode_key(9));
    assert_eq!(id, 9);
    assert_eq!(value.timestamp(), 7_001_000);
}

#[test]
fn float_is_not_a_number_by_its_bits() {
    for bits in [0x7ff8_0000_0000_0000u64, 0xfff0_0000_0000_0001, 0x7ff0_0000_0000_0001, u64::MAX] {
        assert!(FloatPayloadType::from_bits(bits).is_nan());
        assert!(f64::from_bits(bits).is_nan());
    }
    for bits in [0u64, 0x7ff0_0000_0000_0000, 0xfff0_0000_0000_0000, 0x8000_0000_0000_0000, 1] {
        assert!(!FloatPayloadType::from_bits(bits).is_nan());
        assert!(!f64::from_bits(bits).is_nan());
    }
}

#[test]
fn pairs_and_lists_agree_or_not() {
    let points = sorted(&[(1, 0), (2, 0), (2, 1)]);
    assert!(check_tied(&points, &vec![vec![2, 1], vec![2]]));
    assert!(check_tied(&points, &vec![vec![1, 2, 2], vec![2], vec![]]));
    assert!(!check_tied(&points, &vec![vec![1], vec![2]]));
    assert!(!check_tied(&points, &vec![vec![1, 2], vec![2, 3]]));
    assert!(!check_tied(&points, &vec![vec![1, 2]]));
    assert!(check_tied(&Vec::<Point<i64>>::new(), &vec![vec![], vec![]]));
    assert!(!check_tied(&Vec::<Point<i64>>::new(), &vec![vec![1]]));
    assert!(same_place(&3i64, &3));
    assert!(!same_place(&3i64, &4));
    let nan = FloatPayloadType::from_bits(f64::NAN.to_bits());
    let other = FloatPayloadType::from_bits(0xfff8_0000_0000_0001);
    assert!(same_place(&nan, &other));
}

#[test]
fn timestamps_of_the_common_years_decode_as_they_are() {
    assert_eq!(decode_datetime(253_402_300_799_999).timestamp(), 253_402_300_799_999_000);
    assert_eq!(decode_datetime(253_402_300_799_000).timestamp(), 253_402_300_799_000_000);
    assert_eq!(decode_datetime(-62_135_596_800_000).timestamp(), -62_135_596_800_000_000);
    assert_eq!(decode_datetime(-1_000).timestamp(), -1_000_000);
    assert_eq!(decode_datetime(86_399_999).timestamp(), 86_399_999_000);
    assert_eq!(decode_datetime(-62_135_596_800_001).timestamp(), 0);
}
