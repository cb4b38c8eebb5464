use field_index::counter::HardwareCounterCell;
use field_index::encodable::Numericable;
use field_index::numeric_index::numeric_index_storage_cf_name;
use field_index::numeric_index::cardinality_from_estimates;
use field_index::numeric_index::estimate_from_range_size;
use field_index::numeric_index::NumericIndexInner;
use field_index::numeric_index::StreamRange;
use field_index::numeric_index_builders::NumericIndex;
use field_index::numeric_index_builders::NumericIndexIntoInnerValue;
use field_index::types::Bound;
use field_index::types::CardinalityEstimation;
use field_index::types::DateTimePayloadType;
use field_index::types::FieldCondition;
use field_index::types::FloatPayloadType;
use field_index::types::IndexMutability;
use field_index::types::Match;
use field_index::types::MatchValue;
use field_index::types::OperationError;
use field_index::types::Point;
use field_index::types::PrimaryCondition;
use field_index::types::Range;
use field_index::types::RangeInterface;
use field_index::types::StorageType;
use field_index::types::UuidPayloadType;
use field_index::types::ValueVariants;

fn float(v: f64) -> FloatPayloadType {
    FloatPayloadType::from_bits(v.to_bits())
}

/// Expected number of distinct points among `expected` values drawn from
/// `values` values spread over `points` points.
fn estimator(points: usize, values: usize, expected: usize) -> usize {
    if points == 0 || values == 0 {
        return 0;
    }
    let values_per_point = values as f64 / points as f64;
    let prob_select = expected as f64 / values as f64;
    let prob_not_select_all = (1.0 - prob_select).powf(values_per_point);
    (points as f64 * (1.0 - prob_not_select_all)).round() as usize
}

fn range<T>(gt: Option<T>, gte: Option<T>, lt: Option<T>, lte: Option<T>) -> Range<T> {
    Range { lt, gt, gte, lte }
}

fn range_condition<T: Copy>(r: Range<T>) -> FieldCondition<T> {
    FieldCondition::new_range("field".to_string(), r)
}

fn keyword_condition<T>(keyword: &str) -> FieldCondition<T> {
    FieldCondition {
        key: "field".to_string(),
        matcher: Some(Match::Value(MatchValue {
            value: ValueVariants::String(keyword.to_string()),
        })),
        range: None,
    }
}

fn mutable_int(points: &[(u32, Vec<i64>)]) -> NumericIndex<i64, i64> {
    let mut index = NumericIndex::<i64, i64>::new_gridstore().unwrap();
    let mut hw = HardwareCounterCell::new();
    for (id, values) in points {
        index.add_many(*id, values.clone(), &mut hw).unwrap();
    }
    index
}

fn mmap_int(points: &[(u32, Vec<i64>)], on_disk: bool) -> NumericIndex<i64, i64> {
    let mut builder = NumericIndex::<i64, i64>::builder_mmap(on_disk);
    builder.init().unwrap();
    let mut hw = HardwareCounterCell::new();
    for (id, values) in points {
        builder.add_point(*id, &vec![values.clone()], &mut hw).unwrap();
    }
    builder.finalize().unwrap()
}

fn three_stores(points: &[(u32, Vec<i64>)]) -> Vec<NumericIndex<i64, i64>> {
    let on_disk = mmap_int(points, true);
    let pairs = match on_disk.inner() {
        NumericIndexInner::Mmap(mmap) => mmap.pairs_file().clone(),
        _ => unreachable!(),
    };
    let deleted = match on_disk.inner() {
        NumericIndexInner::Mmap(mmap) => mmap.deleted_bytes().clone(),
        _ => unreachable!(),
    };
    let lists = match on_disk.inner() {
        NumericIndexInner::Mmap(mmap) => mmap.point_to_values().as_lists().clone(),
        _ => unreachable!(),
    };
    let in_ram = NumericIndex::<i64, i64>::new_mmap(
        pairs,
        deleted,
        field_index::point_to_values::MmapPointToValues::from_lists(lists),
        false,
    )
    .unwrap();
    assert!(matches!(in_ram.inner(), NumericIndexInner::Immutable(_)));
    vec![mutable_int(points), in_ram, on_disk]
}

#[test]
fn range_filter_selects_inclusive_bounds() {
    let points = vec![(0, vec![1]), (1, vec![2]), (2, vec![3])];
    for index in three_stores(&points) {
        let condition = range_condition(range(None, Some(2), None, Some(3)));
        assert_eq!(index.inner().filter(&condition), Some(vec![1, 2]));
    }
}

#[test]
fn range_filter_honours_exclusive_bounds() {
    let points = vec![(0, vec![1]), (1, vec![2]), (2, vec![3]), (3, vec![2])];
    for index in three_stores(&points) {
        let inner = index.inner();
        assert_eq!(
            inner.filter(&range_condition(range(Some(1), None, Some(3), None))),
            Some(vec![1, 3])
        );
        assert_eq!(
            inner.filter(&range_condition(range(Some(2), None, None, None))),
            Some(vec![2])
        );
        assert_eq!(
            inner.filter(&range_condition(range(None, None, Some(2), None))),
            Some(vec![0])
        );
        assert_eq!(
            inner.filter(&range_condition(range(None, None, None, None))),
            Some(vec![0, 1, 3, 2])
        );
    }
}

#[test]
fn inclusive_bound_takes_precedence() {
    let points = vec![(0, vec![1]), (1, vec![2]), (2, vec![3])];
    for index in three_stores(&points) {
        // gte wins over gt, lte wins over lt
        let condition = range_condition(range(Some(2), Some(2), Some(3), Some(3)));
        assert_eq!(index.inner().filter(&condition), Some(vec![1, 2]));
    }
}

#[test]
fn invalid_range_selects_nothing() {
    let points = vec![(0, vec![1]), (1, vec![2]), (2, vec![3])];
    for index in three_stores(&points) {
        let inner = index.inner();
        assert_eq!(
            inner.filter(&range_condition(range(None, Some(3), None, Some(1)))),
            Some(vec![])
        );
        assert_eq!(
            inner.filter(&range_condition(range(Some(2), None, Some(2), None))),
            Some(vec![])
        );
        assert_eq!(
            inner.stream_range(&RangeInterface::Numeric(range(Some(2), None, Some(2), None))),
            vec![]
        );
    }
}

#[test]
fn filter_without_range_or_uuid_is_none() {
    let index = mutable_int(&[(0, vec![1])]);
    let condition: FieldCondition<i64> = FieldCondition {
        key: "field".to_string(),
        matcher: None,
        range: None,
    };
    assert_eq!(index.inner().filter(&condition), None);
    assert_eq!(index.inner().filter(&keyword_condition("not a uuid")), None);
    let text: FieldCondition<i64> = FieldCondition {
        key: "field".to_string(),
        matcher: Some(Match::Text { text: "a1a2a3a4-b1b2-c1c2-d1d2-d3d4d5d6d7d8".to_string() }),
        range: None,
    };
    assert_eq!(index.inner().filter(&text), None);
}

#[test]
fn uuid_keyword_is_looked_up_as_integer() {
    let a = 0xa1a2a3a4_b1b2_c1c2_d1d2_d3d4d5d6d7d8u128;
    let b = 0x550e8400_e29b_41d4_a716_446655440000u128;
    let mut index = NumericIndex::<u128, UuidPayloadType>::new_gridstore().unwrap();
    let mut hw = HardwareCounterCell::new();
    index.add_many(0, vec![UuidPayloadType::from_u128(a)], &mut hw).unwrap();
    index.add_many(1, vec![UuidPayloadType::from_u128(b)], &mut hw).unwrap();
    index.add_many(5, vec![UuidPayloadType::from_u128(a)], &mut hw).unwrap();
    let inner = index.inner();
    assert_eq!(
        inner.filter(&keyword_condition("a1a2a3a4-b1b2-c1c2-d1d2-d3d4d5d6d7d8")),
        Some(vec![0, 5])
    );
    assert_eq!(
        inner.filter(&keyword_condition("550e8400e29b41d4a716446655440000")),
        Some(vec![1])
    );
    assert_eq!(
        inner.filter(&keyword_condition("00000000-0000-0000-0000-000000000001")),
        Some(vec![])
    );
    assert_eq!(inner.filter_parsed(Some(b), &None), Some(vec![1]));
}

#[test]
fn uuid_wins_over_range() {
    let index = mutable_int(&[(0, vec![1]), (1, vec![2])]);
    let range = Some(RangeInterface::Numeric(range(None, Some(1), None, None)));
    assert_eq!(index.inner().filter_parsed(Some(2), &range), Some(vec![1]));
    assert_eq!(index.inner().filter_parsed(None, &range), Some(vec![0, 1]));
}

#[test]
fn point_ids_by_value_are_the_carriers() {
    let points = vec![(0, vec![5, 7]), (1, vec![5]), (2, vec![6]), (9, vec![5])];
    for index in three_stores(&points) {
        assert_eq!(index.inner().point_ids_by_value(5), vec![0, 1, 9]);
        assert_eq!(index.inner().point_ids_by_value(6), vec![2]);
        assert_eq!(index.inner().point_ids_by_value(8), Vec::<u32>::new());
        let start = Bound::Included(Point::new(5, u32::MIN));
        let end = Bound::Included(Point::new(5, u32::MAX));
        assert_eq!(index.inner().values_range(start, end), vec![0, 1, 9]);
    }
}

#[test]
fn stream_range_is_ordered_by_value_then_id() {
    let points = vec![(3, vec![10]), (1, vec![20, 10]), (2, vec![15])];
    for index in three_stores(&points) {
        let all = index
            .inner()
            .stream_range(&RangeInterface::Numeric(range(None, None, None, None)));
        assert_eq!(all, vec![(10, 1), (10, 3), (15, 2), (20, 1)]);
        let reversed: Vec<(i64, u32)> = all.iter().rev().cloned().collect();
        assert_eq!(reversed, vec![(20, 1), (15, 2), (10, 3), (10, 1)]);
        let some = index
            .inner()
            .stream_range(&RangeInterface::Numeric(range(Some(10), None, None, Some(20))));
        assert_eq!(some, vec![(15, 2), (20, 1)]);
    }
}

#[test]
fn datetime_range_is_taken_by_timestamp() {
    let mut index = NumericIndex::<i64, DateTimePayloadType>::new_gridstore().unwrap();
    let mut hw = HardwareCounterCell::new();
    for (id, micros) in [(0u32, -5i64), (1, 1_000_000), (2, 2_000_000)] {
        index
            .add_many(id, vec![DateTimePayloadType::from_timestamp_micros(micros)], &mut hw)
            .unwrap();
    }
    let condition = RangeInterface::DateTime(range(
        None,
        Some(DateTimePayloadType::from_timestamp_micros(-5)),
        Some(DateTimePayloadType::from_timestamp_micros(2_000_000)),
        None,
    ));
    assert_eq!(index.inner().stream_range(&condition), vec![(-5, 0), (1_000_000, 1)]);
}

#[test]
fn removed_point_leaves_every_store() {
    let points = vec![(0, vec![1]), (1, vec![2]), (2, vec![2])];
    for mut index in three_stores(&points) {
        index.remove_point(1).unwrap();
        assert_eq!(index.inner().point_ids_by_value(2), vec![2]);
        assert_eq!(index.get_values(1).map(|v| v.len()).unwrap_or(0), 0);
        assert!(index.values_is_empty(1));
        assert_eq!(index.values_count(1), 0);
        assert_eq!(index.values_count(2), 1);
        index.remove_point(1).unwrap();
        index.remove_point(100).unwrap();
        assert_eq!(
            index.inner().filter(&range_condition(range(None, None, None, None))),
            Some(vec![0, 2])
        );
        assert_eq!(index.inner().get_points_count(), 2);
    }
}

#[test]
fn estimate_points_for_float_value() {
    let mut index = NumericIndex::<FloatPayloadType, FloatPayloadType>::new_gridstore().unwrap();
    let mut hw = HardwareCounterCell::new();
    index.add_many(0, vec![float(1.0), float(2.0)], &mut hw).unwrap();
    index.add_many(1, vec![float(1.0)], &mut hw).unwrap();
    let mut hw = HardwareCounterCell::new();
    let estimate = index.inner().estimate_points(&float(1.0), &mut hw);
    assert!(estimate >= 1);
    assert_eq!(estimate, 1);
    // three values: two doublings reach three, charged twice
    assert_eq!(hw.payload_index_io_read, 4);
    assert_eq!(index.inner().estimate_points(&float(3.0), &mut hw), 0);
}

#[test]
fn estimate_points_scales_by_values_per_point() {
    let points = vec![(0, vec![1, 2]), (1, vec![1]), (2, vec![1, 3]), (3, vec![4, 5, 6])];
    let stores = three_stores(&points);
    let mut hw = HardwareCounterCell::new();
    // mutable: last id minus first id among the entries of the value
    assert_eq!(stores[0].inner().estimate_points(&1, &mut hw), 2);
    assert_eq!(stores[0].inner().estimate_points(&4, &mut hw), 1);
    assert_eq!(stores[0].inner().estimate_points(&9, &mut hw), 0);
    // others: 3 entries * 4 points / 8 values = 1.5 -> 2
    for index in &stores[1..] {
        assert_eq!(index.inner().estimate_points(&1, &mut hw), 2);
        assert_eq!(index.inner().estimate_points(&4, &mut hw), 1);
        assert_eq!(index.inner().estimate_points(&9, &mut hw), 0);
    }
    assert_eq!(estimate_from_range_size(0, 10, 20), 0);
    assert_eq!(estimate_from_range_size(1, 10, 20), 1);
    assert_eq!(estimate_from_range_size(3, 10, 20), 2);
    assert_eq!(estimate_from_range_size(4, 10, 20), 2);
    assert_eq!(estimate_from_range_size(5, 10, 20), 3);
    assert_eq!(estimate_from_range_size(7, 0, 20), 1);
}

#[test]
fn cardinality_formula_on_known_numbers() {
    // points = 1000, values = 2000, in range = 500
    let c: CardinalityEstimation<i64> = cardinality_from_estimates(1000, 2000, 2, 500, 500, 250);
    assert_eq!((c.min, c.exp, c.max), (250, 250, 500));
    // points = 1000, values = 1200, in range = 500: 500 - 200 = 300 at least
    let c: CardinalityEstimation<i64> = cardinality_from_estimates(1000, 1200, 2, 500, 500, 416);
    assert_eq!((c.min, c.exp, c.max), (300, 416, 500));
    // the estimate is kept between the bounds
    let c: CardinalityEstimation<i64> = cardinality_from_estimates(1000, 1200, 2, 500, 500, 10);
    assert_eq!((c.min, c.exp, c.max), (300, 300, 500));
    let c: CardinalityEstimation<i64> = cardinality_from_estimates(1000, 1200, 2, 500, 500, 900);
    assert_eq!((c.min, c.exp, c.max), (300, 500, 500));
    // more values in range than points
    let c: CardinalityEstimation<i64> = cardinality_from_estimates(10, 40, 4, 30, 30, 9);
    assert_eq!((c.min, c.exp, c.max), (7, 9, 10));
    // nothing in range
    let c: CardinalityEstimation<i64> = cardinality_from_estimates(10, 40, 4, 0, 0, 0);
    assert_eq!((c.min, c.exp, c.max), (0, 0, 0));
    // an empty index
    let c: CardinalityEstimation<i64> = cardinality_from_estimates(0, 0, 0, 0, 0, 5);
    assert_eq!((c.min, c.exp, c.max), (0, 0, 0));
    assert!(c.primary_clauses.is_empty());
}

#[test]
fn range_cardinality_uses_histogram_and_estimator() {
    let points: Vec<(u32, Vec<i64>)> = (0..100u32).map(|i| (i, vec![i as i64])).collect();
    for index in three_stores(&points) {
        let condition = RangeInterface::Numeric(range(None, Some(10), Some(30), None));
        let c = index.inner().range_cardinality(&condition, &estimator);
        assert_eq!((c.min, c.exp, c.max), (20, 20, 20));
        let empty = index
            .inner()
            .range_cardinality(&RangeInterface::Numeric(range(Some(500), None, None, None)), &estimator);
        assert_eq!((empty.min, empty.exp, empty.max), (0, 0, 0));
    }
    let empty = mutable_int(&[]);
    let c = empty
        .inner()
        .range_cardinality(&RangeInterface::Numeric(range(None, None, None, None)), &estimator);
    assert_eq!((c.min, c.exp, c.max), (0, 0, 0));
}

#[test]
fn estimate_cardinality_rests_on_the_condition() {
    let points: Vec<(u32, Vec<i64>)> = (0..50u32).map(|i| (i, vec![i as i64, 1000])).collect();
    let index = mutable_int(&points);
    let mut hw = HardwareCounterCell::new();
    let condition = range_condition(range(None, Some(0), None, Some(9)));
    let c = index
        .inner()
        .estimate_cardinality(&condition, &mut hw, &estimator)
        .unwrap();
    assert_eq!(c.primary_clauses.len(), 1);
    match &c.primary_clauses[0] {
        PrimaryCondition::Condition(held) => {
            assert_eq!(held.key, "field");
            assert!(held.matcher.is_none());
            assert!(matches!(held.range, Some(RangeInterface::Numeric(r)) if r.gte == Some(0) && r.lte == Some(9)));
        }
    }
    // 10 values in range, 50 points, 100 values, at most 2 per point
    assert_eq!(c.min, 5);
    assert_eq!(c.max, 10);
    assert!(c.min <= c.exp && c.exp <= c.max);
    assert_eq!(hw, HardwareCounterCell::new());

    let nothing: FieldCondition<i64> = FieldCondition {
        key: "field".to_string(),
        matcher: None,
        range: None,
    };
    assert!(index.inner().estimate_cardinality(&nothing, &mut hw, &estimator).is_none());
}

#[test]
fn estimate_cardinality_of_uuid_is_exact() {
    let a = 0xa1a2a3a4_b1b2_c1c2_d1d2_d3d4d5d6d7d8u128;
    let mut index = NumericIndex::<u128, UuidPayloadType>::new_gridstore().unwrap();
    let mut hw = HardwareCounterCell::new();
    index.add_many(3, vec![UuidPayloadType::from_u128(a)], &mut hw).unwrap();
    index.add_many(4, vec![UuidPayloadType::from_u128(7)], &mut hw).unwrap();
    let mut hw = HardwareCounterCell::new();
    let condition = keyword_condition("a1a2a3a4-b1b2-c1c2-d1d2-d3d4d5d6d7d8");
    let c = index
        .inner()
        .estimate_cardinality(&condition, &mut hw, &estimator)
        .unwrap();
    assert_eq!((c.min, c.exp, c.max), (1, 1, 1));
    assert_eq!(c.primary_clauses.len(), 1);
    assert_eq!(hw.payload_index_io_read, 2);
    assert_eq!(hw.payload_index_io_write, 0);
}

fn block_range(block: &field_index::types::PayloadBlockCondition<i64>) -> Range<i64> {
    match block.condition.range {
        Some(RangeInterface::Numeric(r)) => r,
        _ => panic!("block without range"),
    }
}

#[test]
fn payload_blocks_partition_the_domain() {
    let points: Vec<(u32, Vec<i64>)> = (0..1000u32).map(|i| (i, vec![i as i64 * 3])).collect();
    for index in three_stores(&points) {
        let blocks = index.inner().payload_blocks(100, "field".to_string(), &estimator);
        assert!(blocks.len() >= 10);
        assert_eq!(blocks.len(), 21);
        // first block has no lower bound, last block has no upper bound
        let first = block_range(&blocks[0]);
        assert!(first.gt.is_none() && first.gte.is_none());
        let last = block_range(&blocks[blocks.len() - 1]);
        assert!(last.lt.is_none() && last.lte.is_none());
        // each block starts right after the one before
        for pair in blocks.windows(2) {
            let a = block_range(&pair[0]);
            let b = block_range(&pair[1]);
            assert!(a.lte.is_some());
            assert_eq!(a.lt, None);
            assert_eq!(b.gt, a.lte);
            assert_eq!(b.gte, None);
        }
        // every value falls into exactly one block
        for value in [-5i64, 0, 1, 149, 150, 1500, 2997, 5000] {
            let holding = blocks
                .iter()
                .filter(|block| {
                    let r = block_range(block);
                    r.gt.map_or(true, |v| value > v)
                        && r.gte.map_or(true, |v| value >= v)
                        && r.lt.map_or(true, |v| value < v)
                        && r.lte.map_or(true, |v| value <= v)
                })
                .count();
            assert_eq!(holding, 1);
        }
        for block in &blocks[..blocks.len() - 1] {
            assert_eq!(block.condition.key, "field");
            assert_eq!(block.cardinality, 50);
        }
        assert_eq!(block_range(&blocks[0]).lte, Some(49 * 3));
    }
}

#[test]
fn payload_blocks_of_small_index_is_one_block() {
    for index in three_stores(&[(0, vec![1]), (1, vec![2])]) {
        let blocks = index.inner().payload_blocks(100, "field".to_string(), &estimator);
        assert_eq!(blocks.len(), 1);
        let r = block_range(&blocks[0]);
        assert!(r.gt.is_none() && r.gte.is_none() && r.lt.is_none() && r.lte.is_none());
        assert_eq!(blocks[0].cardinality, 2);
    }
    let empty = mutable_int(&[]);
    let blocks = empty.inner().payload_blocks(10, "field".to_string(), &estimator);
    assert_eq!(blocks.len(), 1);
    assert_eq!(blocks[0].cardinality, 0);
}

#[test]
fn only_the_mutable_store_takes_values() {
    let points = vec![(0, vec![1])];
    let mut stores = three_stores(&points);
    let mut hw = HardwareCounterCell::new();
    assert!(stores[0].add_many(1, vec![2], &mut hw).is_ok());
    assert_eq!(stores[0].inner().point_ids_by_value(2), vec![1]);
    match stores[1].add_many(1, vec![2], &mut hw) {
        Err(OperationError::ServiceError { description }) => {
            assert_eq!(description, "Can't add values to immutable numeric index")
        }
        _ => panic!("immutable index took values"),
    }
    match stores[2].add_many(1, vec![2], &mut hw) {
        Err(OperationError::ServiceError { description }) => {
            assert_eq!(description, "Can't add values to mmap numeric index")
        }
        _ => panic!("mmap index took values"),
    }
    assert_eq!(stores[0].get_mutability_type(), IndexMutability::Mutable);
    assert_eq!(stores[1].get_mutability_type(), IndexMutability::Immutable);
    assert_eq!(stores[2].get_mutability_type(), IndexMutability::Immutable);
    assert_eq!(stores[0].get_storage_type(), StorageType::Gridstore);
    assert_eq!(stores[1].get_storage_type(), StorageType::Mmap { is_on_disk: false });
    assert_eq!(stores[2].get_storage_type(), StorageType::Mmap { is_on_disk: true });
    assert!(!stores[0].is_on_disk() && !stores[1].is_on_disk() && stores[2].is_on_disk());
}

#[test]
fn add_point_replaces_values() {
    let mut index = mutable_int(&[(0, vec![1, 2]), (1, vec![2])]);
    let mut hw = HardwareCounterCell::new();
    index.add_point(0, &vec![vec![5], vec![], vec![6, 7]], &mut hw).unwrap();
    assert_eq!(index.get_values(0), Some(&vec![5, 6, 7]));
    assert_eq!(index.inner().point_ids_by_value(1), Vec::<u32>::new());
    assert_eq!(index.inner().point_ids_by_value(2), vec![1]);
    assert_eq!(index.inner().point_ids_by_value(6), vec![0]);
    assert_eq!(index.inner().max_values_per_point(), 3);
    assert_eq!(index.inner().total_unique_values_count(), 4);
    assert_eq!(index.inner().count_indexed_points(), 2);
}

#[test]
fn check_values_any_short_circuits() {
    let points = vec![(0, vec![1, 2, 3]), (1, vec![])];
    for index in three_stores(&points) {
        let seen = std::cell::Cell::new(0);
        assert!(index.check_values_any(0, |v| {
            seen.set(seen.get() + 1);
            *v == 2
        }));
        assert_eq!(seen.get(), 2);
        assert!(!index.check_values_any(0, |v| *v > 3));
        assert!(!index.check_values_any(1, |_| true));
        assert!(!index.check_values_any(7, |_| true));
    }
}

#[test]
fn telemetry_names_the_store() {
    let points = vec![(0, vec![1, 2]), (1, vec![3])];
    let stores = three_stores(&points);
    let names = ["mutable_numeric", "immutable_numeric", "mmap_numeric"];
    for (index, name) in stores.iter().zip(names) {
        let t = index.get_telemetry_data();
        assert_eq!(t.index_type, name);
        assert_eq!(t.points_count, 2);
        assert_eq!(t.points_values_count, 3);
        assert_eq!(t.histogram_bucket_size, Some(1));
        assert!(t.field_name.is_none());
    }
}

#[test]
fn inner_values_of_payloads() {
    assert_eq!(NumericIndex::<i64, i64>::into_inner_value(-3), -3);
    assert_eq!(
        NumericIndex::<i64, DateTimePayloadType>::into_inner_value(
            DateTimePayloadType::from_timestamp_micros(1_700_000_000_000_000)
        ),
        1_700_000_000_000_000
    );
    assert_eq!(
        NumericIndex::<u128, UuidPayloadType>::into_inner_value(UuidPayloadType::from_u128(99)),
        99
    );
    assert_eq!(
        NumericIndex::<FloatPayloadType, FloatPayloadType>::into_inner_value(float(0.5)),
        float(0.5)
    );
}

#[test]
fn integers_become_the_nearest_float() {
    for &value in &[
        0u128,
        1,
        2,
        3,
        (1 << 52) + 1,
        (1 << 53) - 1,
        1 << 53,
        (1 << 53) + 1,
        (1 << 53) + 2,
        (1 << 53) + 3,
        (1 << 54) + 2,
        (1 << 54) + 6,
        u64::MAX as u128,
        (u64::MAX as u128) + 1,
        0xa1a2a3a4_b1b2_c1c2_d1d2_d3d4d5d6d7d8,
        u128::MAX - 1,
        u128::MAX,
    ] {
        let got = <FloatPayloadType as Numericable>::from_u128(value);
        assert_eq!(got.to_bits(), (value as f64).to_bits(), "{}", value);
    }
    assert_eq!(<i64 as Numericable>::from_u128(u128::MAX), -1);
    assert_eq!(<i64 as Numericable>::from_u128(5), 5);
    assert_eq!(<u128 as Numericable>::from_u128(5), 5);
}

#[test]
fn storage_name_of_a_field() {
    assert_eq!(numeric_index_storage_cf_name("price"), "price_numeric");
    assert_eq!(numeric_index_storage_cf_name(""), "_numeric");
}

#[test]
fn match_estimate_holds_the_number_of_carriers() {
    let text = "550e8400-e29b-41d4-a716-446655440000";
    let u = 0x550e8400_e29b_41d4_a716_446655440000u128;
    let mut index = NumericIndex::<u128, UuidPayloadType>::new_gridstore().unwrap();
    let mut hw = HardwareCounterCell::new();
    for id in 0..3u32 {
        index.add_many(id, vec![UuidPayloadType::from_u128(u)], &mut hw).unwrap();
    }
    let condition = keyword_condition(text);
    let yielded = index.inner().filter(&condition).unwrap().len();
    assert_eq!(yielded, 3);
    let mut hw = HardwareCounterCell::new();
    let e = index
        .inner()
        .estimate_cardinality(&condition, &mut hw, &estimator)
        .unwrap();
    assert!(e.min <= yielded && yielded <= e.max);
    assert!(e.min <= e.exp && e.exp <= e.max);
    // last id minus first id is expected, the bounds reach to the carriers
    assert_eq!((e.min, e.exp, e.max), (2, 2, 3));
    assert_eq!(index.inner().estimate_points(&u, &mut hw), 2);
    assert_eq!(
        index.inner().estimate_cardinality_parsed(Some(u), &condition, &mut hw, &estimator).unwrap().max,
        3
    );
}

#[test]
fn match_estimate_brackets_in_every_store() {
    let points = vec![(0, vec![1, 2]), (1, vec![1]), (2, vec![1, 3]), (3, vec![4, 5, 6])];
    for index in three_stores(&points) {
        for value in [1i64, 4, 9] {
            let carriers = index.inner().point_ids_by_value(value).len();
            let mut hw = HardwareCounterCell::new();
            let condition: FieldCondition<i64> = FieldCondition {
                key: "field".to_string(),
                matcher: None,
                range: None,
            };
            let e = index
                .inner()
                .estimate_cardinality_parsed(Some(value as u128), &condition, &mut hw, &estimator)
                .unwrap();
            assert!(e.min <= carriers && carriers <= e.max, "{:?}", (e.min, e.exp, e.max));
            assert!(e.min <= e.exp && e.exp <= e.max);
            let start = Bound::Included(Point::new(value, u32::MIN));
            let end = Bound::Included(Point::new(value, u32::MAX));
            assert_eq!(index.inner().values_range_size(start, end), carriers);
        }
    }
}

#[test]
fn values_follow_what_is_added_and_removed() {
    let mut index = NumericIndex::<i64, i64>::new_gridstore().unwrap();
    let mut hw = HardwareCounterCell::new();
    assert_eq!(index.get_values(0), None);
    assert_eq!(index.inner().get_points_count(), 0);
    index.add_many(2, vec![5, 6], &mut hw).unwrap();
    assert_eq!(index.get_values(2), Some(&vec![5, 6]));
    assert_eq!(index.get_values(1), Some(&vec![]));
    assert_eq!(index.get_values(3), None);
    assert_eq!(index.inner().get_points_count(), 1);
    assert_eq!(index.inner().max_values_per_point(), 2);
    index.add_many(2, vec![], &mut hw).unwrap();
    assert_eq!(index.get_values(2), Some(&vec![5, 6]));
    index.add_point(0, &vec![vec![7]], &mut hw).unwrap();
    assert_eq!(index.inner().get_points_count(), 2);
    index.remove_point(2).unwrap();
    assert_eq!(index.get_values(2), Some(&vec![]));
    assert_eq!(index.get_values(0), Some(&vec![7]));
    assert_eq!(index.inner().get_points_count(), 1);
    assert_eq!(index.inner().max_values_per_point(), 2);
    let c = index
        .inner()
        .range_cardinality(&RangeInterface::Numeric(range(None, None, None, None)), &estimator);
    assert_eq!((c.min, c.exp, c.max), (1, 1, 1));
}

#[test]
fn range_estimate_brackets_the_points_selected() {
    let points: Vec<(u32, Vec<i64>)> = vec![
        (0, vec![1, 2, 3]),
        (1, vec![2]),
        (2, vec![]),
        (3, vec![3, 30, 300]),
        (4, vec![7, 8]),
        (6, vec![300]),
    ];
    let ranges: Vec<Range<i64>> = vec![
        range(None, None, None, None),
        range(None, Some(2), None, Some(3)),
        range(Some(3), None, Some(300), None),
        range(None, Some(300), None, None),
        range(None, Some(301), None, None),
        range(None, Some(7), None, Some(8)),
    ];
    let selected: Vec<usize> = vec![5, 3, 2, 2, 0, 1];
    for index in three_stores(&points) {
        for (r, n) in ranges.iter().zip(selected.iter()) {
            let mut ids = index.inner().filter(&range_condition(r.clone())).unwrap();
            ids.sort();
            ids.dedup();
            assert_eq!(ids.len(), *n);
            let c = index.inner().range_cardinality(&RangeInterface::Numeric(r.clone()), &estimator);
            assert!(c.min <= c.exp && c.exp <= c.max);
            assert!(c.min <= *n && *n <= c.max);
            assert!(c.max <= index.inner().get_points_count());
        }
    }
    let index = mutable_int(&points);
    let c = index
        .inner()
        .range_cardinality(&RangeInterface::Numeric(range(None, Some(7), None, Some(8))), &estimator);
    assert_eq!((c.min, c.max), (1, 2));
    let c = index
        .inner()
        .range_cardinality(&RangeInterface::Numeric(range(None, None, None, None)), &estimator);
    assert_eq!((c.min, c.exp, c.max), (5, 5, 5));
}

#[test]
fn range_estimate_brackets_after_removals() {
    let points: Vec<(u32, Vec<i64>)> = vec![
        (0, vec![1, 2, 3]),
        (1, vec![2]),
        (2, vec![]),
        (3, vec![3, 30, 300]),
        (4, vec![7, 8]),
        (6, vec![300]),
    ];
    let ranges: Vec<Range<i64>> = vec![
        range(None, None, None, None),
        range(None, Some(2), None, Some(3)),
        range(Some(3), None, Some(300), None),
        range(None, Some(300), None, None),
        range(None, Some(7), None, Some(8)),
    ];
    let selected: Vec<usize> = vec![3, 2, 0, 1, 0];
    for mut index in three_stores(&points) {
        index.remove_point(3).unwrap();
        index.remove_point(4).unwrap();
        index.remove_point(2).unwrap();
        assert_eq!(index.inner().get_points_count(), 3);
        for (r, n) in ranges.iter().zip(selected.iter()) {
            let mut ids = index.inner().filter(&range_condition(r.clone())).unwrap();
            ids.sort();
            ids.dedup();
            assert_eq!(ids.len(), *n);
            let c = index.inner().range_cardinality(&RangeInterface::Numeric(r.clone()), &estimator);
            assert!(c.min <= c.exp && c.exp <= c.max);
            assert!(c.min <= *n && *n <= c.max);
        }
    }
}
