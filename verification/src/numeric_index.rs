//! The numeric index: one contract over three stores, and what the query
//! planner asks of it.

use vstd::prelude::*;
use vstd::string::StringExecFns;
use crate::bitslice::count_true;
use crate::blocks::block_ranges;
use crate::blocks::lemma_step_makes_progress;
use crate::blocks::lower_bound;
use crate::blocks::range_between;
use crate::blocks::upper_bound;
use crate::counter::ceil_log2;
use crate::counter::compute_ceil_log2;
use crate::counter::HardwareCounterCell;
use crate::encodable::Encodable;
use crate::encodable::Numericable;
use crate::histogram::count_between;
use crate::histogram::point_end;
use crate::histogram::points_above;
use crate::histogram::range_by_size;
use crate::histogram::point_start;
use crate::histogram::value_end;
use crate::histogram::value_start;
use crate::histogram::Histogram;
use crate::immutable_numeric_index::ImmutableNumericIndex;
use crate::in_memory_numeric_index::count_nonempty;
use crate::mmap_numeric_index::is_live;
use crate::mmap_numeric_index::MmapNumericIndex;
use crate::mutable_numeric_index::MutableNumericIndex;
use crate::point_to_values::MmapPointToValues;
use crate::sorted_points::bounds_valid;
use crate::sorted_points::check_boundaries;
use crate::sorted_points::ids_of;
use crate::sorted_points::lemma_invalid_bounds_select_nothing;
use crate::sorted_points::pairs_of;
use crate::sorted_points::range_of;
use crate::sorted_points::without_point;
use crate::types::Bound;
use crate::types::CardinalityEstimation;
use crate::types::DateTimePayloadType;
use crate::types::FieldCondition;
use crate::types::Match;
use crate::types::OperationResult;
use crate::types::PayloadBlockCondition;
use crate::types::PayloadIndexTelemetry;
use crate::types::Point;
use crate::types::PointOffsetType;
use crate::types::PrimaryCondition;
use crate::types::Range;
use crate::types::RangeInterface;
use crate::types::ValueVariants;

verus! {

/// What `Uuid::from_str` makes of a keyword, as a 128-bit integer; `None`
/// where it rejects the keyword.
pub uninterp spec fn uuid_from_str(keyword: Seq<char>) -> Option<u128>;

/// Parses a keyword as a UUID.
///
/// Trusted: calls `uuid::Uuid::from_str` and, where it accepts the
/// keyword, `uuid::Uuid::as_u128`. The contract only gives the result its
/// name; nothing is claimed about which keywords are accepted.
#[verifier::external_body]
fn parse_uuid(keyword: &str) -> (r: Option<u128>)
    ensures
        r == uuid_from_str(keyword@),
{
    match <uuid::Uuid as core::str::FromStr>::from_str(keyword) {
        Ok(uuid) => Some(uuid.as_u128()),
        Err(_) => None,
    }
}

pub fn range_lower_bound<T: Copy>(range: &Range<T>) -> (b: Bound<T>)
    ensures
        b == lower_bound(*range),
{
    if let Some(v) = range.gte {
        Bound::Included(v)
    } else if let Some(v) = range.gt {
        Bound::Excluded(v)
    } else {
        Bound::Unbounded
    }
}

pub fn range_upper_bound<T: Copy>(range: &Range<T>) -> (b: Bound<T>)
    ensures
        b == upper_bound(*range),
{
    if let Some(v) = range.lte {
        Bound::Included(v)
    } else if let Some(v) = range.lt {
        Bound::Excluded(v)
    } else {
        Bound::Unbounded
    }
}

impl<T: Encodable> Range<T> {
    /// The bounds of the range as points: a lower bound starts at the
    /// lowest id if it is inclusive and after the highest id if it is
    /// exclusive, and an upper bound ends the other way round.
    pub fn as_index_key_bounds(&self) -> (r: (Bound<Point<T>>, Bound<Point<T>>))
        ensures
            r.0 == value_start(lower_bound(*self)),
            r.1 == value_end(upper_bound(*self)),
    {
        let lower = range_lower_bound(self);
        let upper = range_upper_bound(self);
        (point_start(&lower), point_end(&upper))
    }
}

/// The value an index holds for a date-time: its timestamp, taken as a
/// 128-bit integer.
pub open spec fn datetime_key<T: Numericable>(dt: DateTimePayloadType) -> T {
    T::spec_from_u128(dt.micros as u128)
}

pub open spec fn datetime_bound<T: Numericable>(bound: Option<DateTimePayloadType>) -> Option<T> {
    match bound {
        Some(dt) => Some(datetime_key::<T>(dt)),
        None => None,
    }
}

/// The range of values that a range condition asks for.
pub open spec fn range_keys<T: Numericable>(range: RangeInterface<T>) -> Range<T> {
    match range {
        RangeInterface::Numeric(r) => r,
        RangeInterface::DateTime(r) => Range {
            lt: datetime_bound::<T>(r.lt),
            gt: datetime_bound::<T>(r.gt),
            gte: datetime_bound::<T>(r.gte),
            lte: datetime_bound::<T>(r.lte),
        },
    }
}

fn datetime_to_key<T: Numericable>(bound: &Option<DateTimePayloadType>) -> (r: Option<T>)
    ensures
        r == datetime_bound::<T>(*bound),
{
    match bound {
        Some(dt) => {
            let wide: u128 = #[verifier::truncate]
            (dt.timestamp() as u128);
            Some(T::from_u128(wide))
        },
        None => None,
    }
}

/// Takes a range condition to the values of the index.
pub fn map_range<T: Numericable>(range: &RangeInterface<T>) -> (r: Range<T>)
    ensures
        r == range_keys(*range),
{
    match range {
        RangeInterface::Numeric(r) => *r,
        RangeInterface::DateTime(r) => Range {
            lt: datetime_to_key(&r.lt),
            gt: datetime_to_key(&r.gt),
            gte: datetime_to_key(&r.gte),
            lte: datetime_to_key(&r.lte),
        },
    }
}

/// The keyword of a condition that matches a field against a string.
pub open spec fn match_keyword<T>(condition: FieldCondition<T>) -> Option<Seq<char>> {
    match condition.matcher {
        Some(Match::Value(m)) => match m.value {
            ValueVariants::String(keyword) => Some(keyword@),
            _ => None,
        },
        _ => None,
    }
}

/// The UUID a condition asks for, if it matches a field against a keyword
/// that parses as one.
pub open spec fn condition_uuid<T>(condition: FieldCondition<T>) -> Option<u128> {
    match match_keyword(condition) {
        Some(keyword) => uuid_from_str(keyword),
        None => None,
    }
}

/// The UUID a condition asks for.
pub fn parse_condition_uuid<T>(condition: &FieldCondition<T>) -> (r: Option<u128>)
    ensures
        r == condition_uuid(*condition),
{
    match &condition.matcher {
        Some(Match::Value(m)) => match &m.value {
            ValueVariants::String(keyword) => parse_uuid(keyword.as_str()),
            _ => None,
        },
        _ => None,
    }
}

/// `a - b`, or zero where that would be negative.
pub open spec fn minus(a: nat, b: nat) -> nat {
    if a >= b {
        (a - b) as nat
    } else {
        0
    }
}

pub open spec fn larger(a: nat, b: nat) -> nat {
    if a >= b {
        a
    } else {
        b
    }
}

pub open spec fn smaller(a: nat, b: nat) -> nat {
    if a <= b {
        a
    } else {
        b
    }
}

/// The least number of points that `min_h` values can belong to: each
/// point carries at most `max_values` of them, one value belongs to one
/// point at least, and of `total_values` values no more than
/// `total_values - points` are second values of a point.
pub open spec fn expected_min(min_h: nat, points: nat, total_values: nat, max_values: nat) -> nat {
    larger(
        min_h / max_values,
        larger(smaller(1, min_h), minus(min_h, minus(total_values, points))),
    )
}

/// The most points that `max_h` values can belong to.
pub open spec fn expected_max(max_h: nat, points: nat) -> nat {
    smaller(points, max_h)
}

/// The estimate kept between the least and the most, the most winning
/// where the two cross.
pub open spec fn expected_exp(estimation: nat, min: nat, max: nat) -> nat {
    smaller(max, larger(estimation, min))
}

/// Bounds and expectation of the number of points in a range, from what
/// the histogram says of the values in it and from an estimate of the
/// number of distinct points among that many values. A store without
/// values gives zero throughout.
pub fn cardinality_from_estimates<T>(
    points: usize,
    total_values: usize,
    max_values_per_point: usize,
    min_estimation: usize,
    max_estimation: usize,
    estimation: usize,
) -> (r: CardinalityEstimation<T>)
    ensures
        r.primary_clauses@ == Seq::<PrimaryCondition<T>>::empty(),
        max_values_per_point == 0 ==> r.min == 0 && r.exp == 0 && r.max == 0,
        max_values_per_point > 0 ==> {
            &&& r.min == expected_min(
                min_estimation as nat,
                points as nat,
                total_values as nat,
                max_values_per_point as nat,
            )
            &&& r.max == expected_max(max_estimation as nat, points as nat)
            &&& r.exp == expected_exp(estimation as nat, r.min as nat, r.max as nat)
        },
        r.exp <= r.max,
        r.min <= r.max ==> r.min <= r.exp,
{
    if max_values_per_point == 0 {
        return CardinalityEstimation::exact(0);
    }
    let spare: usize = total_values.saturating_sub(points);
    let by_spare: usize = min_estimation.saturating_sub(spare);
    let at_least_one: usize = if min_estimation < 1 {
        min_estimation
    } else {
        1
    };
    let inner: usize = if at_least_one >= by_spare {
        at_least_one
    } else {
        by_spare
    };
    let by_share: usize = min_estimation / max_values_per_point;
    let min: usize = if by_share >= inner {
        by_share
    } else {
        inner
    };
    let max: usize = if points <= max_estimation {
        points
    } else {
        max_estimation
    };
    let raised: usize = if estimation >= min {
        estimation
    } else {
        min
    };
    let exp: usize = if max <= raised {
        max
    } else {
        raised
    };
    CardinalityEstimation { primary_clauses: Vec::new(), min, exp, max }
}

/// The estimate of the number of points that carry one value, from the
/// ids of the first and the last entry of that value: one entry is one
/// point, and more entries span the ids between the two ends.
pub open spec fn endpoint_estimate<T>(within: Seq<Point<T>>) -> nat {
    if within.len() == 0 {
        0
    } else if within.len() == 1 {
        1
    } else {
        minus(within.last().idx as nat, within.first().idx as nat)
    }
}

/// The estimate of the number of points among `range_size` values, from
/// the average number of values per point: `range_size * points /
/// total_values`, rounded to the nearest whole, halves up, and no less
/// than one where there is a value at all.
pub open spec fn ratio_estimate(range_size: nat, points: nat, total_values: nat) -> nat {
    if range_size == 0 {
        0
    } else if total_values == 0 {
        1
    } else {
        let scaled = range_size * points;
        let whole = scaled / total_values;
        let rest = scaled % total_values;
        let rounded = if 2 * rest >= total_values {
            whole + 1
        } else {
            whole
        };
        if rounded < 1 {
            1
        } else if rounded > usize::MAX {
            usize::MAX as nat
        } else {
            rounded
        }
    }
}

pub fn estimate_from_endpoints(first: Option<PointOffsetType>, last: Option<PointOffsetType>) -> (n:
    usize)
    ensures
        n == match (first, last) {
            (Some(_), None) => 1nat,
            (Some(start), Some(end)) => minus(end as nat, start as nat),
            (None, _) => 0nat,
        },
{
    match (first, last) {
        (Some(_), None) => 1,
        (Some(start), Some(end)) => if end >= start {
            (end - start) as usize
        } else {
            0
        },
        (None, _) => 0,
    }
}

pub fn estimate_from_range_size(range_size: usize, points: usize, total_values: usize) -> (n: usize)
    ensures
        n == ratio_estimate(range_size as nat, points as nat, total_values as nat),
{
    if range_size == 0 {
        return 0;
    }
    if total_values == 0 {
        return 1;
    }
    assert(range_size * points <= 0xffff_ffff_ffff_ffff * 0xffff_ffff_ffff_ffff) by (nonlinear_arith)
        requires
            range_size <= 0xffff_ffff_ffff_ffff,
            points <= 0xffff_ffff_ffff_ffff,
    ;
    let scaled: u128 = range_size as u128 * points as u128;
    let whole: u128 = scaled / total_values as u128;
    let rest: u128 = scaled % total_values as u128;
    let rounded: u128 = if 2 * rest >= total_values as u128 {
        whole + 1
    } else {
        whole
    };
    if rounded < 1 {
        1
    } else if rounded > usize::MAX as u128 {
        usize::MAX
    } else {
        rounded as usize
    }
}

/// The number of values a block aims at: the threshold in points times
/// the average number of values per point, and zero for an index without
/// points.
pub open spec fn effective_threshold(threshold: nat, total_values: nat, points: nat) -> nat {
    if points == 0 {
        0
    } else {
        let scaled = threshold * total_values / points;
        if scaled > usize::MAX {
            usize::MAX as nat
        } else {
            scaled
        }
    }
}

pub fn compute_effective_threshold(threshold: usize, total_values: usize, points: usize) -> (n:
    usize)
    ensures
        n == effective_threshold(threshold as nat, total_values as nat, points as nat),
{
    if points == 0 {
        return 0;
    }
    assert(threshold * total_values <= 0xffff_ffff_ffff_ffff * 0xffff_ffff_ffff_ffff)
        by (nonlinear_arith)
        requires
            threshold <= 0xffff_ffff_ffff_ffff,
            total_values <= 0xffff_ffff_ffff_ffff,
    ;
    let scaled: u128 = threshold as u128 * total_values as u128 / points as u128;
    if scaled > usize::MAX as u128 {
        usize::MAX
    } else {
        scaled as usize
    }
}

/// The range between two bounds.
pub fn make_range<T: Copy>(lower: &Bound<T>, upper: &Bound<T>) -> (r: Range<T>)
    ensures
        r == range_between(*lower, *upper),
{
    Range {
        lt: match upper {
            Bound::Excluded(v) => Some(*v),
            _ => None,
        },
        gt: match lower {
            Bound::Excluded(v) => Some(*v),
            _ => None,
        },
        gte: match lower {
            Bound::Included(v) => Some(*v),
            _ => None,
        },
        lte: match upper {
            Bound::Included(v) => Some(*v),
            _ => None,
        },
    }
}

/// The three stores behind one contract.
pub enum NumericIndexInner<T: Encodable> {
    Mutable(MutableNumericIndex<T>),
    Immutable(ImmutableNumericIndex<T>),
    Mmap(MmapNumericIndex<T>),
}

impl<T: Numericable> NumericIndexInner<T> {
    pub open spec fn wf(&self) -> bool {
        match self {
            NumericIndexInner::Mutable(index) => index.wf(),
            NumericIndexInner::Immutable(index) => index.wf(),
            NumericIndexInner::Mmap(index) => index.wf(),
        }
    }

    /// The `(value, id)` pairs that queries see, ascending.
    pub open spec fn points(&self) -> Seq<Point<T>> {
        match self {
            NumericIndexInner::Mutable(index) => index@.points(),
            NumericIndexInner::Immutable(index) => index@.points(),
            NumericIndexInner::Mmap(index) => index.points(),
        }
    }

    /// The values of point `idx` as queries see them; `None` for a point
    /// the index does not know or has tombstoned.
    pub open spec fn values_of(&self, idx: PointOffsetType) -> Option<Seq<T>> {
        match self {
            NumericIndexInner::Mutable(index) => if idx < index@.point_values().len() {
                Some(index@.point_values()[idx as int])
            } else {
                None
            },
            NumericIndexInner::Immutable(index) => if idx < index@.point_values().len() {
                Some(index@.point_values()[idx as int])
            } else {
                None
            },
            NumericIndexInner::Mmap(index) => if is_live(index.deleted_bits(), idx) && idx
                < index.point_values().len() {
                Some(index.point_values()[idx as int])
            } else {
                None
            },
        }
    }

    /// The values of every point as the store keeps them, by point id. In
    /// memory a removed point keeps an empty list; in a file a tombstoned
    /// point keeps its values and is hidden by its tombstone.
    pub open spec fn lists(&self) -> Seq<Seq<T>> {
        match self {
            NumericIndexInner::Mutable(index) => index@.point_values(),
            NumericIndexInner::Immutable(index) => index@.point_values(),
            NumericIndexInner::Mmap(index) => index.point_values(),
        }
    }

    /// The tombstones of a store in a file; a store in memory has none.
    pub open spec fn tombstones(&self) -> Seq<bool> {
        match self {
            NumericIndexInner::Mmap(index) => index.deleted_bits(),
            _ => Seq::empty(),
        }
    }

    /// Whether point `idx` is among the points that count as indexed.
    pub open spec fn counts_point(&self, idx: PointOffsetType) -> bool {
        match self {
            NumericIndexInner::Mmap(index) => is_live(index.deleted_bits(), idx),
            _ => self.values_of(idx) matches Some(values) && values.len() > 0,
        }
    }

    /// The number of points that count as indexed: in memory, the points
    /// that carry a value; in a file, the points that are not tombstoned.
    pub open spec fn points_count(&self) -> nat {
        match self {
            NumericIndexInner::Mutable(index) => count_nonempty(index@.point_values()),
            NumericIndexInner::Immutable(index) => count_nonempty(index@.point_values()),
            NumericIndexInner::Mmap(index) => minus(
                index.point_values().len(),
                count_true(index.deleted_bits()),
            ),
        }
    }

    /// The number of `(value, id)` pairs held; in a file, tombstoned ones
    /// count too.
    pub open spec fn total_values(&self) -> nat {
        match self {
            NumericIndexInner::Mutable(index) => index@.points().len(),
            NumericIndexInner::Immutable(index) => index@.points().len(),
            NumericIndexInner::Mmap(index) => index.stored().len(),
        }
    }

    /// The largest number of values that a point carries; zero for an
    /// empty index.
    pub open spec fn max_values(&self) -> nat {
        match self {
            NumericIndexInner::Mutable(index) => index@.max_values(),
            NumericIndexInner::Immutable(index) => index@.max_values(),
            NumericIndexInner::Mmap(index) => index.max_values(),
        }
    }

    pub open spec fn on_disk(&self) -> bool {
        match self {
            NumericIndexInner::Mutable(_) => false,
            NumericIndexInner::Immutable(_) => false,
            NumericIndexInner::Mmap(index) => index.on_disk(),
        }
    }

    /// Opens the index over the files it was built into: on disk it
    /// answers from the files, else it is loaded into memory. Fails
    /// unless the keys are whole, strictly ascending and in agreement with
    /// the values of the points, and the bitmap can be addressed.
    pub fn new_mmap(
        pairs: Vec<u8>,
        deleted: Vec<u8>,
        point_to_values: MmapPointToValues<T>,
        is_on_disk: bool,
    ) -> (r: OperationResult<Self>)
        ensures
            r.is_ok() <==> {
                &&& pairs@.len() % crate::mmap_numeric_index::stride::<T>() == 0
                &&& crate::sorted_points::is_sorted(
                    crate::mmap_numeric_index::decoded_points::<T>(pairs@),
                )
                &&& crate::pairing::tied(
                    crate::mmap_numeric_index::decoded_points::<T>(pairs@),
                    point_to_values@,
                )
                &&& deleted@.len() * 8 <= usize::MAX
            },
            r matches Ok(index) ==> {
                &&& index.wf()
                &&& (index is Mmap <==> is_on_disk)
                &&& (index is Immutable <==> !is_on_disk)
                &&& index.points() == crate::mmap_numeric_index::live_points(
                    crate::mmap_numeric_index::decoded_points::<T>(pairs@),
                    crate::bitslice::bits_of(deleted@),
                )
                &&& index matches NumericIndexInner::Mmap(mmap) ==> mmap.point_values()
                    == point_to_values@ && mmap.deleted_bits() == crate::bitslice::bits_of(
                    deleted@,
                ) && mmap.pairs_bytes() == pairs@
                &&& index matches NumericIndexInner::Immutable(loaded) ==> loaded@.point_values()
                    == crate::mmap_numeric_index::live_lists(
                    point_to_values@,
                    crate::bitslice::bits_of(deleted@),
                ) && loaded.storage().pairs_bytes() == pairs@
            },
    {
        match MmapNumericIndex::open(pairs, deleted, point_to_values, is_on_disk) {
            Ok(mmap_index) => {
                if is_on_disk {
                    Ok(NumericIndexInner::Mmap(mmap_index))
                } else {
                    Ok(NumericIndexInner::Immutable(ImmutableNumericIndex::open_mmap(mmap_index)))
                }
            },
            Err(e) => Err(e),
        }
    }

    /// An empty index that accepts values.
    pub fn new_gridstore() -> (r: OperationResult<Self>)
        ensures
            r matches Ok(index) && index.wf() && index is Mutable && index.points() == Seq::<
                Point<T>,
            >::empty() && index.max_values() == 0 && index.lists() == Seq::<Seq<T>>::empty()
                && index.points_count() == 0 && index.total_values() == 0,
            forall|idx: PointOffsetType| (#[trigger] r->Ok_0.values_of(idx)).is_none(),
    {
        Ok(NumericIndexInner::Mutable(MutableNumericIndex::new()))
    }

    /// Whether the index holds its data; an index of this kind always
    /// does once it exists.
    pub fn load(&mut self) -> (r: OperationResult<bool>)
        ensures
            r == OperationResult::<bool>::Ok(true),
            *final(self) == *old(self),
    {
        Ok(true)
    }

    pub fn get_histogram(&self) -> (h: &Histogram<T>)
        requires
            self.wf(),
        ensures
            h.wf(),
            h@ == self.points(),
    {
        match self {
            NumericIndexInner::Mutable(index) => index.map().get_histogram(),
            NumericIndexInner::Immutable(index) => index.map().get_histogram(),
            NumericIndexInner::Mmap(index) => index.get_histogram(),
        }
    }

    pub fn get_points_count(&self) -> (n: usize)
        requires
            self.wf(),
        ensures
            n == self.points_count(),
    {
        match self {
            NumericIndexInner::Mutable(index) => index.map().get_points_count(),
            NumericIndexInner::Immutable(index) => index.map().get_points_count(),
            NumericIndexInner::Mmap(index) => index.get_points_count(),
        }
    }

    pub fn total_unique_values_count(&self) -> (n: usize)
        requires
            self.wf(),
        ensures
            n == self.total_values(),
    {
        match self {
            NumericIndexInner::Mutable(index) => index.map().total_unique_values_count(),
            NumericIndexInner::Immutable(index) => index.map().total_unique_values_count(),
            NumericIndexInner::Mmap(index) => index.total_unique_values_count(),
        }
    }

    /// Writes pending tombstones through to the bytes of the bitmap file.
    /// What queries see does not change.
    pub fn flusher(&mut self)
        requires
            old(self).wf(),
        ensures
            final(self).wf(),
            final(self).points() == old(self).points(),
            final(self).total_values() == old(self).total_values(),
            (*old(self) is Mutable) ==> *final(self) == *old(self),
            (*old(self) is Immutable) <==> (*final(self) is Immutable),
            (*old(self) is Mmap) <==> (*final(self) is Mmap),
            *final(self) matches NumericIndexInner::Immutable(index) ==> crate::bitslice::bits_of(
                index.storage().deleted_file(),
            ) == old(self)->Immutable_0.storage().deleted_bits(),
            *final(self) matches NumericIndexInner::Mmap(index) ==> crate::bitslice::bits_of(
                index.deleted_file(),
            ) == old(self)->Mmap_0.deleted_bits() && index.deleted_bits() == old(
                self,
            )->Mmap_0.deleted_bits(),
    {
        match self {
            NumericIndexInner::Mutable(_) => {},
            NumericIndexInner::Immutable(index) => index.flusher(),
            NumericIndexInner::Mmap(index) => index.flusher(),
        }
    }

    /// The files behind the index, relative to its directory.
    pub fn files(&self) -> (files: Vec<&'static str>)
        ensures
            files@ == match self {
                NumericIndexInner::Mutable(_) => Seq::<&'static str>::empty(),
                _ => seq![
                    crate::mmap_numeric_index::PAIRS_PATH,
                    crate::mmap_numeric_index::DELETED_PATH,
                    crate::point_to_values::POINT_TO_VALUES_PATH,
                    crate::point_to_values::POINT_TO_VALUES_OFFSETS_PATH,
                ],
            },
    {
        match self {
            NumericIndexInner::Mutable(_) => Vec::new(),
            NumericIndexInner::Immutable(index) => index.mmap().files(),
            NumericIndexInner::Mmap(index) => index.files(),
        }
    }

    /// The files that never change once the index is built.
    pub fn immutable_files(&self) -> (files: Vec<&'static str>)
        ensures
            files@ == match self {
                NumericIndexInner::Mutable(_) => Seq::<&'static str>::empty(),
                _ => seq![
                    crate::mmap_numeric_index::PAIRS_PATH,
                    crate::point_to_values::POINT_TO_VALUES_PATH,
                    crate::point_to_values::POINT_TO_VALUES_OFFSETS_PATH,
                ],
            },
    {
        match self {
            NumericIndexInner::Mutable(_) => Vec::new(),
            NumericIndexInner::Immutable(index) => index.mmap().immutable_files(),
            NumericIndexInner::Mmap(index) => index.immutable_files(),
        }
    }

    /// Removes point `idx` from what queries see: its pairs leave the
    /// ordered store, its values are no longer visible, and it no longer
    /// counts as indexed. In memory its value list is emptied; in a file
    /// its tombstone is set. Every other point stays as it is. Removing
    /// an unknown point changes nothing.
    pub fn remove_point(&mut self, idx: PointOffsetType) -> (r: OperationResult<()>)
        requires
            old(self).wf(),
        ensures
            r.is_ok(),
            final(self).wf(),
            final(self).points() == without_point(old(self).points(), idx),
            final(self).max_values() == old(self).max_values(),
            (*old(self) is Mutable) <==> (*final(self) is Mutable),
            (*old(self) is Immutable) <==> (*final(self) is Immutable),
            (*old(self) is Mmap) <==> (*final(self) is Mmap),
            final(self).lists() == if !(*old(self) is Mmap) && idx < old(self).lists().len() {
                old(self).lists().update(idx as int, Seq::<T>::empty())
            } else {
                old(self).lists()
            },
            final(self).tombstones() == if (*old(self) is Mmap) && is_live(
                old(self).tombstones(),
                idx,
            ) {
                old(self).tombstones().update(idx as int, true)
            } else {
                old(self).tombstones()
            },
            final(self).values_of(idx) == if !(*old(self) is Mmap) && old(self).values_of(
                idx,
            ).is_some() {
                Some(Seq::<T>::empty())
            } else {
                None
            },
            forall|other: PointOffsetType|
                other != idx ==> #[trigger] final(self).values_of(other) == old(self).values_of(
                    other,
                ),
            old(self).tombstones_in_order() && idx < old(self).lists().len()
                ==> final(self).tombstones_in_order(),
            final(self).points_count() == minus(
                old(self).points_count(),
                if old(self).counts_point(idx) {
                    1
                } else {
                    0
                },
            ),
            (*old(self) is Mmap) ==> final(self).total_values() == old(self).total_values(),
    {
        proof {
            let lists = old(self).lists();
            if !(*old(self) is Mmap) && idx < lists.len() {
                crate::in_memory_numeric_index::lemma_count_nonempty_update(
                    lists,
                    idx as int,
                    Seq::<T>::empty(),
                );
            }
            if is_live(old(self).tombstones(), idx) {
                crate::bitslice::lemma_count_true_update(old(self).tombstones(), idx as int, true);
            }
        }
        match self {
            NumericIndexInner::Mutable(index) => index.remove_point(idx),
            NumericIndexInner::Immutable(index) => index.remove_point(idx),
            NumericIndexInner::Mmap(index) => {
                index.remove_point(idx);
                Ok(())
            },
        }
    }

    /// Whether `check_fn` accepts one of the values of point `idx`.
    pub fn check_values_any<F: Fn(&T) -> bool>(&self, idx: PointOffsetType, check_fn: F) -> (r:
        bool)
        requires
            self.wf(),
            forall|v: &T| check_fn.requires((v,)),
        ensures
            r ==> self.values_of(idx).is_some() && exists|k: int|
                0 <= k < self.values_of(idx).unwrap().len() && check_fn.ensures(
                    (&#[trigger] self.values_of(idx).unwrap()[k],),
                    true,
                ),
            !r ==> self.values_of(idx).is_none() || forall|k: int|
                0 <= k < self.values_of(idx).unwrap().len() ==> check_fn.ensures(
                    (&#[trigger] self.values_of(idx).unwrap()[k],),
                    false,
                ),
    {
        match self {
            NumericIndexInner::Mutable(index) => {
                let found = index.map().check_values_any(idx, check_fn);
                proof {
                    if found {
                        let values = index@.point_values()[idx as int];
                        let k = choose|k: int|
                            0 <= k < values.len() && check_fn.ensures((&#[trigger] values[k],), true);
                        assert(self.values_of(idx).unwrap()[k] == values[k]);
                    }
                }
                found
            },
            NumericIndexInner::Immutable(index) => {
                let found = index.map().check_values_any(idx, check_fn);
                proof {
                    if found {
                        let values = index@.point_values()[idx as int];
                        let k = choose|k: int|
                            0 <= k < values.len() && check_fn.ensures((&#[trigger] values[k],), true);
                        assert(self.values_of(idx).unwrap()[k] == values[k]);
                    }
                }
                found
            },
            NumericIndexInner::Mmap(index) => {
                let found = index.check_values_any(idx, check_fn);
                proof {
                    if found {
                        let values = index.point_values()[idx as int];
                        let k = choose|k: int|
                            0 <= k < values.len() && check_fn.ensures((&#[trigger] values[k],), true);
                        assert(self.values_of(idx).unwrap()[k] == values[k]);
                    }
                }
                found
            },
        }
    }

    /// The values of point `idx`.
    pub fn get_values(&self, idx: PointOffsetType) -> (r: Option<&Vec<T>>)
        requires
            self.wf(),
        ensures
            r.is_some() == self.values_of(idx).is_some(),
            r matches Some(values) ==> values@ == self.values_of(idx).unwrap(),
    {
        match self {
            NumericIndexInner::Mutable(index) => index.map().get_values(idx),
            NumericIndexInner::Immutable(index) => index.map().get_values(idx),
            NumericIndexInner::Mmap(index) => index.get_values(idx),
        }
    }

    /// The number of values of point `idx`; zero for a point without
    /// visible values.
    pub fn values_count(&self, idx: PointOffsetType) -> (n: usize)
        requires
            self.wf(),
        ensures
            n == match self.values_of(idx) {
                Some(values) => values.len(),
                None => 0,
            },
    {
        let count = match self {
            NumericIndexInner::Mutable(index) => index.map().values_count(idx),
            NumericIndexInner::Immutable(index) => index.map().values_count(idx),
            NumericIndexInner::Mmap(index) => index.values_count(idx),
        };
        match count {
            Some(n) => n,
            None => 0,
        }
    }

    /// The largest number of values that a point carries. Zero if the
    /// index is empty.
    pub fn max_values_per_point(&self) -> (n: usize)
        ensures
            n == self.max_values(),
    {
        match self {
            NumericIndexInner::Mutable(index) => index.map().get_max_values_per_point(),
            NumericIndexInner::Immutable(index) => index.map().get_max_values_per_point(),
            NumericIndexInner::Mmap(index) => index.get_max_values_per_point(),
        }
    }

    pub fn values_is_empty(&self, idx: PointOffsetType) -> (b: bool)
        requires
            self.wf(),
        ensures
            b == match self.values_of(idx) {
                Some(values) => values.len() == 0,
                None => true,
            },
    {
        self.values_count(idx) == 0
    }

    pub fn is_on_disk(&self) -> (b: bool)
        ensures
            b == self.on_disk(),
    {
        match self {
            NumericIndexInner::Mutable(_) => false,
            NumericIndexInner::Immutable(_) => false,
            NumericIndexInner::Mmap(index) => index.is_on_disk(),
        }
    }

    /// The ids of the points between two bounds, ascending by value and
    /// then by id.
    pub fn values_range(&self, start: Bound<Point<T>>, end: Bound<Point<T>>) -> (ids: Vec<
        PointOffsetType,
    >)
        requires
            self.wf(),
        ensures
            ids@ == ids_of(range_of(self.points(), start, end)),
    {
        match self {
            NumericIndexInner::Mutable(index) => index.map().values_range(start, end),
            NumericIndexInner::Immutable(index) => index.map().values_range(start, end),
            NumericIndexInner::Mmap(index) => index.values_range(start, end),
        }
    }

    /// The number of points between two bounds.
    pub fn values_range_size(&self, start: Bound<Point<T>>, end: Bound<Point<T>>) -> (n: usize)
        requires
            self.wf(),
        ensures
            n == range_of(self.points(), start, end).len(),
    {
        match self {
            NumericIndexInner::Mutable(index) => index.map().values_range_size(start, end),
            NumericIndexInner::Immutable(index) => index.map().values_range_size(start, end),
            NumericIndexInner::Mmap(index) => index.values_range_size(start, end),
        }
    }

    /// The ids of the points that carry `value`, ascending.
    pub fn point_ids_by_value(&self, value: T) -> (ids: Vec<PointOffsetType>)
        requires
            self.wf(),
        ensures
            ids@ == ids_of(
                range_of(
                    self.points(),
                    value_start(Bound::Included(value)),
                    value_end(Bound::Included(value)),
                ),
            ),
    {
        let start = Bound::Included(Point::new(value, PointOffsetType::MIN));
        let end = Bound::Included(Point::new(value, PointOffsetType::MAX));
        self.values_range(start, end)
    }

    /// The number of points expected to carry `value`, and the charge for
    /// two binary searches over the stored values.
    pub fn estimate_points(&self, value: &T, hw_counter: &mut HardwareCounterCell) -> (n: usize)
        requires
            self.wf(),
        ensures
            *final(hw_counter) == old(hw_counter).read_more(
                (2 * ceil_log2(self.total_values())) as usize,
            ),
            ({
                let within = range_of(
                    self.points(),
                    value_start(Bound::Included(*value)),
                    value_end(Bound::Included(*value)),
                );
                n == if self is Mutable {
                    endpoint_estimate(within)
                } else {
                    ratio_estimate(within.len(), self.points_count(), self.total_values())
                }
            }),
    {
        let start = Bound::Included(Point::new(*value, PointOffsetType::MIN));
        let end = Bound::Included(Point::new(*value, PointOffsetType::MAX));
        hw_counter.incr_read(2 * compute_ceil_log2(self.total_unique_values_count()));
        match self {
            NumericIndexInner::Mutable(mutable) => {
                let (first, last) = mutable.map().range_endpoints(start, end);
                estimate_from_endpoints(first, last)
            },
            NumericIndexInner::Immutable(immutable) => {
                let range_size: usize = immutable.map().values_range_size(start, end);
                estimate_from_range_size(
                    range_size,
                    self.get_points_count(),
                    self.total_unique_values_count(),
                )
            },
            NumericIndexInner::Mmap(mmap) => {
                let range_size: usize = mmap.values_range_size(start, end);
                estimate_from_range_size(
                    range_size,
                    self.get_points_count(),
                    self.total_unique_values_count(),
                )
            },
        }
    }

    /// What the index reports about itself.
    pub fn get_telemetry_data(&self) -> (t: PayloadIndexTelemetry)
        requires
            self.wf(),
        ensures
            t.field_name.is_none(),
            t.points_count == self.points_count(),
            t.points_values_count == self.points().len(),
            t.histogram_bucket_size == Some(
                if self.points().len() == 0 {
                    0usize
                } else {
                    1usize
                },
            ),
            t.index_type@ == match self {
                NumericIndexInner::Mutable(_) => "mutable_numeric"@,
                NumericIndexInner::Immutable(_) => "immutable_numeric"@,
                NumericIndexInner::Mmap(_) => "mmap_numeric"@,
            },
    {
        PayloadIndexTelemetry {
            field_name: None,
            points_count: self.get_points_count(),
            points_values_count: self.get_histogram().get_total_count(),
            histogram_bucket_size: Some(self.get_histogram().current_bucket_size()),
            index_type: match self {
                NumericIndexInner::Mutable(_) => "mutable_numeric",
                NumericIndexInner::Immutable(_) => "immutable_numeric",
                NumericIndexInner::Mmap(_) => "mmap_numeric",
            },
        }
    }

    /// The number of indexed values that a range condition selects.
    pub open spec fn range_count(&self, range: RangeInterface<T>) -> nat {
        count_between(
            self.points(),
            lower_bound(range_keys(range)),
            upper_bound(range_keys(range)),
        )
    }

    /// The values of every point as queries see them: those of a
    /// tombstoned point are hidden.
    pub open spec fn seen_lists(&self) -> Seq<Seq<T>> {
        match self {
            NumericIndexInner::Mmap(index) => crate::mmap_numeric_index::live_lists(
                index.point_values(),
                index.deleted_bits(),
            ),
            _ => self.lists(),
        }
    }

    /// Whether the tombstones of a store in a file are in order: the
    /// bitmap reaches every point, marks nothing beyond them and marks
    /// every point without values. A build leaves them so, and the
    /// removal of a point that the store holds keeps them so. A store in
    /// memory has no tombstones.
    pub open spec fn tombstones_in_order(&self) -> bool {
        match self {
            NumericIndexInner::Mmap(index) => crate::laws::tombstones_cover(
                index.point_values(),
                index.deleted_bits(),
            ),
            _ => true,
        }
    }

    /// The number of points that queries see with a value that a range
    /// condition selects.
    pub open spec fn range_points(&self, range: RangeInterface<T>) -> nat {
        crate::laws::points_between(
            self.seen_lists(),
            lower_bound(range_keys(range)),
            upper_bound(range_keys(range)),
        )
    }

    /// Whether `(min, exp, max)` is the cardinality of a range condition,
    /// for some estimate that `estimator` may give of the number of
    /// distinct points among the values selected.
    pub open spec fn is_range_cardinality<F: Fn(usize, usize, usize) -> usize>(
        &self,
        range: RangeInterface<T>,
        estimator: &F,
        min: usize,
        exp: usize,
        max: usize,
    ) -> bool {
        if self.max_values() == 0 {
            min == 0 && exp == 0 && max == 0
        } else {
            let count = self.range_count(range);
            exists|estimation: usize|
                {
                    &&& #[trigger] estimator.ensures(
                        (self.points_count() as usize, self.total_values() as usize, count as usize),
                        estimation,
                    )
                    &&& min == expected_min(
                        count,
                        self.points_count(),
                        self.total_values(),
                        self.max_values(),
                    )
                    &&& max == expected_max(count, self.points_count())
                    &&& exp == expected_exp(estimation as nat, min as nat, max as nat)
                }
        }
    }

    /// Bounds and expectation of the number of points that a range
    /// condition selects. The histogram counts the values in the range;
    /// `estimator` is asked how many distinct points to expect among that
    /// many values, given the number of points and of values in the
    /// index. The upper bound never exceeds the points that count as
    /// indexed, nor the lower bound the values in the range. In a store
    /// in memory, and in a store in a file whose tombstones are in order,
    /// the three are in order, lower bound first, and the number of
    /// points seen with a value in the range lies between the two bounds.
    pub fn range_cardinality<F: Fn(usize, usize, usize) -> usize>(
        &self,
        range: &RangeInterface<T>,
        estimator: &F,
    ) -> (r: CardinalityEstimation<T>)
        requires
            self.wf(),
            forall|p: usize, u: usize, e: usize| estimator.requires((p, u, e)),
        ensures
            r.primary_clauses@ == Seq::<PrimaryCondition<T>>::empty(),
            self.is_range_cardinality(*range, estimator, r.min, r.exp, r.max),
            r.exp <= r.max,
            r.max <= self.points_count(),
            r.min <= self.range_count(*range),
            r.min <= r.max ==> r.min <= r.exp,
            self.tombstones_in_order() ==> r.min <= r.exp,
            self.tombstones_in_order() ==> r.min <= self.range_points(*range) <= r.max,
    {
        let max_values_per_point: usize = self.max_values_per_point();
        if max_values_per_point == 0 {
            proof {
                let keys = range_keys(*range);
                let keep = |p: Point<T>| crate::sorted_points::in_range(p, value_start(lower_bound(keys)), value_end(upper_bound(keys)));
                match self {
                    NumericIndexInner::Mutable(index) => {
                        index@.lemma_wf();
                        crate::pairing::lemma_pairs_bounded(index@.points(), index@.point_values(), 0);
                        crate::pairing::lemma_points_not_fewer(index@.points(), index@.point_values());
                    },
                    NumericIndexInner::Immutable(index) => {
                        index@.lemma_wf();
                        crate::pairing::lemma_pairs_bounded(index@.points(), index@.point_values(), 0);
                        crate::pairing::lemma_points_not_fewer(index@.points(), index@.point_values());
                    },
                    NumericIndexInner::Mmap(index) => {
                        index.lemma_wf();
                        let shown = self.seen_lists();
                        assert forall|i: int| 0 <= i < shown.len() implies (#[trigger] shown[i]).len()
                            <= 0 by {
                            crate::in_memory_numeric_index::lemma_longest_list_bounds(
                                index.point_values(),
                                i,
                            );
                        }
                        crate::pairing::lemma_pairs_bounded(index.points(), shown, 0);
                        crate::pairing::lemma_points_not_fewer(index.points(), shown);
                    },
                }
                crate::pairing::lemma_count_kept(self.seen_lists(), keep);
            }
            return CardinalityEstimation::exact(0);
        }
        proof {
            let keys = range_keys(*range);
            match self {
                NumericIndexInner::Mutable(index) => {
                    index@.lemma_wf();
                    crate::laws::lemma_cardinality_is_ordered(
                        index@.points(),
                        index@.point_values(),
                        index@.max_values(),
                        lower_bound(keys),
                        upper_bound(keys),
                    );
                    crate::laws::lemma_cardinality_brackets(
                        index@.points(),
                        index@.point_values(),
                        index@.max_values(),
                        lower_bound(keys),
                        upper_bound(keys),
                    );
                },
                NumericIndexInner::Immutable(index) => {
                    index@.lemma_wf();
                    crate::laws::lemma_cardinality_is_ordered(
                        index@.points(),
                        index@.point_values(),
                        index@.max_values(),
                        lower_bound(keys),
                        upper_bound(keys),
                    );
                    crate::laws::lemma_cardinality_brackets(
                        index@.points(),
                        index@.point_values(),
                        index@.max_values(),
                        lower_bound(keys),
                        upper_bound(keys),
                    );
                },
                NumericIndexInner::Mmap(index) => {
                    let count = self.range_count(*range);
                    assert(count / self.max_values() <= count) by (nonlinear_arith)
                        requires
                            self.max_values() > 0,
                            count >= 0,
                    ;
                    if self.tombstones_in_order() {
                        index.lemma_wf();
                        assert forall|i: int| 0 <= i < index.point_values().len() implies (
                        #[trigger] index.point_values()[i]).len() <= index.max_values() by {
                            crate::in_memory_numeric_index::lemma_longest_list_bounds(
                                index.point_values(),
                                i,
                            );
                        }
                        crate::laws::lemma_cardinality_brackets_live(
                            index.stored(),
                            index.point_values(),
                            index.deleted_bits(),
                            index.max_values(),
                            lower_bound(keys),
                            upper_bound(keys),
                        );
                    }
                },
            }
        }
        let keys = map_range(range);
        let lbound = range_upper_bound(&keys);
        let gbound = range_lower_bound(&keys);
        let histogram_estimation = self.get_histogram().estimate(gbound, lbound);
        let min_estimation: usize = histogram_estimation.0;
        let max_estimation: usize = histogram_estimation.2;
        let total_values: usize = self.total_unique_values_count();
        let points: usize = self.get_points_count();
        let estimation: usize = estimator(points, total_values, histogram_estimation.1);
        proof {
            assert(self.points_count() as usize == points);
            assert(self.total_values() as usize == total_values);
            assert(self.range_count(*range) as usize == histogram_estimation.1);
            assert(estimator.ensures(
                (
                    self.points_count() as usize,
                    self.total_values() as usize,
                    self.range_count(*range) as usize,
                ),
                estimation,
            ));
        }
        cardinality_from_estimates(
            points,
            total_values,
            max_values_per_point,
            min_estimation,
            max_estimation,
            estimation,
        )
    }

    /// The bounds between which a range condition selects points.
    pub open spec fn range_bounds(range: RangeInterface<T>) -> (Bound<Point<T>>, Bound<Point<T>>) {
        (value_start(lower_bound(range_keys(range))), value_end(upper_bound(range_keys(range))))
    }

    /// What a filter selects, given the UUID that the keyword of the
    /// condition parses to, if any: the points that carry the UUID, else
    /// the points in the range of the condition, else nothing to say.
    pub open spec fn filter_result(
        &self,
        uuid: Option<u128>,
        range: Option<RangeInterface<T>>,
    ) -> Option<Seq<PointOffsetType>> {
        match uuid {
            Some(uuid) => Some(
                ids_of(
                    range_of(
                        self.points(),
                        value_start(Bound::Included(T::spec_from_u128(uuid))),
                        value_end(Bound::Included(T::spec_from_u128(uuid))),
                    ),
                ),
            ),
            None => match range {
                Some(range) => Some(
                    ids_of(
                        range_of(self.points(), Self::range_bounds(range).0, Self::range_bounds(range).1),
                    ),
                ),
                None => None,
            },
        }
    }

    /// The ids that a condition selects, for a keyword already parsed.
    /// A range that cannot hold anything selects nothing.
    pub fn filter_parsed(&self, uuid: Option<u128>, range: &Option<RangeInterface<T>>) -> (r:
        Option<Vec<PointOffsetType>>)
        requires
            self.wf(),
        ensures
            r.is_some() == self.filter_result(uuid, *range).is_some(),
            r matches Some(ids) ==> ids@ == self.filter_result(uuid, *range).unwrap(),
    {
        if let Some(uuid) = uuid {
            let value = T::from_u128(uuid);
            return Some(self.point_ids_by_value(value));
        }
        let range_cond = match range {
            Some(range_cond) => range_cond,
            None => {
                return None;
            },
        };
        let (start_bound, end_bound) = map_range(range_cond).as_index_key_bounds();
        if !check_boundaries(&start_bound, &end_bound) {
            proof {
                lemma_invalid_bounds_select_nothing(self.points(), start_bound, end_bound);
            }
            let none: Vec<PointOffsetType> = Vec::new();
            assert(none@ =~= ids_of(Seq::<Point<T>>::empty()));
            return Some(none);
        }
        Some(self.values_range(start_bound, end_bound))
    }

    /// The ids of the points that a condition selects: those that carry
    /// the UUID of a keyword match, else those in the range of the
    /// condition. `None` for a condition that is neither.
    pub fn filter(&self, condition: &FieldCondition<T>) -> (r: Option<Vec<PointOffsetType>>)
        requires
            self.wf(),
        ensures
            r.is_some() == self.filter_result(condition_uuid(*condition), condition.range).is_some(),
            r matches Some(ids) ==> ids@ == self.filter_result(
                condition_uuid(*condition),
                condition.range,
            ).unwrap(),
    {
        let uuid = parse_condition_uuid(condition);
        self.filter_parsed(uuid, &condition.range)
    }

    /// The `(value, id)` pairs in the range of a condition, ascending;
    /// read it from either end.
    pub fn stream_pairs(&self, range: &RangeInterface<T>) -> (pairs: Vec<(T, PointOffsetType)>)
        requires
            self.wf(),
        ensures
            pairs@ == pairs_of(
                range_of(self.points(), Self::range_bounds(*range).0, Self::range_bounds(*range).1),
            ),
    {
        let (start_bound, end_bound) = map_range(range).as_index_key_bounds();
        if !check_boundaries(&start_bound, &end_bound) {
            proof {
                lemma_invalid_bounds_select_nothing(self.points(), start_bound, end_bound);
            }
            let none: Vec<(T, PointOffsetType)> = Vec::new();
            assert(none@ =~= pairs_of(Seq::<Point<T>>::empty()));
            return none;
        }
        match self {
            NumericIndexInner::Mutable(index) => index.map().orderable_values_range(
                start_bound,
                end_bound,
            ),
            NumericIndexInner::Immutable(index) => index.map().orderable_values_range(
                start_bound,
                end_bound,
            ),
            NumericIndexInner::Mmap(index) => index.orderable_values_range(start_bound, end_bound),
        }
    }

    /// The estimate that `estimate_points` gives for a value.
    pub open spec fn points_estimate(&self, value: T) -> nat {
        let within = range_of(
            self.points(),
            value_start(Bound::Included(value)),
            value_end(Bound::Included(value)),
        );
        if self is Mutable {
            endpoint_estimate(within)
        } else {
            ratio_estimate(within.len(), self.points_count(), self.total_values())
        }
    }

    /// The number of points that carry `value`: the ids that a lookup of
    /// the value yields, each of them once.
    pub open spec fn carriers(&self, value: T) -> nat {
        range_of(
            self.points(),
            value_start(Bound::Included(value)),
            value_end(Bound::Included(value)),
        ).len()
    }

    /// Whether `(min, exp, max)` is the cardinality of a match of
    /// `value`: the expectation is the estimate that `estimate_points`
    /// gives, and the bounds reach from it to the number of points that
    /// carry the value, so that they always hold that number.
    pub open spec fn is_match_cardinality(&self, value: T, min: usize, exp: usize, max: usize)
        -> bool {
        &&& exp == self.points_estimate(value)
        &&& min == smaller(self.points_estimate(value), self.carriers(value))
        &&& max == larger(self.points_estimate(value), self.carriers(value))
    }

    /// The estimate for a condition whose keyword was parsed already. For
    /// a UUID the expectation is the estimated number of points that
    /// carry it, and the bounds hold the number of ids that a filter on
    /// the condition yields. For a range condition it is the cardinality
    /// of the range. For a condition that is neither there is none. The
    /// estimate rests on the condition.
    pub fn estimate_cardinality_parsed<F: Fn(usize, usize, usize) -> usize>(
        &self,
        uuid: Option<u128>,
        condition: &FieldCondition<T>,
        hw_counter: &mut HardwareCounterCell,
        estimator: &F,
    ) -> (r: Option<CardinalityEstimation<T>>)
        requires
            self.wf(),
            forall|p: usize, u: usize, e: usize| estimator.requires((p, u, e)),
        ensures
            r.is_some() <==> uuid.is_some() || condition.range.is_some(),
            r matches Some(estimation) ==> {
                &&& estimation.primary_clauses@.len() == 1
                &&& estimation.primary_clauses@[0] matches PrimaryCondition::Condition(c) && *c
                    == *condition
            },
            uuid matches Some(uuid) ==> {
                &&& r matches Some(estimation) && self.is_match_cardinality(
                    T::spec_from_u128(uuid),
                    estimation.min,
                    estimation.exp,
                    estimation.max,
                ) && estimation.min <= self.filter_result(Some(uuid), condition.range).unwrap().len()
                    <= estimation.max
                &&& *final(hw_counter) == old(hw_counter).read_more(
                    (2 * ceil_log2(self.total_values())) as usize,
                )
            },
            uuid.is_none() ==> {
                &&& *final(hw_counter) == *old(hw_counter)
                &&& r matches Some(estimation) ==> self.is_range_cardinality(
                    condition.range.unwrap(),
                    estimator,
                    estimation.min,
                    estimation.exp,
                    estimation.max,
                ) && estimation.exp <= estimation.max && estimation.max <= self.points_count()
                    && estimation.min <= self.range_count(condition.range.unwrap()) && (
                self.tombstones_in_order() ==> estimation.min <= estimation.exp && estimation.min
                    <= self.range_points(condition.range.unwrap()) <= estimation.max)
            },
    {
        if let Some(uuid) = uuid {
            let key = T::from_u128(uuid);
            let estimated_count: usize = self.estimate_points(&key, hw_counter);
            let carriers: usize = self.values_range_size(
                Bound::Included(Point::new(key, PointOffsetType::MIN)),
                Bound::Included(Point::new(key, PointOffsetType::MAX)),
            );
            let estimation = CardinalityEstimation {
                primary_clauses: Vec::new(),
                min: if estimated_count <= carriers {
                    estimated_count
                } else {
                    carriers
                },
                exp: estimated_count,
                max: if estimated_count >= carriers {
                    estimated_count
                } else {
                    carriers
                },
            };
            return Some(
                estimation.with_primary_clause(
                    PrimaryCondition::Condition(Box::new(condition.duplicate())),
                ),
            );
        }
        match &condition.range {
            Some(range) => {
                let cardinality = self.range_cardinality(range, estimator);
                Some(
                    cardinality.with_primary_clause(
                        PrimaryCondition::Condition(Box::new(condition.duplicate())),
                    ),
                )
            },
            None => None,
        }
    }

    /// The estimate of the number of points that a condition selects.
    pub fn estimate_cardinality<F: Fn(usize, usize, usize) -> usize>(
        &self,
        condition: &FieldCondition<T>,
        hw_counter: &mut HardwareCounterCell,
        estimator: &F,
    ) -> (r: Option<CardinalityEstimation<T>>)
        requires
            self.wf(),
            forall|p: usize, u: usize, e: usize| estimator.requires((p, u, e)),
        ensures
            r.is_some() <==> condition_uuid(*condition).is_some() || condition.range.is_some(),
            r matches Some(estimation) ==> {
                &&& estimation.primary_clauses@.len() == 1
                &&& estimation.primary_clauses@[0] matches PrimaryCondition::Condition(c) && *c
                    == *condition
            },
            condition_uuid(*condition) matches Some(uuid) ==> {
                &&& r matches Some(estimation) && self.is_match_cardinality(
                    T::spec_from_u128(uuid),
                    estimation.min,
                    estimation.exp,
                    estimation.max,
                ) && estimation.min <= self.filter_result(Some(uuid), condition.range).unwrap().len()
                    <= estimation.max
                &&& *final(hw_counter) == old(hw_counter).read_more(
                    (2 * ceil_log2(self.total_values())) as usize,
                )
            },
            condition_uuid(*condition).is_none() ==> {
                &&& *final(hw_counter) == *old(hw_counter)
                &&& r matches Some(estimation) ==> self.is_range_cardinality(
                    condition.range.unwrap(),
                    estimator,
                    estimation.min,
                    estimation.exp,
                    estimation.max,
                ) && estimation.exp <= estimation.max && estimation.max <= self.points_count()
                    && estimation.min <= self.range_count(condition.range.unwrap()) && (
                self.tombstones_in_order() ==> estimation.min <= estimation.exp && estimation.min
                    <= self.range_points(condition.range.unwrap()) <= estimation.max)
            },
    {
        let uuid = parse_condition_uuid(condition);
        self.estimate_cardinality_parsed(uuid, condition, hw_counter, estimator)
    }

    /// The ranges of the blocks that `payload_blocks` gives for a
    /// threshold.
    pub open spec fn block_ranges_for(&self, threshold: usize) -> Seq<Range<T>> {
        block_ranges(
            self.points(),
            Bound::<T>::Unbounded,
            effective_threshold(threshold as nat, self.total_values(), self.points_count()) / 2,
        )
    }

    /// Whether `block` is the block of `key` over `range`: it asks for
    /// the range and nothing else, and it expects the cardinality of the
    /// range, or every point where it is the only block.
    pub open spec fn is_block<F: Fn(usize, usize, usize) -> usize>(
        &self,
        block: PayloadBlockCondition<T>,
        key: String,
        range: Range<T>,
        alone: bool,
        estimator: &F,
    ) -> bool {
        &&& block.condition.key == key
        &&& block.condition.matcher.is_none()
        &&& block.condition.range == Some(RangeInterface::Numeric(range))
        &&& if alone {
            block.cardinality == self.points_count()
        } else {
            exists|min: usize, max: usize|
                #[trigger] self.is_range_cardinality(
                    RangeInterface::Numeric(range),
                    estimator,
                    min,
                    block.cardinality,
                    max,
                )
        }
    }

    /// Splits the value domain into blocks that follow one another
    /// without gap or overlap, each aiming at half of `threshold` points'
    /// worth of values. The histogram is walked from the bottom: every
    /// block ends where enough values lie above its start, and the next
    /// starts right after; the last block has no end. Where the first
    /// block has no end either, it is the only one and expects every
    /// point.
    pub fn payload_blocks<F: Fn(usize, usize, usize) -> usize>(
        &self,
        threshold: usize,
        key: String,
        estimator: &F,
    ) -> (blocks: Vec<PayloadBlockCondition<T>>)
        requires
            self.wf(),
            forall|p: usize, u: usize, e: usize| estimator.requires((p, u, e)),
        ensures
            blocks@.len() == self.block_ranges_for(threshold).len(),
            blocks@.len() >= 1,
            forall|i: int|
                0 <= i < blocks@.len() ==> self.is_block(
                    #[trigger] blocks@[i],
                    key,
                    self.block_ranges_for(threshold)[i],
                    blocks@.len() == 1,
                    estimator,
                ),
    {
        let total_values: usize = self.total_unique_values_count();
        let points: usize = self.get_points_count();
        let effective: usize = compute_effective_threshold(threshold, total_values, points);
        let step: usize = effective / 2;
        let ghost all = self.block_ranges_for(threshold);
        let ghost s = self.points();
        let mut lower_bound: Bound<T> = Bound::Unbounded;
        let mut payload_conditions: Vec<PayloadBlockCondition<T>> = Vec::new();
        let mut done: bool = false;
        let mut first: bool = true;
        assert(all =~= Seq::<Range<T>>::empty() + block_ranges(s, lower_bound, step as nat));
        while !done
            invariant
                self.wf(),
                s == self.points(),
                all == self.block_ranges_for(threshold),
                points == self.points_count(),
                forall|p: usize, u: usize, e: usize| estimator.requires((p, u, e)),
                first == (payload_conditions@.len() == 0),
                !done ==> payload_conditions@.len() < all.len(),
                !done ==> all == all.take(payload_conditions@.len() as int) + block_ranges(
                    s,
                    lower_bound,
                    step as nat,
                ),
                done ==> payload_conditions@.len() == all.len() && all.len() >= 1,
                forall|i: int|
                    0 <= i < payload_conditions@.len() ==> self.is_block(
                        #[trigger] payload_conditions@[i],
                        key,
                        all[i],
                        all.len() == 1,
                        estimator,
                    ),
            decreases
                    if done {
                        0
                    } else {
                        points_above(s, lower_bound).len() + 1
                    },
        {
            let upper_bound = self.get_histogram().get_range_by_size(lower_bound, step);
            let range = make_range(&lower_bound, &upper_bound);
            let ghost emitted = payload_conditions@.len() as int;
            let ghost rest = block_ranges(s, lower_bound, step as nat);
            proof {
                lemma_step_makes_progress(s, lower_bound, step as nat);
                assert(rest[0] == range);
                assert(all[emitted] == range);
            }
            let alone: bool = first && match upper_bound {
                Bound::Unbounded => true,
                _ => false,
            };
            proof {
                if upper_bound is Unbounded {
                    assert(rest =~= seq![range]);
                    assert(all.len() == emitted + 1);
                } else {
                    let next = block_ranges(s, Bound::Excluded(upper_bound->Included_0), step as nat);
                    assert(rest =~= seq![range] + next);
                    crate::blocks::lemma_blocks_partition(
                        s,
                        Bound::Excluded(upper_bound->Included_0),
                        step as nat,
                    );
                    assert(all.len() == emitted + 1 + next.len());
                    assert(all =~= all.take(emitted + 1) + next);
                }
                assert(alone == (all.len() == 1));
            }
            let mut cardinality: usize = points;
            let ghost mut bounds: (usize, usize) = (0, 0);
            if !alone {
                let estimate = self.range_cardinality(&RangeInterface::Numeric(range), estimator);
                cardinality = estimate.exp;
                proof {
                    bounds = (estimate.min, estimate.max);
                }
            }
            assert(!alone ==> self.is_range_cardinality(
                RangeInterface::Numeric(range),
                estimator,
                bounds.0,
                cardinality,
                bounds.1,
            ));
            let condition = PayloadBlockCondition {
                condition: FieldCondition::new_range(key.clone(), range),
                cardinality,
            };
            assert(condition.cardinality == cardinality);
            assert(alone == (all.len() == 1));
            assert(alone ==> condition.cardinality == self.points_count());
            assert(!alone ==> self.is_range_cardinality(
                RangeInterface::Numeric(range),
                estimator,
                bounds.0,
                condition.cardinality,
                bounds.1,
            ));
            assert(condition.condition.key == key);
            assert(condition.condition.matcher.is_none());
            assert(condition.condition.range == Some(RangeInterface::Numeric(range)));
            assert(self.is_block(condition, key, range, all.len() == 1, estimator));
            payload_conditions.push(condition);
            first = false;
            match upper_bound {
                Bound::Included(val) => {
                    lower_bound = Bound::Excluded(val);
                },
                Bound::Excluded(val) => {
                    lower_bound = Bound::Excluded(val);
                },
                Bound::Unbounded => {
                    done = true;
                },
            }
        }
        payload_conditions
    }

    /// The number of points that count as indexed.
    pub fn count_indexed_points(&self) -> (n: usize)
        requires
            self.wf(),
        ensures
            n == self.points_count(),
    {
        self.get_points_count()
    }
}

/// An index that can hand out the `(value, id)` pairs of a range in
/// order, for reading from either end.
pub trait StreamRange<T: Numericable> {
    /// Whether the index is in a state to be read.
    spec fn stream_ready(&self) -> bool;

    /// The `(value, id)` pairs of a range, ascending by value and then by
    /// id.
    spec fn streamed(&self, range: RangeInterface<T>) -> Seq<(T, PointOffsetType)>;

    fn stream_range(&self, range: &RangeInterface<T>) -> (pairs: Vec<(T, PointOffsetType)>)
        requires
            self.stream_ready(),
        ensures
            pairs@ == self.streamed(*range),
    ;
}

impl<T: Numericable> StreamRange<T> for NumericIndexInner<T> {
    open spec fn stream_ready(&self) -> bool {
        self.wf()
    }

    open spec fn streamed(&self, range: RangeInterface<T>) -> Seq<(T, PointOffsetType)> {
        pairs_of(range_of(self.points(), Self::range_bounds(range).0, Self::range_bounds(range).1))
    }

    fn stream_range(&self, range: &RangeInterface<T>) -> (pairs: Vec<(T, PointOffsetType)>) {
        self.stream_pairs(range)
    }
}

/// The name under which a key-value store keeps the numeric index of a
/// field.
pub fn numeric_index_storage_cf_name(field: &str) -> (name: String)
    ensures
        name@ == field@ + "_numeric"@,
{
    let name = String::from_str(field);
    name.concat("_numeric")
}

} // verus!
