//! What holds of the indexes across their operations.

use vstd::prelude::*;
use crate::bitslice::count_true;
use crate::blocks::lemma_filter_index;
use crate::encodable::Encodable;
use crate::histogram::value_end;
use crate::histogram::value_start;
use crate::in_memory_numeric_index::count_nonempty;
use crate::mmap_hashmap::MapIndexKey;
use crate::mmap_hashmap::MmapHashMap;
use crate::mmap_map_index::is_kept;
use crate::mmap_map_index::kept_ids;
use crate::mmap_map_index::MmapMapIndex;
use crate::mmap_numeric_index::empty_flags;
use crate::mmap_numeric_index::is_live;
use crate::sorted_points::ids_of;
use crate::sorted_points::lemma_filter_agree;
use crate::sorted_points::range_of;
use crate::types::Bound;
use crate::types::Point;
use crate::types::PointOffsetType;

verus! {

/// Whether a point is listed under the key with the given bytes.
pub open spec fn is_listed<N: MapIndexKey>(
    keys: Seq<N>,
    ids: Seq<Seq<PointOffsetType>>,
    bytes: Seq<u8>,
    id: PointOffsetType,
) -> bool {
    exists|e: int|
        0 <= e < keys.len() && (#[trigger] keys[e]).key_bytes() == bytes && ids[e].contains(id)
}

/// Whether the id lists list every point under each of its values.
pub open spec fn lists_invert<N: MapIndexKey>(
    values: Seq<N>,
    ids: Seq<Seq<PointOffsetType>>,
    point_to_values: Seq<Seq<N>>,
) -> bool {
    forall|id: int, k: int|
        0 <= id < point_to_values.len() && 0 <= k < point_to_values[id].len() ==> is_listed(
            values,
            ids,
            (#[trigger] point_to_values[id][k]).key_bytes(),
            id as PointOffsetType,
        )
}

/// Whether the table lists every point under each of its values.
pub open spec fn table_inverts<N: MapIndexKey>(
    table: MmapHashMap<N>,
    point_to_values: Seq<Seq<N>>,
) -> bool {
    lists_invert(table.keys(), table.values(), point_to_values)
}

/// A lookup finds every point under each of its values, for as long as
/// the point is not tombstoned: if the table lists every point under each
/// of its values, then looking up a value of a point yields that point.
pub proof fn lemma_lookup_is_complete<N: MapIndexKey>(
    index: MmapMapIndex<N>,
    id: PointOffsetType,
    k: int,
)
    requires
        index.wf(),
        index.has_storage(),
        table_inverts(index.table(), index.point_values()),
        id < index.point_values().len(),
        0 <= k < index.point_values()[id as int].len(),
        is_kept(index.deleted_bits(), id),
    ensures
        index.iterator_ids(index.point_values()[id as int][k]).contains(id),
{
    index.lemma_wf();
    let table = index.table();
    let value = index.point_values()[id as int][k];
    assert(is_listed(table.keys(), table.values(), value.key_bytes(), id));
    let e = choose|e: int|
        0 <= e < table.keys().len() && (#[trigger] table.keys()[e]).key_bytes()
            == value.key_bytes() && table.values()[e].contains(id);
    table.lemma_entry(e);
    table.lemma_wf();
    let ids = table.values()[e];
    let at = choose|at: int| 0 <= at < ids.len() && ids[at] == id;
    ids.lemma_filter_contains(|x: PointOffsetType| is_kept(index.deleted_bits(), x), at);
}

/// A point without values is hidden as soon as the index is built: under
/// the tombstones that a build sets, such a point has no visible values.
pub proof fn lemma_empty_points_are_hidden<N: MapIndexKey>(
    index: MmapMapIndex<N>,
    id: PointOffsetType,
)
    requires
        index.deleted_bits() == empty_flags(index.point_values(), index.deleted_bits().len()),
        index.deleted_bits().len() >= index.point_values().len(),
        id < index.point_values().len(),
        index.point_values()[id as int].len() == 0,
    ensures
        index.values_of(id).is_none(),
        !is_live(index.deleted_bits(), id),
{
}

/// Under the tombstones that a build sets, a point with values is
/// visible.
pub proof fn lemma_filled_points_are_visible<N: MapIndexKey>(
    index: MmapMapIndex<N>,
    id: PointOffsetType,
)
    requires
        index.deleted_bits() == empty_flags(index.point_values(), index.deleted_bits().len()),
        index.deleted_bits().len() >= index.point_values().len(),
        id < index.point_values().len(),
        index.point_values()[id as int].len() > 0,
    ensures
        index.values_of(id) == Some(index.point_values()[id as int]),
        is_kept(index.deleted_bits(), id),
{
}

/// A lookup never yields a tombstoned point: whatever ids a value lists,
/// a point the index knows is not among the ids kept once its tombstone
/// is set.
pub proof fn lemma_removed_point_is_not_found(
    ids: Seq<PointOffsetType>,
    deleted: Seq<bool>,
    id: PointOffsetType,
)
    requires
        id < deleted.len(),
    ensures
        !kept_ids(ids, deleted.update(id as int, true)).contains(id),
        deleted[id as int] ==> !kept_ids(ids, deleted).contains(id),
{
    let after = deleted.update(id as int, true);
    let kept = kept_ids(ids, after);
    if kept.contains(id) {
        let j = choose|j: int| 0 <= j < kept.len() && kept[j] == id;
        let i = lemma_filter_index(ids, |x: PointOffsetType| is_kept(after, x), j);
    }
    let kept_now = kept_ids(ids, deleted);
    if deleted[id as int] && kept_now.contains(id) {
        let j = choose|j: int| 0 <= j < kept_now.len() && kept_now[j] == id;
        let i = lemma_filter_index(ids, |x: PointOffsetType| is_kept(deleted, x), j);
    }
}

/// The tombstones that a build sets are as many as the points without
/// values.
pub proof fn lemma_build_tombstones_count<N>(lists: Seq<Seq<N>>, len: nat)
    requires
        len >= lists.len(),
    ensures
        count_true(empty_flags(lists, len)) + count_nonempty(lists) == lists.len(),
    decreases len,
{
    let flags = empty_flags(lists, len);
    if len == 0 {
        assert(lists =~= Seq::<Seq<N>>::empty());
    } else if len > lists.len() {
        assert(flags.drop_last() =~= empty_flags(lists, (len - 1) as nat));
        lemma_build_tombstones_count(lists, (len - 1) as nat);
    } else {
        let rest = lists.drop_last();
        assert(flags.drop_last() =~= empty_flags(rest, (len - 1) as nat));
        lemma_build_tombstones_count(rest, (len - 1) as nat);
    }
}

/// A range from the lowest to the highest id of one value selects
/// exactly the points that carry the value.
pub proof fn lemma_value_range_selects_carriers<T: Encodable>(s: Seq<Point<T>>, value: T)
    ensures
        range_of(s, value_start(Bound::Included(value)), value_end(Bound::Included(value)))
            == s.filter(|p: Point<T>| p.val.order_key() == value.order_key()),
        ids_of(range_of(s, value_start(Bound::Included(value)), value_end(Bound::Included(value))))
            == ids_of(s.filter(|p: Point<T>| p.val.order_key() == value.order_key())),
{
    lemma_filter_agree(
        s,
        |p: Point<T>|
            crate::sorted_points::in_range(
                p,
                value_start(Bound::Included(value)),
                value_end(Bound::Included(value)),
            ),
        |p: Point<T>| p.val.order_key() == value.order_key(),
    );
}

/// A table that holds keys with the bytes of the values it was built
/// from, with their id lists, lists every point under each of its values
/// if the id lists do.
pub proof fn lemma_built_table_inverts<N: MapIndexKey>(
    table: MmapHashMap<N>,
    values: Seq<N>,
    ids: Seq<Seq<PointOffsetType>>,
    point_to_values: Seq<Seq<N>>,
)
    requires
        lists_invert(values, ids, point_to_values),
        table.keys().len() == values.len(),
        forall|e: int|
            0 <= e < values.len() ==> (#[trigger] table.keys()[e]).key_bytes()
                == values[e].key_bytes(),
        table.values() == ids,
    ensures
        table_inverts(table, point_to_values),
{
    assert forall|id: int, k: int|
        0 <= id < point_to_values.len() && 0 <= k < point_to_values[id].len() implies is_listed(
        table.keys(),
        table.values(),
        (#[trigger] point_to_values[id][k]).key_bytes(),
        id as PointOffsetType,
    ) by {
        let bytes = point_to_values[id][k].key_bytes();
        assert(is_listed(values, ids, bytes, id as PointOffsetType));
        let e = choose|e: int|
            0 <= e < values.len() && (#[trigger] values[e]).key_bytes() == bytes
                && ids[e].contains(id as PointOffsetType);
        assert(table.keys()[e].key_bytes() == values[e].key_bytes());
    }
}

/// Building twice from the same values and id lists gives the same table
/// file, byte for byte; only the bytes of the values matter.
pub proof fn lemma_build_is_repeatable<N: MapIndexKey>(
    a: Seq<N>,
    b: Seq<N>,
    ids: Seq<Seq<PointOffsetType>>,
)
    requires
        a.len() == b.len(),
        forall|e: int| 0 <= e < a.len() ==> (#[trigger] a[e]).key_bytes() == b[e].key_bytes(),
    ensures
        crate::hashmap_file::table_file_of(a, ids) == crate::hashmap_file::table_file_of(b, ids),
{
    crate::hashmap_file::lemma_table_file_by_bytes(a, b, ids);
}

/// The lower bound of the cardinality of a range never exceeds the
/// number of ids that a filter on the range yields.
pub proof fn lemma_cardinality_minimum_is_sound<T: Encodable>(
    s: Seq<Point<T>>,
    from: Bound<T>,
    to: Bound<T>,
    points: nat,
    total_values: nat,
    max_values: nat,
)
    requires
        max_values > 0,
    ensures
        crate::numeric_index::expected_min(
            crate::histogram::count_between(s, from, to),
            points,
            total_values,
            max_values,
        ) <= ids_of(range_of(s, value_start(from), value_end(to))).len(),
        crate::numeric_index::expected_max(crate::histogram::count_between(s, from, to), points)
            <= points,
{
    let count = crate::histogram::count_between(s, from, to);
    assert(count / max_values <= count) by (nonlinear_arith)
        requires
            max_values > 0,
            count >= 0,
    ;
}

/// The key of a date-time is the key of its timestamp: the id survives
/// encoding and decoding, keys sort byte-wise as `(timestamp, id)` pairs
/// sort, and the value comes back as the date-time that its stored
/// timestamp decodes to.
pub proof fn lemma_datetime_key(
    a: crate::types::DateTimePayloadType,
    i: PointOffsetType,
    b: crate::types::DateTimePayloadType,
    j: PointOffsetType,
)
    ensures
        crate::key_encoding::key_id(crate::key_encoding::key_bytes(a.order_key(), 8, i), 8) == i,
        crate::types::DateTimePayloadType::from_order_key(
            crate::key_encoding::key_order_key(
                crate::key_encoding::key_bytes(a.order_key(), 8, i),
                8,
            ),
        ) == crate::encodable::datetime_of_timestamp(a.micros),
        crate::key_encoding::bytes_lt(
            crate::key_encoding::key_bytes(a.order_key(), 8, i),
            crate::key_encoding::key_bytes(b.order_key(), 8, j),
        ) <==> (a.micros < b.micros || (a.micros == b.micros && i < j)),
{
    crate::key_encoding::lemma_i64_key_round_trip(a.micros, i);
    crate::key_encoding::lemma_i64_key_order(a.micros, i, b.micros, j);
}

/// Whether every id listed under a value belongs to a point that carries
/// the value.
pub open spec fn lists_carry<N: MapIndexKey>(
    values: Seq<N>,
    ids: Seq<Seq<PointOffsetType>>,
    point_to_values: Seq<Seq<N>>,
) -> bool {
    forall|e: int, at: int|
        0 <= e < values.len() && 0 <= at < ids[e].len() ==> carries(
            point_to_values,
            #[trigger] ids[e][at],
            (#[trigger] values[e]).key_bytes(),
        )
}

/// Whether a point carries the value with the given bytes.
pub open spec fn carries<N: MapIndexKey>(
    point_to_values: Seq<Seq<N>>,
    id: PointOffsetType,
    bytes: Seq<u8>,
) -> bool {
    id < point_to_values.len() && exists|k: int|
        0 <= k < point_to_values[id as int].len() && (
        #[trigger] point_to_values[id as int][k]).key_bytes() == bytes
}

/// A table that holds keys with the bytes of the values it was built
/// from, with their id lists, lists only points that carry the value if
/// the id lists do.
pub proof fn lemma_built_table_carries<N: MapIndexKey>(
    table: MmapHashMap<N>,
    values: Seq<N>,
    ids: Seq<Seq<PointOffsetType>>,
    point_to_values: Seq<Seq<N>>,
)
    requires
        lists_carry(values, ids, point_to_values),
        table.keys().len() == values.len(),
        forall|e: int|
            0 <= e < values.len() ==> (#[trigger] table.keys()[e]).key_bytes()
                == values[e].key_bytes(),
        table.values() == ids,
    ensures
        lists_carry(table.keys(), table.values(), point_to_values),
{
    assert forall|e: int, at: int|
        0 <= e < table.keys().len() && 0 <= at < table.values()[e].len() implies carries(
        point_to_values,
        #[trigger] table.values()[e][at],
        (#[trigger] table.keys()[e]).key_bytes(),
    ) by {
        assert(carries(point_to_values, ids[e][at], values[e].key_bytes()));
    }
}

/// Every id that a lookup yields belongs to a point that carries the
/// value looked up, if the id lists the table was built from say so.
pub proof fn lemma_lookup_is_sound<N: MapIndexKey>(
    index: MmapMapIndex<N>,
    value: N,
    id: PointOffsetType,
)
    requires
        index.wf(),
        index.has_storage(),
        lists_carry(index.table().keys(), index.table().values(), index.point_values()),
        index.iterator_ids(value).contains(id),
    ensures
        carries(index.point_values(), id, value.key_bytes()),
        is_kept(index.deleted_bits(), id),
{
    index.lemma_wf();
    let table = index.table();
    table.lemma_wf();
    let bytes = value.key_bytes();
    let e = crate::mmap_hashmap::entry_of(table.keys(), bytes);
    let listed = table.values()[e];
    let kept = kept_ids(listed, index.deleted_bits());
    let j = choose|j: int| 0 <= j < kept.len() && kept[j] == id;
    let at = lemma_filter_index(listed, |x: PointOffsetType| is_kept(index.deleted_bits(), x), j);
    assert(table.keys()[e].key_bytes() == bytes);
    assert(carries(index.point_values(), listed[at], table.keys()[e].key_bytes()));
}

/// Whether ids are in ascending order, none twice.
pub open spec fn ids_ascending(ids: Seq<PointOffsetType>) -> bool {
    forall|a: int, b: int| 0 <= a < b < ids.len() ==> ids[a] < ids[b]
}

/// A lookup keeps the order of the list: of an ascending list it yields
/// an ascending list.
pub proof fn lemma_kept_ids_stay_ascending(ids: Seq<PointOffsetType>, deleted: Seq<bool>)
    requires
        ids_ascending(ids),
    ensures
        ids_ascending(kept_ids(ids, deleted)),
        forall|j: int|
            0 <= j < kept_ids(ids, deleted).len() ==> ids.len() > 0 && #[trigger] kept_ids(
                ids,
                deleted,
            )[j] <= ids.last(),
    decreases ids.len(),
{
    let pred = |id: PointOffsetType| is_kept(deleted, id);
    if ids.len() == 0 {
        reveal(Seq::filter);
    } else {
        let rest = ids.drop_last();
        assert(ids =~= rest.push(ids.last()));
        assert(ids_ascending(rest)) by {
            assert forall|a: int, b: int| 0 <= a < b < rest.len() implies rest[a] < rest[b] by {
                assert(rest[a] == ids[a] && rest[b] == ids[b]);
            }
        }
        lemma_kept_ids_stay_ascending(rest, deleted);
        rest.lemma_filter_push(ids.last(), pred);
        if rest.len() > 0 {
            assert(rest.last() == ids[ids.len() - 2]);
        }
    }
}

/// The tombstones after one removal: the tombstone of a point that was
/// live is set, anything else stays.
pub open spec fn after_removal(deleted: Seq<bool>, id: PointOffsetType) -> Seq<bool> {
    if is_live(deleted, id) {
        deleted.update(id as int, true)
    } else {
        deleted
    }
}

/// The tombstones after a list of removals, first removal first.
pub open spec fn after_removals(deleted: Seq<bool>, ids: Seq<PointOffsetType>) -> Seq<bool>
    decreases ids.len(),
{
    if ids.len() == 0 {
        deleted
    } else {
        after_removal(after_removals(deleted, ids.drop_last()), ids.last())
    }
}

/// The tombstones that were set before or belong to a point of the list.
pub open spec fn tombstones_with(deleted: Seq<bool>, ids: Seq<PointOffsetType>) -> Seq<bool> {
    Seq::new(
        deleted.len(),
        |i: int| deleted[i] || (i <= 0xffff_ffff && ids.contains(i as PointOffsetType)),
    )
}

/// After any list of removals, repeats and unknown points included, the
/// tombstoned points are those that were tombstoned before together with
/// those of the list that the bitmap knows; the deleted count is their
/// number, whatever the order and however often a point was removed.
pub proof fn lemma_deleted_after_removals(deleted: Seq<bool>, ids: Seq<PointOffsetType>)
    ensures
        after_removals(deleted, ids) == tombstones_with(deleted, ids),
        count_true(after_removals(deleted, ids)) == count_true(tombstones_with(deleted, ids)),
    decreases ids.len(),
{
    if ids.len() == 0 {
        assert forall|i: int| 0 <= i < deleted.len() implies tombstones_with(deleted, ids)[i]
            == deleted[i] by {
            if i <= 0xffff_ffff && ids.contains(i as PointOffsetType) {
                let at = choose|at: int| 0 <= at < ids.len() && ids[at] == i as PointOffsetType;
            }
        }
        assert(after_removals(deleted, ids) =~= tombstones_with(deleted, ids));
    } else {
        let rest = ids.drop_last();
        let last = ids.last();
        lemma_deleted_after_removals(deleted, rest);
        let before = tombstones_with(deleted, rest);
        let after = after_removal(before, last);
        assert forall|i: int| 0 <= i < deleted.len() implies after[i] == tombstones_with(
            deleted,
            ids,
        )[i] by {
            if i <= 0xffff_ffff {
                let id = i as PointOffsetType;
                if rest.contains(id) {
                    let at = choose|at: int| 0 <= at < rest.len() && rest[at] == id;
                    assert(ids[at] == id);
                }
                if ids.contains(id) && id != last {
                    let at = choose|at: int| 0 <= at < ids.len() && ids[at] == id;
                    assert(rest[at] == id);
                }
                if id == last {
                    assert(ids[ids.len() - 1] == id);
                }
            }
        }
        assert(after =~= tombstones_with(deleted, ids));
    }
}

/// In a store that keeps pairs and lists in agreement, the cardinality
/// of a range is in order: the lower bound does not exceed the upper
/// bound, the upper bound does not exceed the points that carry a value,
/// and the lower bound does not exceed the values in the range.
pub proof fn lemma_cardinality_is_ordered<T: Encodable>(
    points: Seq<Point<T>>,
    lists: Seq<Seq<T>>,
    most: nat,
    from: Bound<T>,
    to: Bound<T>,
)
    requires
        crate::sorted_points::is_sorted(points),
        crate::pairing::tied(points, lists),
        forall|i: int| 0 <= i < lists.len() ==> (#[trigger] lists[i]).len() <= most,
        most > 0,
    ensures
        ({
            let count = crate::histogram::count_between(points, from, to);
            let carrying = count_nonempty(lists);
            let min = crate::numeric_index::expected_min(count, carrying, points.len(), most);
            let max = crate::numeric_index::expected_max(count, carrying);
            min <= max && max <= carrying && min <= count && count <= points.len()
        }),
{
    let count = crate::histogram::count_between(points, from, to);
    let carrying = count_nonempty(lists);
    points.lemma_filter_len(
        |p: Point<T>| crate::sorted_points::in_range(p, value_start(from), value_end(to)),
    );
    crate::pairing::lemma_pairs_bounded(points, lists, most);
    assert(count / most <= carrying && count / most <= count) by (nonlinear_arith)
        requires
            count <= most * carrying,
            most > 0,
            count >= 0,
            carrying >= 0,
    ;
    assert(count >= 1 ==> carrying >= 1) by (nonlinear_arith)
        requires
            count <= most * carrying,
            most > 0,
            carrying >= 0,
    ;
}

/// The values of every point that lie between two bounds.
pub open spec fn lists_between<T: Encodable>(
    lists: Seq<Seq<T>>,
    from: Bound<T>,
    to: Bound<T>,
) -> Seq<Seq<T>> {
    crate::pairing::lists_kept(
        lists,
        |p: Point<T>| crate::sorted_points::in_range(p, value_start(from), value_end(to)),
    )
}

/// The number of points that carry a value between two bounds.
pub open spec fn points_between<T: Encodable>(
    lists: Seq<Seq<T>>,
    from: Bound<T>,
    to: Bound<T>,
) -> nat {
    count_nonempty(lists_between(lists, from, to))
}

/// The bounds of a range estimate hold the truth between them: where
/// pairs and lists agree and no point carries more than `most` values,
/// the number of points with a value in the range is no less than the
/// lower bound and no more than the upper one.
pub proof fn lemma_cardinality_brackets<T: Encodable>(
    points: Seq<Point<T>>,
    lists: Seq<Seq<T>>,
    most: nat,
    from: Bound<T>,
    to: Bound<T>,
)
    requires
        crate::sorted_points::is_sorted(points),
        crate::pairing::tied(points, lists),
        forall|i: int| 0 <= i < lists.len() ==> (#[trigger] lists[i]).len() <= most,
        most > 0,
    ensures
        ({
            let count = crate::histogram::count_between(points, from, to);
            let carrying = count_nonempty(lists);
            let selected = points_between(lists, from, to);
            crate::numeric_index::expected_min(count, carrying, points.len(), most) <= selected
                && selected <= crate::numeric_index::expected_max(count, carrying)
        }),
{
    let keep = |p: Point<T>| crate::sorted_points::in_range(p, value_start(from), value_end(to));
    let other = |p: Point<T>| !keep(p);
    let inside = points.filter(keep);
    let outside = points.filter(other);
    let lists_in = crate::pairing::lists_kept(lists, keep);
    let lists_out = crate::pairing::lists_kept(lists, other);
    let count = inside.len();
    let carrying = count_nonempty(lists);
    let selected = count_nonempty(lists_in);
    assert(crate::pairing::respects_rank(keep));
    assert(crate::pairing::respects_rank(other));
    crate::pairing::lemma_tied_filtered(points, lists, keep);
    crate::pairing::lemma_tied_filtered(points, lists, other);
    crate::pairing::lemma_filter_splits(points, keep);
    crate::pairing::lemma_count_kept(lists, keep);
    crate::sorted_points::lemma_filter_sorted(points, keep);
    crate::pairing::lemma_pairs_bounded(inside, lists_in, most);
    crate::pairing::lemma_points_not_fewer(inside, lists_in);
    crate::pairing::lemma_points_not_fewer(outside, lists_out);
    crate::pairing::lemma_points_not_fewer(points, lists);
    assert(count / most <= selected) by (nonlinear_arith)
        requires
            count <= most * selected,
            most > 0,
            count >= 0,
            selected >= 0,
    ;
    assert(count >= 1 ==> selected >= 1) by (nonlinear_arith)
        requires
            count <= most * selected,
            most > 0,
            selected >= 0,
    ;
}

/// The points that a range selects are the points counted between its
/// bounds: an id is among the ids of the pairs in the range exactly where
/// the point carries a value in the range.
pub proof fn lemma_selected_points_carry<T: Encodable>(
    points: Seq<Point<T>>,
    lists: Seq<Seq<T>>,
    from: Bound<T>,
    to: Bound<T>,
    id: PointOffsetType,
)
    requires
        crate::pairing::tied(points, lists),
    ensures
        crate::sorted_points::ids_of(
            crate::sorted_points::range_of(points, value_start(from), value_end(to)),
        ).contains(id) <==> id < lists.len() && lists_between(lists, from, to)[id as int].len()
            > 0,
{
    let keep = |p: Point<T>| crate::sorted_points::in_range(p, value_start(from), value_end(to));
    let inside = points.filter(keep);
    let lists_in = crate::pairing::lists_kept(lists, keep);
    let ids = crate::sorted_points::ids_of(inside);
    assert(crate::pairing::respects_rank(keep));
    crate::pairing::lemma_tied_filtered(points, lists, keep);
    if ids.contains(id) {
        let k = choose|k: int| 0 <= k < ids.len() && ids[k] == id;
        assert(inside[k].idx == id);
        let j = crate::pairing::lemma_value_place(lists_in[id as int], inside[k].val.order_key());
    }
    if id < lists.len() && lists_in[id as int].len() > 0 {
        assert(crate::pairing::value_has_pair(inside, lists_in, id as int, 0));
        let rank = crate::pairing::pair_rank(lists_in[id as int][0], id as int);
        let k = choose|k: int|
            0 <= k < inside.len() && crate::sorted_points::point_rank(#[trigger] inside[k])
                == rank;
        assert(inside[k].idx == id);
        assert(ids[k] == id);
    }
}

/// Whether a tombstone bitmap is in order for the value lists it goes
/// with: it reaches every point, marks nothing beyond them, and marks
/// every point without values.
pub open spec fn tombstones_cover<T>(lists: Seq<Seq<T>>, deleted: Seq<bool>) -> bool {
    &&& deleted.len() >= lists.len()
    &&& forall|i: int| lists.len() <= i < deleted.len() ==> !#[trigger] deleted[i]
    &&& forall|i: int| 0 <= i < lists.len() && (#[trigger] lists[i]).len() == 0 ==> deleted[i]
}

/// The tombstones that a build sets are in order.
pub proof fn lemma_built_tombstones_cover<T>(lists: Seq<Seq<T>>, len: nat)
    requires
        len >= lists.len(),
    ensures
        tombstones_cover(lists, crate::mmap_numeric_index::empty_flags(lists, len)),
{
}

/// Tombstones in order stay in order when a known point is removed.
pub proof fn lemma_removal_keeps_cover<T>(
    lists: Seq<Seq<T>>,
    deleted: Seq<bool>,
    id: PointOffsetType,
)
    requires
        tombstones_cover(lists, deleted),
        id < lists.len(),
    ensures
        tombstones_cover(lists, after_removal(deleted, id)),
{
}

/// Under tombstones in order, the points that are not tombstoned are the
/// points that still show a value.
pub proof fn lemma_live_points_count<T>(lists: Seq<Seq<T>>, deleted: Seq<bool>)
    requires
        tombstones_cover(lists, deleted),
        forall|i: int| 0 <= i < lists.len() && (#[trigger] lists[i]).len() > 0 ==> i <= 0xffff_ffff,
    ensures
        count_true(deleted) + count_nonempty(
            crate::mmap_numeric_index::live_lists(lists, deleted),
        ) == lists.len(),
    decreases deleted.len(),
{
    let live = crate::mmap_numeric_index::live_lists(lists, deleted);
    if deleted.len() > lists.len() {
        let fewer = deleted.drop_last();
        assert(!deleted[deleted.len() - 1]);
        assert(live =~= crate::mmap_numeric_index::live_lists(lists, fewer));
        lemma_live_points_count(lists, fewer);
    } else if lists.len() > 0 {
        let fewer = deleted.drop_last();
        let rest = lists.drop_last();
        let last = lists.len() - 1;
        assert(live.drop_last() =~= crate::mmap_numeric_index::live_lists(rest, fewer));
        assert forall|i: int| 0 <= i < rest.len() && (#[trigger] rest[i]).len() == 0 implies fewer[i] by {
            assert(lists[i].len() == 0);
        }
        lemma_live_points_count(rest, fewer);
        assert(live.last() == live[last]);
        if !deleted[last] {
            assert(lists[last].len() > 0);
        }
    } else {
        assert(live =~= Seq::<Seq<T>>::empty());
    }
}

/// The bounds of a range estimate hold the truth between them in a
/// store with tombstones too, as long as the tombstones are in order:
/// the points that are not tombstoned and carry a value in the range are
/// no fewer than the lower bound and no more than the upper one, the
/// bounds being taken from the values seen in the range, the points not
/// tombstoned and all the values stored.
pub proof fn lemma_cardinality_brackets_live<T: Encodable>(
    stored: Seq<Point<T>>,
    lists: Seq<Seq<T>>,
    deleted: Seq<bool>,
    most: nat,
    from: Bound<T>,
    to: Bound<T>,
)
    requires
        crate::sorted_points::is_sorted(stored),
        crate::pairing::tied(stored, lists),
        forall|i: int| 0 <= i < lists.len() ==> (#[trigger] lists[i]).len() <= most,
        most > 0,
        tombstones_cover(lists, deleted),
    ensures
        ({
            let seen = crate::mmap_numeric_index::live_points(stored, deleted);
            let shown = crate::mmap_numeric_index::live_lists(lists, deleted);
            let count = crate::histogram::count_between(seen, from, to);
            let live = crate::numeric_index::minus(lists.len(), count_true(deleted));
            let selected = points_between(shown, from, to);
            crate::numeric_index::expected_min(count, live, stored.len(), most) <= selected
                && selected <= crate::numeric_index::expected_max(count, live)
        }),
{
    let seen = crate::mmap_numeric_index::live_points(stored, deleted);
    let shown = crate::mmap_numeric_index::live_lists(lists, deleted);
    crate::mmap_numeric_index::lemma_tied_live(stored, lists, deleted);
    crate::sorted_points::lemma_filter_sorted(stored, |p: Point<T>| is_live(deleted, p.idx));
    stored.lemma_filter_len(|p: Point<T>| is_live(deleted, p.idx));
    assert forall|i: int| 0 <= i < lists.len() && (#[trigger] lists[i]).len() > 0 implies i
        <= 0xffff_ffff by {
        assert(crate::pairing::value_has_pair(stored, lists, i, 0));
    }
    lemma_live_points_count(lists, deleted);
    lemma_cardinality_brackets(seen, shown, most, from, to);
}

} // verus!
