//! How the ordered pairs of a numeric store and the value lists of its
//! points belong together: a pair `(value, id)` is in the store exactly if
//! the list of point `id` holds a value at the same place in the order.

use vstd::prelude::*;
use crate::blocks::lemma_filter_index;
use crate::encodable::Encodable;
use crate::encodable::Numericable;
use crate::sorted_points::has_rank;
use crate::sorted_points::is_sorted;
use crate::sorted_points::partition_index;
use crate::sorted_points::point_lt;
use crate::sorted_points::point_rank;
use crate::sorted_points::sorted_insert;
use crate::sorted_points::without_point;
use crate::sorted_points::PointSource;
use crate::types::Point;
use crate::types::PointOffsetType;

verus! {

/// Whether a list holds a value at the given place in the order.
#[verifier::opaque]
pub open spec fn holds_value<T: Encodable>(list: Seq<T>, order_key: nat) -> bool {
    exists|j: int| 0 <= j < list.len() && (#[trigger] list[j]).order_key() == order_key
}

/// The place in the order of points of value `value` carried by point
/// `id`.
pub open spec fn pair_rank<T: Encodable>(value: T, id: int) -> nat {
    value.order_key() * 0x1_0000_0000 + id as nat
}

/// Whether every pair belongs to a point whose list holds its value.
pub open spec fn pairs_in_lists<T: Encodable>(points: Seq<Point<T>>, lists: Seq<Seq<T>>) -> bool {
    forall|k: int|
        0 <= k < points.len() ==> (#[trigger] points[k]).idx < lists.len() && holds_value(
            lists[points[k].idx as int],
            points[k].val.order_key(),
        )
}

/// Whether value `j` of point `id` has its pair.
pub open spec fn value_has_pair<T: Encodable>(
    points: Seq<Point<T>>,
    lists: Seq<Seq<T>>,
    id: int,
    j: int,
) -> bool {
    id <= 0xffff_ffff && has_rank(points, pair_rank(lists[id][j], id))
}

/// Whether every value of every list has its pair.
pub open spec fn lists_in_pairs<T: Encodable>(points: Seq<Point<T>>, lists: Seq<Seq<T>>) -> bool {
    forall|id: int, j: int|
        0 <= id < lists.len() && 0 <= j < lists[id].len() ==> #[trigger] value_has_pair(
            points,
            lists,
            id,
            j,
        )
}

/// Whether pairs and lists agree: a pair `(value, id)` is among the
/// pairs exactly if the list of point `id` holds the value.
pub open spec fn tied<T: Encodable>(points: Seq<Point<T>>, lists: Seq<Seq<T>>) -> bool {
    pairs_in_lists(points, lists) && lists_in_pairs(points, lists)
}


/// The value at place `j` of a list is held by the list.
pub proof fn lemma_value_is_held<T: Encodable>(list: Seq<T>, j: int)
    requires
        0 <= j < list.len(),
    ensures
        holds_value(list, list[j].order_key()),
{
    reveal(holds_value);
}

/// Where a list holds a value, it holds it at some place.
pub proof fn lemma_value_place<T: Encodable>(list: Seq<T>, order_key: nat) -> (j: int)
    requires
        holds_value(list, order_key),
    ensures
        0 <= j < list.len(),
        list[j].order_key() == order_key,
{
    reveal(holds_value);
    choose|j: int| 0 <= j < list.len() && (#[trigger] list[j]).order_key() == order_key
}

/// A list without values holds none.
pub proof fn lemma_empty_holds_nothing<T: Encodable>(list: Seq<T>, order_key: nat)
    requires
        list.len() == 0,
    ensures
        !holds_value(list, order_key),
{
    reveal(holds_value);
}

/// Removing a point keeps pairs and lists in agreement.
pub proof fn lemma_tied_after_removal<T: Encodable>(
    points: Seq<Point<T>>,
    lists: Seq<Seq<T>>,
    idx: PointOffsetType,
)
    requires
        tied(points, lists),
    ensures
        tied(
            without_point(points, idx),
            if idx < lists.len() {
                lists.update(idx as int, Seq::<T>::empty())
            } else {
                lists
            },
        ),
{
    let pred = |p: Point<T>| p.idx != idx;
    let kept = without_point(points, idx);
    let after = if idx < lists.len() {
        lists.update(idx as int, Seq::<T>::empty())
    } else {
        lists
    };
    assert forall|k: int| 0 <= k < kept.len() implies (#[trigger] kept[k]).idx < after.len()
        && holds_value(after[kept[k].idx as int], kept[k].val.order_key()) by {
        let i = lemma_filter_index(points, pred, k);
        assert(points[i].idx < lists.len());
    }
    assert forall|id: int, j: int| 0 <= id < after.len() && 0 <= j < after[id].len() implies #[trigger] value_has_pair(kept, after, id, j) by {
        assert(id != idx);
        assert(after[id][j] == lists[id][j]);
        let rank = pair_rank(lists[id][j], id);
        assert(value_has_pair(points, lists, id, j));
        let k = choose|k: int| 0 <= k < points.len() && point_rank(#[trigger] points[k]) == rank;
        assert(points[k].idx == id);
        points.lemma_filter_contains(pred, k);
        let at = choose|at: int| 0 <= at < kept.len() && kept[at] == points[k];
        assert(point_rank(kept[at]) == rank);
    }
}

/// Giving a point without values one more empty neighbour keeps pairs
/// and lists in agreement.
pub proof fn lemma_tied_after_growth<T: Encodable>(points: Seq<Point<T>>, lists: Seq<Seq<T>>)
    requires
        tied(points, lists),
        lists.len() <= 0xffff_ffff,
    ensures
        tied(points, lists.push(Seq::<T>::empty())),
{
    let after = lists.push(Seq::<T>::empty());
    assert forall|k: int| 0 <= k < points.len() implies (#[trigger] points[k]).idx < after.len()
        && holds_value(after[points[k].idx as int], points[k].val.order_key()) by {
        assert(after[points[k].idx as int] == lists[points[k].idx as int]);
    }
    assert forall|id: int, j: int| 0 <= id < after.len() && 0 <= j < after[id].len() implies #[trigger] value_has_pair(points, after, id, j) by {
        assert(id < lists.len());
        assert(after[id][j] == lists[id][j]);
        assert(value_has_pair(points, lists, id, j));
    }
}

/// Inserting keeps what was there and adds the point.
pub proof fn lemma_sorted_insert_has<T: Encodable>(s: Seq<Point<T>>, p: Point<T>, rank: nat)
    ensures
        has_rank(sorted_insert(s, p), rank) <==> (has_rank(s, rank) || rank == point_rank(p)),
        forall|k: int|
            0 <= k < sorted_insert(s, p).len() ==> #[trigger] sorted_insert(s, p)[k] == p
                || s.contains(sorted_insert(s, p)[k]),
{
    let t = sorted_insert(s, p);
    if has_rank(s, point_rank(p)) {
        assert forall|k: int| 0 <= k < t.len() implies #[trigger] t[k] == p || s.contains(t[k]) by {
            assert(s[k] == t[k]);
        }
    } else {
        let at = s.filter(|q: Point<T>| point_rank(q) < point_rank(p)).len() as int;
        s.lemma_filter_len(|q: Point<T>| point_rank(q) < point_rank(p));
        assert(t[at] == p);
        if has_rank(s, rank) {
            let k = choose|k: int| 0 <= k < s.len() && point_rank(#[trigger] s[k]) == rank;
            if k < at {
                assert(t[k] == s[k]);
            } else {
                assert(t[k + 1] == s[k]);
            }
        }
        if has_rank(t, rank) && rank != point_rank(p) {
            let k = choose|k: int| 0 <= k < t.len() && point_rank(#[trigger] t[k]) == rank;
            if k < at {
                assert(t[k] == s[k]);
            } else {
                assert(t[k] == s[k - 1]);
            }
        }
        assert forall|k: int| 0 <= k < t.len() implies #[trigger] t[k] == p || s.contains(t[k]) by {
            if k < at {
                assert(t[k] == s[k]);
            } else if k > at {
                assert(t[k] == s[k - 1]);
            }
        }
    }
}

/// Giving a point one more value, and the store its pair, keeps pairs and
/// lists in agreement.
pub proof fn lemma_tied_after_insert<T: Encodable>(
    points: Seq<Point<T>>,
    lists: Seq<Seq<T>>,
    idx: PointOffsetType,
    value: T,
)
    requires
        tied(points, lists),
        idx < lists.len(),
    ensures
        tied(
            sorted_insert(points, Point { val: value, idx }),
            lists.update(idx as int, lists[idx as int].push(value)),
        ),
{
    let p = Point { val: value, idx };
    let more = sorted_insert(points, p);
    let longer = lists[idx as int].push(value);
    let after = lists.update(idx as int, longer);
    lemma_sorted_insert_has(points, p, point_rank(p));
    assert forall|k: int| 0 <= k < more.len() implies (#[trigger] more[k]).idx < after.len()
        && holds_value(after[more[k].idx as int], more[k].val.order_key()) by {
        let q = more[k];
        if q == p {
            lemma_value_is_held(longer, longer.len() - 1);
        } else {
            let i = choose|i: int| 0 <= i < points.len() && points[i] == q;
            assert(points[i].idx < lists.len());
            if q.idx == idx {
                let j = lemma_value_place(lists[idx as int], q.val.order_key());
                assert(longer[j] == lists[idx as int][j]);
                lemma_value_is_held(longer, j);
            }
        }
    }
    assert forall|id: int, j: int| 0 <= id < after.len() && 0 <= j < after[id].len() implies #[trigger] value_has_pair(more, after, id, j) by {
        let rank = pair_rank(after[id][j], id);
        lemma_sorted_insert_has(points, p, rank);
        if id == idx && j == longer.len() - 1 {
            assert(rank == point_rank(p));
        } else {
            assert(after[id][j] == lists[id][j]);
            assert(value_has_pair(points, lists, id, j));
        }
    }
}

/// A point as it comes back from its key.
pub open spec fn restored_pairs<T: Encodable>(points: Seq<Point<T>>) -> Seq<Point<T>> {
    points.map_values(|p: Point<T>| Point { val: T::from_order_key(p.val.order_key()), idx: p.idx })
}

/// Pairs that come back from their keys still agree with the lists.
pub proof fn lemma_tied_after_restoring<T: Numericable>(points: Seq<Point<T>>, lists: Seq<Seq<T>>)
    requires
        tied(points, lists),
    ensures
        tied(restored_pairs(points), lists),
{
    let back = restored_pairs(points);
    assert forall|k: int| 0 <= k < back.len() implies (#[trigger] back[k]).idx < lists.len()
        && holds_value(lists[back[k].idx as int], back[k].val.order_key()) by {
        points[k].val.lemma_decode_keeps_position();
        assert(points[k].idx < lists.len());
    }
    assert forall|id: int, j: int| 0 <= id < lists.len() && 0 <= j < lists[id].len() implies #[trigger] value_has_pair(back, lists, id, j) by {
        let rank = pair_rank(lists[id][j], id);
        assert(value_has_pair(points, lists, id, j));
        let k = choose|k: int| 0 <= k < points.len() && point_rank(#[trigger] points[k]) == rank;
        points[k].val.lemma_decode_keeps_position();
        assert(point_rank(back[k]) == rank);
    }
}

/// Whether pairs and lists agree.
pub fn check_tied<T: Encodable, S: PointSource<T>>(source: &S, lists: &Vec<Vec<T>>) -> (ok: bool)
    requires
        source.ready(),
        is_sorted(source.points()),
    ensures
        ok == tied(source.points(), crate::in_memory_numeric_index::lists_of(lists@)),
{
    let ghost points = source.points();
    let ghost all = crate::in_memory_numeric_index::lists_of(lists@);
    let n: usize = source.count();
    let mut k: usize = 0;
    while k < n
        invariant
            k <= n,
            n == points.len(),
            source.ready(),
            points == source.points(),
            all == crate::in_memory_numeric_index::lists_of(lists@),
            forall|i: int|
                0 <= i < k ==> (#[trigger] points[i]).idx < all.len() && holds_value(
                    all[points[i].idx as int],
                    points[i].val.order_key(),
                ),
        decreases n - k,
    {
        let p = source.point_at(k);
        if p.idx as usize >= lists.len() {
            assert(!(points[k as int].idx < all.len()));
            return false;
        }
        let list = &lists[p.idx as usize];
        assert(list@ == all[p.idx as int]);
        let mut j: usize = 0;
        let mut found: bool = false;
        while j < list.len() && !found
            invariant
                j <= list@.len(),
                forall|i: int| 0 <= i < j ==> (#[trigger] list@[i]).order_key() != p.val.order_key(),
                found ==> holds_value(list@, p.val.order_key()),
            decreases list@.len() - j + if found { 0int } else { 1int },
        {
            if crate::sorted_points::same_place(&list[j], &p.val) {
                proof {
                    lemma_value_is_held(list@, j as int);
                }
                found = true;
            } else {
                j = j + 1;
            }
        }
        if !found {
            proof {
                if holds_value(list@, p.val.order_key()) {
                    let at = lemma_value_place(list@, p.val.order_key());
                }
            }
            return false;
        }
        k = k + 1;
    }
    let mut id: usize = 0;
    while id < lists.len()
        invariant
            id <= lists@.len(),
            n == points.len(),
            source.ready(),
            is_sorted(points),
            points == source.points(),
            all == crate::in_memory_numeric_index::lists_of(lists@),
            pairs_in_lists(points, all),
            forall|i: int, j: int|
                0 <= i < id && 0 <= j < all[i].len() ==> #[trigger] value_has_pair(
                    points,
                    all,
                    i,
                    j,
                ),
        decreases lists@.len() - id,
    {
        let list = &lists[id];
        assert(list@ == all[id as int]);
        if list.len() > 0 && id > 0xffff_ffff {
            assert(!value_has_pair(points, all, id as int, 0));
            return false;
        }
        let mut j: usize = 0;
        while j < list.len()
            invariant
                j <= list@.len(),
                id < lists@.len(),
                list@ == all[id as int],
                list@.len() > 0 ==> id <= 0xffff_ffff,
                n == points.len(),
                source.ready(),
                is_sorted(points),
                points == source.points(),
                all == crate::in_memory_numeric_index::lists_of(lists@),
                forall|i: int|
                    0 <= i < j ==> has_rank(points, pair_rank(#[trigger] list@[i], id as int)),
            decreases list@.len() - j,
        {
            let target = Point::new(list[j], id as PointOffsetType);
            let at: usize = partition_index(source, &target, false);
            let there = if at < n {
                !point_lt(&target, &source.point_at(at))
            } else {
                false
            };
            if !there {
                proof {
                    let rank = pair_rank(list@[j as int], id as int);
                    assert(rank == point_rank(target));
                    if has_rank(points, rank) {
                        let k = choose|k: int|
                            0 <= k < points.len() && point_rank(#[trigger] points[k]) == rank;
                        if k < at {
                            assert(crate::sorted_points::comes_before(points[k], target, false));
                        } else if k > at {
                            assert(point_rank(points[at as int]) < point_rank(points[k]));
                        }
                    }
                    assert(all[id as int][j as int] == list@[j as int]);
                    assert(!value_has_pair(points, all, id as int, j as int));
                }
                return false;
            }
            proof {
                assert(point_rank(points[at as int]) == pair_rank(list@[j as int], id as int));
            }
            j = j + 1;
        }
        proof {
            assert forall|i: int, j: int|
                0 <= i < id + 1 && 0 <= j < all[i].len() implies #[trigger] value_has_pair(
                points,
                all,
                i,
                j,
            ) by {
                if i == id {
                    assert(has_rank(points, pair_rank(list@[j], id as int)));
                }
            }
        }
        id = id + 1;
    }
    true
}

/// What a filter keeps and what it turns away are together all there is.
pub proof fn lemma_filter_splits<A>(s: Seq<A>, pred: spec_fn(A) -> bool)
    ensures
        s.filter(pred).len() + s.filter(|x: A| !pred(x)).len() == s.len(),
    decreases s.len(),
{
    let other = |x: A| !pred(x);
    if s.len() == 0 {
        reveal(Seq::filter);
    } else {
        let t = s.drop_last();
        assert(s =~= t.push(s.last()));
        lemma_filter_splits(t, pred);
        t.lemma_filter_push(s.last(), pred);
        t.lemma_filter_push(s.last(), other);
    }
}

/// Pairs of one point, each with its value in one list, are no more than
/// the values of the list.
pub proof fn lemma_pairs_of_point_bounded<T: Encodable>(
    pairs: Seq<Point<T>>,
    idx: PointOffsetType,
    list: Seq<T>,
)
    requires
        is_sorted(pairs),
        forall|k: int|
            0 <= k < pairs.len() ==> (#[trigger] pairs[k]).idx == idx && holds_value(
                list,
                pairs[k].val.order_key(),
            ),
    ensures
        pairs.len() <= list.len(),
    decreases list.len(),
{
    if list.len() == 0 {
        if pairs.len() > 0 {
            assert(pairs[0].idx == idx);
            lemma_empty_holds_nothing(list, pairs[0].val.order_key());
        }
    } else {
        let key = list.last().order_key();
        let same = |p: Point<T>| p.val.order_key() == key;
        let other = |p: Point<T>| !same(p);
        let at_key = pairs.filter(same);
        let rest = pairs.filter(other);
        lemma_filter_splits(pairs, same);
        crate::sorted_points::lemma_filter_sorted(pairs, same);
        crate::sorted_points::lemma_filter_sorted(pairs, other);
        if at_key.len() >= 2 {
            let a = lemma_filter_index(pairs, same, 0);
            let b = lemma_filter_index(pairs, same, 1);
            assert(pairs[a].idx == idx && pairs[b].idx == idx);
            assert(point_rank(at_key[0]) < point_rank(at_key[1]));
        }
        assert forall|k: int| 0 <= k < rest.len() implies (#[trigger] rest[k]).idx == idx
            && holds_value(list.drop_last(), rest[k].val.order_key()) by {
            let i = lemma_filter_index(pairs, other, k);
            assert(pairs[i].idx == idx);
            let j = lemma_value_place(list, pairs[i].val.order_key());
            assert(list.drop_last()[j] == list[j]);
            lemma_value_is_held(list.drop_last(), j);
        }
        lemma_pairs_of_point_bounded(rest, idx, list.drop_last());
    }
}

/// Pairs that agree with the lists are no more than the points that
/// carry a value, times the most values that a point carries.
pub proof fn lemma_pairs_bounded<T: Encodable>(
    points: Seq<Point<T>>,
    lists: Seq<Seq<T>>,
    most: nat,
)
    requires
        is_sorted(points),
        pairs_in_lists(points, lists),
        forall|i: int| 0 <= i < lists.len() ==> (#[trigger] lists[i]).len() <= most,
    ensures
        points.len() <= most * crate::in_memory_numeric_index::count_nonempty(lists),
    decreases lists.len(),
{
    if lists.len() == 0 {
        if points.len() > 0 {
            assert(points[0].idx < lists.len());
        }
        assert(most * 0 == 0);
    } else {
        let last = (lists.len() - 1) as int;
        let here = |p: Point<T>| p.idx == last;
        let elsewhere = |p: Point<T>| !here(p);
        let of_last = points.filter(here);
        let others = points.filter(elsewhere);
        let fewer = lists.drop_last();
        lemma_filter_splits(points, here);
        crate::sorted_points::lemma_filter_sorted(points, here);
        crate::sorted_points::lemma_filter_sorted(points, elsewhere);
        assert forall|k: int| 0 <= k < others.len() implies (#[trigger] others[k]).idx
            < fewer.len() && holds_value(
            fewer[others[k].idx as int],
            others[k].val.order_key(),
        ) by {
            let i = lemma_filter_index(points, elsewhere, k);
            assert(points[i].idx < lists.len());
            assert(fewer[points[i].idx as int] == lists[points[i].idx as int]);
        }
        assert forall|i: int| 0 <= i < fewer.len() implies (#[trigger] fewer[i]).len() <= most by {
            assert(fewer[i] == lists[i]);
        }
        lemma_pairs_bounded(others, fewer, most);
        if last <= 0xffff_ffff {
            assert forall|k: int| 0 <= k < of_last.len() implies (#[trigger] of_last[k]).idx
                == last as PointOffsetType && holds_value(
                lists[last],
                of_last[k].val.order_key(),
            ) by {
                let i = lemma_filter_index(points, here, k);
                assert(points[i].idx < lists.len());
            }
            lemma_pairs_of_point_bounded(of_last, last as PointOffsetType, lists[last]);
        } else {
            if of_last.len() > 0 {
                let i = lemma_filter_index(points, here, 0);
            }
        }
        let counted = crate::in_memory_numeric_index::count_nonempty(fewer);
        let one: nat = if lists[last].len() > 0 {
            1
        } else {
            0
        };
        assert(of_last.len() <= most * one) by {
            if one == 1 {
                assert(most * 1 == most);
            } else {
                assert(most * 0 == 0);
            }
        }
        assert(most * (counted + one) == most * counted + most * one) by (nonlinear_arith);
    }
}

/// Whether a choice among points looks at nothing but the place of a
/// point in the order.
pub open spec fn respects_rank<T: Encodable>(keep: spec_fn(Point<T>) -> bool) -> bool {
    forall|p: Point<T>, q: Point<T>|
        point_rank(p) == point_rank(q) ==> #[trigger] keep(p) == #[trigger] keep(q)
}

/// The values of point `id` whose pairs a choice keeps.
pub open spec fn values_kept<T: Encodable>(
    list: Seq<T>,
    id: int,
    keep: spec_fn(Point<T>) -> bool,
) -> Seq<T> {
    list.filter(|v: T| keep(Point { val: v, idx: id as PointOffsetType }))
}

/// The value lists with only the values whose pairs a choice keeps.
pub open spec fn lists_kept<T: Encodable>(
    lists: Seq<Seq<T>>,
    keep: spec_fn(Point<T>) -> bool,
) -> Seq<Seq<T>> {
    Seq::new(lists.len(), |id: int| values_kept(lists[id], id, keep))
}

/// Pairs and lists that agree still agree where a choice is made among
/// both.
pub proof fn lemma_tied_filtered<T: Encodable>(
    points: Seq<Point<T>>,
    lists: Seq<Seq<T>>,
    keep: spec_fn(Point<T>) -> bool,
)
    requires
        tied(points, lists),
        respects_rank(keep),
    ensures
        tied(points.filter(keep), lists_kept(lists, keep)),
{
    let chosen = points.filter(keep);
    let kept = lists_kept(lists, keep);
    assert forall|k: int| 0 <= k < chosen.len() implies (#[trigger] chosen[k]).idx < kept.len()
        && holds_value(kept[chosen[k].idx as int], chosen[k].val.order_key()) by {
        let i = lemma_filter_index(points, keep, k);
        let p = points[i];
        assert(p.idx < lists.len());
        let id = p.idx as int;
        let j = lemma_value_place(lists[id], p.val.order_key());
        let twin = Point { val: lists[id][j], idx: id as PointOffsetType };
        assert(point_rank(twin) == point_rank(p));
        assert(keep(twin) == keep(p));
        let choice = |v: T| keep(Point { val: v, idx: id as PointOffsetType });
        lists[id].lemma_filter_contains(choice, j);
        let at = choose|at: int| 0 <= at < kept[id].len() && kept[id][at] == lists[id][j];
        lemma_value_is_held(kept[id], at);
    }
    assert forall|id: int, j: int|
        0 <= id < kept.len() && 0 <= j < kept[id].len() implies #[trigger] value_has_pair(
        chosen,
        kept,
        id,
        j,
    ) by {
        let choice = |v: T| keep(Point { val: v, idx: id as PointOffsetType });
        let from = lemma_filter_index(lists[id], choice, j);
        assert(value_has_pair(points, lists, id, from));
        let rank = pair_rank(lists[id][from], id);
        let k = choose|k: int| 0 <= k < points.len() && point_rank(#[trigger] points[k]) == rank;
        let twin = Point { val: lists[id][from], idx: id as PointOffsetType };
        assert(point_rank(twin) == rank);
        assert(keep(points[k]) == keep(twin));
        points.lemma_filter_contains(keep, k);
        let at = choose|at: int| 0 <= at < chosen.len() && chosen[at] == points[k];
        assert(point_rank(chosen[at]) == rank);
    }
}

/// Where every value has its pair, the pairs are no fewer than the
/// points that carry a value.
pub proof fn lemma_points_not_fewer<T: Encodable>(points: Seq<Point<T>>, lists: Seq<Seq<T>>)
    requires
        lists_in_pairs(points, lists),
    ensures
        crate::in_memory_numeric_index::count_nonempty(lists) <= points.len(),
    decreases lists.len(),
{
    if lists.len() > 0 {
        let last = (lists.len() - 1) as int;
        let here = |p: Point<T>| p.idx == last;
        let elsewhere = |p: Point<T>| !here(p);
        let of_last = points.filter(here);
        let others = points.filter(elsewhere);
        let fewer = lists.drop_last();
        lemma_filter_splits(points, here);
        assert forall|id: int, j: int|
            0 <= id < fewer.len() && 0 <= j < fewer[id].len() implies #[trigger] value_has_pair(
            others,
            fewer,
            id,
            j,
        ) by {
            assert(fewer[id] == lists[id]);
            assert(value_has_pair(points, lists, id, j));
            let rank = pair_rank(lists[id][j], id);
            let k = choose|k: int| 0 <= k < points.len() && point_rank(#[trigger] points[k]) == rank;
            assert(points[k].idx == id);
            points.lemma_filter_contains(elsewhere, k);
            let at = choose|at: int| 0 <= at < others.len() && others[at] == points[k];
            assert(point_rank(others[at]) == rank);
        }
        lemma_points_not_fewer(others, fewer);
        if lists[last].len() > 0 {
            assert(value_has_pair(points, lists, last, 0));
            let rank = pair_rank(lists[last][0], last);
            let k = choose|k: int| 0 <= k < points.len() && point_rank(#[trigger] points[k]) == rank;
            assert(points[k].idx == last);
            points.lemma_filter_contains(here, k);
            let at = choose|at: int| 0 <= at < of_last.len() && of_last[at] == points[k];
        }
    }
}

/// A choice among the values leaves no more points with a value than
/// there were, and every point with a value keeps one under the choice or
/// under its opposite.
pub proof fn lemma_count_kept<T: Encodable>(lists: Seq<Seq<T>>, keep: spec_fn(Point<T>) -> bool)
    ensures
        crate::in_memory_numeric_index::count_nonempty(lists_kept(lists, keep))
            <= crate::in_memory_numeric_index::count_nonempty(lists),
        crate::in_memory_numeric_index::count_nonempty(lists)
            <= crate::in_memory_numeric_index::count_nonempty(lists_kept(lists, keep))
            + crate::in_memory_numeric_index::count_nonempty(
            lists_kept(lists, |p: Point<T>| !keep(p)),
        ),
        forall|i: int|
            0 <= i < lists.len() ==> (#[trigger] lists_kept(lists, keep)[i]).len()
                <= lists[i].len(),
    decreases lists.len(),
{
    let other = |p: Point<T>| !keep(p);
    assert forall|i: int| 0 <= i < lists.len() implies (#[trigger] lists_kept(
        lists,
        keep,
    )[i]).len() <= lists[i].len() by {
        lists[i].lemma_filter_len(|v: T| keep(Point { val: v, idx: i as PointOffsetType }));
    }
    if lists.len() > 0 {
        let last = (lists.len() - 1) as int;
        let fewer = lists.drop_last();
        lemma_count_kept(fewer, keep);
        assert(lists_kept(lists, keep).drop_last() =~= lists_kept(fewer, keep));
        assert(lists_kept(lists, other).drop_last() =~= lists_kept(fewer, other));
        let choice = |v: T| keep(Point { val: v, idx: last as PointOffsetType });
        let opposite = |v: T| other(Point { val: v, idx: last as PointOffsetType });
        lemma_filter_splits(lists[last], choice);
        crate::sorted_points::lemma_filter_agree(lists[last], |v: T| !choice(v), opposite);
        assert(lists_kept(lists, keep).last() == lists[last].filter(choice));
        assert(lists_kept(lists, other).last() == lists[last].filter(opposite));
    }
}

} // verus!
