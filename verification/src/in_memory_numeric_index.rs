//! The ordered numeric store held in memory: a sorted sequence of points,
//! the values of every point, and a histogram kept in step with both.

use vstd::prelude::*;
use crate::encodable::Encodable;
use crate::histogram::Histogram;
use crate::pairing::tied;
use crate::sorted_points::collect_ids;
use crate::sorted_points::collect_pairs;
use crate::sorted_points::ids_of;
use crate::sorted_points::insert_points;
use crate::sorted_points::insert_sorted;
use crate::sorted_points::is_sorted;
use crate::sorted_points::pairs_of;
use crate::sorted_points::range_indices;
use crate::sorted_points::range_of;
use crate::sorted_points::remove_point_entries;
use crate::sorted_points::without_point;
use crate::types::Bound;
use crate::types::Point;
use crate::types::PointOffsetType;

verus! {

/// The value lists of a store, by point id.
pub open spec fn lists_of<T>(lists: Seq<Vec<T>>) -> Seq<Seq<T>> {
    lists.map_values(|l: Vec<T>| l@)
}

/// How many points carry at least one value.
pub open spec fn count_nonempty<T>(lists: Seq<Seq<T>>) -> nat
    decreases lists.len(),
{
    if lists.len() == 0 {
        0
    } else {
        count_nonempty(lists.drop_last()) + if lists.last().len() > 0 {
            1nat
        } else {
            0nat
        }
    }
}

/// The largest number of values any point carries.
pub open spec fn longest_list<T>(lists: Seq<Seq<T>>) -> nat
    decreases lists.len(),
{
    if lists.len() == 0 {
        0
    } else {
        let rest = longest_list(lists.drop_last());
        if lists.last().len() > rest {
            lists.last().len()
        } else {
            rest
        }
    }
}

/// `lists` grown with empty lists until it has an entry for `idx`.
pub open spec fn grown_to<T>(lists: Seq<Seq<T>>, idx: PointOffsetType) -> Seq<Seq<T>> {
    if idx < lists.len() {
        lists
    } else {
        lists + Seq::new((idx + 1 - lists.len()) as nat, |i: int| Seq::<T>::empty())
    }
}

pub proof fn lemma_count_nonempty_bound<T>(lists: Seq<Seq<T>>)
    ensures
        count_nonempty(lists) <= lists.len(),
    decreases lists.len(),
{
    if lists.len() > 0 {
        lemma_count_nonempty_bound(lists.drop_last());
    }
}

pub proof fn lemma_count_nonempty_update<T>(lists: Seq<Seq<T>>, i: int, list: Seq<T>)
    requires
        0 <= i < lists.len(),
    ensures
        count_nonempty(lists.update(i, list)) == count_nonempty(lists) + (if list.len() > 0 {
            1int
        } else {
            0int
        }) - (if lists[i].len() > 0 {
            1int
        } else {
            0int
        }),
    decreases lists.len(),
{
    let after = lists.update(i, list);
    if i == lists.len() - 1 {
        assert(after.drop_last() =~= lists.drop_last());
    } else {
        lemma_count_nonempty_update(lists.drop_last(), i, list);
        assert(after.drop_last() =~= lists.drop_last().update(i, list));
    }
}

pub proof fn lemma_longest_list_bounds<T>(lists: Seq<Seq<T>>, i: int)
    requires
        0 <= i < lists.len(),
    ensures
        lists[i].len() <= longest_list(lists),
    decreases lists.len(),
{
    if i < lists.len() - 1 {
        lemma_longest_list_bounds(lists.drop_last(), i);
    }
}

pub struct InMemoryNumericIndex<T: Encodable> {
    map: Vec<Point<T>>,
    histogram: Histogram<T>,
    points_count: usize,
    max_values_per_point: usize,
    point_to_values: Vec<Vec<T>>,
}

impl<T: Encodable> InMemoryNumericIndex<T> {
    /// The indexed `(value, id)` pairs, ascending.
    pub closed spec fn points(&self) -> Seq<Point<T>> {
        self.map@
    }

    /// The values of every point, by point id.
    pub closed spec fn point_values(&self) -> Seq<Seq<T>> {
        lists_of(self.point_to_values@)
    }

    /// The largest number of values that any point has carried.
    pub closed spec fn max_values(&self) -> nat {
        self.max_values_per_point as nat
    }

    /// The points the histogram counts.
    pub closed spec fn histogram_points(&self) -> Seq<Point<T>> {
        self.histogram@
    }

    pub closed spec fn wf(&self) -> bool {
        &&& is_sorted(self.map@)
        &&& self.histogram.wf()
        &&& self.histogram@ == self.map@
        &&& self.points_count == count_nonempty(lists_of(self.point_to_values@))
        &&& forall|i: int|
            0 <= i < self.point_to_values@.len() ==> (#[trigger] self.point_to_values@[i])@.len()
                <= self.max_values_per_point
        &&& tied(self.map@, lists_of(self.point_to_values@))
    }

    pub proof fn lemma_wf(&self)
        requires
            self.wf(),
        ensures
            is_sorted(self.points()),
            self.histogram_points() == self.points(),
            tied(self.points(), self.point_values()),
            forall|i: int|
                0 <= i < self.point_values().len() ==> (#[trigger] self.point_values()[i]).len()
                    <= self.max_values(),
    {
        assert forall|i: int| 0 <= i < self.point_values().len() implies (
        #[trigger] self.point_values()[i]).len() <= self.max_values() by {
            assert(self.point_values()[i] == self.point_to_values@[i]@);
        }
    }

    pub fn new() -> (index: Self)
        ensures
            index.wf(),
            index.points() == Seq::<Point<T>>::empty(),
            index.point_values() == Seq::<Seq<T>>::empty(),
            index.max_values() == 0,
    {
        let index = InMemoryNumericIndex {
            map: Vec::new(),
            histogram: Histogram::new(),
            points_count: 0,
            max_values_per_point: 0,
            point_to_values: Vec::new(),
        };
        assert(index.point_values() =~= Seq::<Seq<T>>::empty());
        index
    }

    /// A store over points that are sorted already and the value lists
    /// that go with them: every pair has its value in the list of its
    /// point, and every value has its pair.
    pub fn from_sorted(points: Vec<Point<T>>, lists: Vec<Vec<T>>) -> (index: Self)
        requires
            is_sorted(points@),
            tied(points@, lists_of(lists@)),
        ensures
            index.wf(),
            index.points() == points@,
            index.point_values() == lists_of(lists@),
            index.max_values() == longest_list(lists_of(lists@)),
    {
        let mut histogram_points: Vec<Point<T>> = Vec::new();
        let mut k: usize = 0;
        while k < points.len()
            invariant
                k <= points.len(),
                histogram_points@ == points@.take(k as int),
            decreases points.len() - k,
        {
            histogram_points.push(points[k]);
            assert(histogram_points@ =~= points@.take(k + 1));
            k = k + 1;
        }
        assert(points@.take(points.len() as int) =~= points@);
        let mut points_count: usize = 0;
        let mut longest: usize = 0;
        let mut i: usize = 0;
        while i < lists.len()
            invariant
                i <= lists.len(),
                points_count == count_nonempty(lists_of(lists@).take(i as int)),
                points_count <= i,
                longest == longest_list(lists_of(lists@).take(i as int)),
            decreases lists.len() - i,
        {
            proof {
                assert(lists_of(lists@).take(i + 1).drop_last() =~= lists_of(lists@).take(
                    i as int,
                ));
            }
            if lists[i].len() > 0 {
                points_count = points_count + 1;
            }
            if lists[i].len() > longest {
                longest = lists[i].len();
            }
            i = i + 1;
        }
        proof {
            assert(lists_of(lists@).take(lists.len() as int) =~= lists_of(lists@));
            assert forall|j: int| 0 <= j < lists@.len() implies (#[trigger] lists@[j])@.len()
                <= longest by {
                lemma_longest_list_bounds(lists_of(lists@), j);
            }
        }
        InMemoryNumericIndex {
            map: points,
            histogram: Histogram::from_sorted(histogram_points),
            points_count,
            max_values_per_point: longest,
            point_to_values: lists,
        }
    }

    /// Gives point `idx` the values `values`, in place of any it had. With
    /// no values nothing changes.
    pub fn add_many_to_list(&mut self, idx: PointOffsetType, values: Vec<T>)
        requires
            old(self).wf(),
        ensures
            final(self).wf(),
            values@.len() == 0 ==> *final(self) == *old(self),
            values@.len() > 0 ==> {
                &&& final(self).points() == insert_points(
                    without_point(old(self).points(), idx),
                    values@,
                    idx,
                )
                &&& final(self).point_values() == grown_to(old(self).point_values(), idx).update(
                    idx as int,
                    values@,
                )
                &&& final(self).max_values() == if values@.len() > old(self).max_values() {
                    values@.len()
                } else {
                    old(self).max_values()
                }
            },
    {
        if values.len() == 0 {
            return ;
        }
        self.remove_point(idx);
        let ghost cleared = self.point_values();
        while self.point_to_values.len() <= idx as usize
            invariant
                self.wf(),
                self.map@ == without_point(old(self).map@, idx),
                self.max_values_per_point == old(self).max_values_per_point,
                self.point_to_values@.len() >= cleared.len(),
                self.point_to_values@.len() > cleared.len() ==> self.point_to_values@.len() <= idx
                    + 1,
                cleared.len() == old(self).point_values().len(),
                forall|i: int|
                    0 <= i < self.point_to_values@.len() ==> (
                    #[trigger] self.point_to_values@[i])@ == if i < cleared.len() {
                        cleared[i]
                    } else {
                        Seq::<T>::empty()
                    },
            decreases idx + 1 - self.point_to_values@.len(),
        {
            let ghost before = lists_of(self.point_to_values@);
            self.point_to_values.push(Vec::new());
            proof {
                let after = lists_of(self.point_to_values@);
                assert(after.drop_last() =~= before);
                assert(after =~= before.push(Seq::<T>::empty()));
                crate::pairing::lemma_tied_after_growth(self.map@, before);
            }
        }
        let ghost grown = lists_of(self.point_to_values@);
        let ghost grown_lists = self.point_to_values@;
        proof {
            assert(grown =~= grown_to(old(self).point_values(), idx).update(
                idx as int,
                Seq::<T>::empty(),
            ));
            assert(values@.take(0) =~= Seq::<T>::empty());
            assert(grown.update(idx as int, values@.take(0)) =~= grown);
        }
        let mut k: usize = 0;
        while k < values.len()
            invariant
                k <= values.len(),
                is_sorted(self.map@),
                self.histogram.wf(),
                self.histogram@ == self.map@,
                self.map@ == insert_points(
                    without_point(old(self).map@, idx),
                    values@.take(k as int),
                    idx,
                ),
                self.point_to_values@ == grown_lists,
                lists_of(grown_lists) == grown,
                idx < grown_lists.len(),
                tied(self.map@, grown.update(idx as int, values@.take(k as int))),
                self.points_count == count_nonempty(grown),
                self.max_values_per_point == old(self).max_values_per_point,
                forall|i: int|
                    0 <= i < grown_lists.len() ==> (#[trigger] grown_lists[i])@.len()
                        <= self.max_values_per_point,
            decreases values.len() - k,
        {
            let point = Point::new(values[k], idx);
            proof {
                assert(values@.take(k + 1).drop_last() =~= values@.take(k as int));
                assert(grown.len() == grown_lists.len());
                assert(values@.take(k as int).push(values@[k as int]) =~= values@.take(k + 1));
                let so_far = grown.update(idx as int, values@.take(k as int));
                crate::pairing::lemma_tied_after_insert(self.map@, so_far, idx, values@[k as int]);
                assert(so_far.update(idx as int, so_far[idx as int].push(values@[k as int]))
                    =~= grown.update(idx as int, values@.take(k + 1)));
            }
            insert_sorted(&mut self.map, point);
            self.histogram.insert(point);
            k = k + 1;
        }
        proof {
            assert(values@.take(values.len() as int) =~= values@);
            lemma_count_nonempty_update(grown, idx as int, values@);
            lemma_count_nonempty_bound(grown.update(idx as int, values@));
            assert(grown[idx as int] == self.point_to_values@[idx as int]@);
        }
        self.points_count = self.points_count + 1;
        if values.len() > self.max_values_per_point {
            self.max_values_per_point = values.len();
        }
        self.point_to_values.set(idx as usize, values);
        proof {
            assert(lists_of(self.point_to_values@) =~= grown.update(idx as int, values@));
            assert(self.point_values() =~= grown_to(old(self).point_values(), idx).update(
                idx as int,
                values@,
            ));
        }
    }

    /// Forgets point `idx`: its entries leave the ordered store and the
    /// histogram, and its value list becomes empty.
    pub fn remove_point(&mut self, idx: PointOffsetType)
        requires
            old(self).wf(),
        ensures
            final(self).wf(),
            final(self).points() == without_point(old(self).points(), idx),
            final(self).point_values() == if idx < old(self).point_values().len() {
                old(self).point_values().update(idx as int, Seq::<T>::empty())
            } else {
                old(self).point_values()
            },
            final(self).max_values() == old(self).max_values(),
    {
        proof {
            crate::pairing::lemma_tied_after_removal(
                self.map@,
                lists_of(self.point_to_values@),
                idx,
            );
        }
        remove_point_entries(&mut self.map, idx);
        self.histogram.remove_point(idx);
        if (idx as usize) < self.point_to_values.len() {
            let ghost before = lists_of(self.point_to_values@);
            let had: usize = self.point_to_values[idx as usize].len();
            proof {
                lemma_count_nonempty_update(before, idx as int, Seq::<T>::empty());
                assert(before[idx as int] == self.point_to_values@[idx as int]@);
            }
            if had > 0 {
                self.points_count = self.points_count - 1;
            }
            self.point_to_values.set(idx as usize, Vec::new());
            proof {
                assert(lists_of(self.point_to_values@) =~= before.update(
                    idx as int,
                    Seq::<T>::empty(),
                ));
            }
        }
    }

    /// The values of point `idx`; `None` for a point the store never saw.
    pub fn get_values(&self, idx: PointOffsetType) -> (r: Option<&Vec<T>>)
        ensures
            r.is_some() <==> idx < self.point_values().len(),
            r matches Some(values) ==> values@ == self.point_values()[idx as int],
    {
        if (idx as usize) < self.point_to_values.len() {
            Some(&self.point_to_values[idx as usize])
        } else {
            None
        }
    }

    pub fn values_count(&self, idx: PointOffsetType) -> (r: Option<usize>)
        ensures
            r.is_some() <==> idx < self.point_values().len(),
            r matches Some(n) ==> n == self.point_values()[idx as int].len(),
    {
        if (idx as usize) < self.point_to_values.len() {
            Some(self.point_to_values[idx as usize].len())
        } else {
            None
        }
    }

    /// Whether `check_fn` accepts one of the values of point `idx`. Stops
    /// at the first value accepted.
    pub fn check_values_any<F: Fn(&T) -> bool>(&self, idx: PointOffsetType, check_fn: F) -> (r:
        bool)
        requires
            forall|v: &T| check_fn.requires((v,)),
        ensures
            r ==> idx < self.point_values().len() && exists|k: int|
                0 <= k < self.point_values()[idx as int].len() && check_fn.ensures(
                    (&#[trigger] self.point_values()[idx as int][k],),
                    true,
                ),
            !r ==> idx >= self.point_values().len() || forall|k: int|
                0 <= k < self.point_values()[idx as int].len() ==> check_fn.ensures(
                    (&#[trigger] self.point_values()[idx as int][k],),
                    false,
                ),
    {
        if (idx as usize) >= self.point_to_values.len() {
            return false;
        }
        let values = &self.point_to_values[idx as usize];
        let mut k: usize = 0;
        while k < values.len()
            invariant
                k <= values.len(),
                idx < self.point_values().len(),
                values@ == self.point_values()[idx as int],
                forall|v: &T| check_fn.requires((v,)),
                forall|j: int| 0 <= j < k ==> check_fn.ensures((&#[trigger] values@[j],), false),
            decreases values.len() - k,
        {
            if check_fn(&values[k]) {
                return true;
            }
            k = k + 1;
        }
        false
    }

    /// The ids of the points between the two bounds, ascending by value
    /// and then by id.
    pub fn values_range(&self, start: Bound<Point<T>>, end: Bound<Point<T>>) -> (ids: Vec<
        PointOffsetType,
    >)
        requires
            self.wf(),
        ensures
            ids@ == ids_of(range_of(self.points(), start, end)),
    {
        let (lo, hi) = range_indices(&self.map, &start, &end);
        collect_ids(&self.map, lo, hi)
    }

    /// The number of points between the two bounds.
    pub fn values_range_size(&self, start: Bound<Point<T>>, end: Bound<Point<T>>) -> (n: usize)
        requires
            self.wf(),
        ensures
            n == range_of(self.points(), start, end).len(),
    {
        let (lo, hi) = range_indices(&self.map, &start, &end);
        hi - lo
    }

    /// The `(value, id)` pairs between the two bounds, ascending; read it
    /// from either end.
    pub fn orderable_values_range(&self, start: Bound<Point<T>>, end: Bound<Point<T>>) -> (pairs:
        Vec<(T, PointOffsetType)>)
        requires
            self.wf(),
        ensures
            pairs@ == pairs_of(range_of(self.points(), start, end)),
    {
        let (lo, hi) = range_indices(&self.map, &start, &end);
        collect_pairs(&self.map, lo, hi)
    }

    /// The ids of the first and the last point between the two bounds.
    pub fn range_endpoints(&self, start: Bound<Point<T>>, end: Bound<Point<T>>) -> (r: (
        Option<PointOffsetType>,
        Option<PointOffsetType>,
    ))
        requires
            self.wf(),
        ensures
            ({
                let within = range_of(self.points(), start, end);
                &&& r.0 == if within.len() > 0 {
                    Some(within.first().idx)
                } else {
                    None
                }
                &&& r.1 == if within.len() > 1 {
                    Some(within.last().idx)
                } else {
                    None
                }
            }),
    {
        let (lo, hi) = range_indices(&self.map, &start, &end);
        let first = if lo < hi {
            Some(self.map[lo].idx)
        } else {
            None
        };
        let last = if hi - lo > 1 {
            Some(self.map[hi - 1].idx)
        } else {
            None
        };
        (first, last)
    }

    /// The number of points that carry a value.
    pub fn get_points_count(&self) -> (n: usize)
        requires
            self.wf(),
        ensures
            n == count_nonempty(self.point_values()),
    {
        self.points_count
    }

    /// The number of distinct `(value, id)` pairs.
    pub fn total_unique_values_count(&self) -> (n: usize)
        ensures
            n == self.points().len(),
    {
        self.map.len()
    }

    pub fn get_max_values_per_point(&self) -> (n: usize)
        ensures
            n == self.max_values(),
    {
        self.max_values_per_point
    }

    pub fn get_histogram(&self) -> (h: &Histogram<T>)
        requires
            self.wf(),
        ensures
            h.wf(),
            h@ == self.points(),
    {
        &self.histogram
    }

    /// The stored points, ascending, as they are laid out when the store
    /// is written to a file.
    pub fn sorted_points(&self) -> (points: &Vec<Point<T>>)
        ensures
            points@ == self.points(),
    {
        &self.map
    }

    /// Gives up the store for its value lists.
    pub fn into_value_lists(self) -> (lists: Vec<Vec<T>>)
        ensures
            lists_of(lists@) == self.point_values(),
    {
        self.point_to_values
    }

    /// The value lists, by point id.
    pub fn value_lists(&self) -> (lists: &Vec<Vec<T>>)
        ensures
            lists_of(lists@) == self.point_values(),
            lists@.len() == self.point_values().len(),
    {
        &self.point_to_values
    }
}

} // verus!
