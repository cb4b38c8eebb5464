//! Distribution of the indexed values, used to size ranges.
//!
//! The histogram keeps one border per indexed point, so a bucket never
//! holds more than one point and every estimate it gives is exact: the
//! lower bound, the expectation and the upper bound of an estimate
//! coincide.

use vstd::prelude::*;
use crate::encodable::Encodable;
use crate::sorted_points::above_start;
use crate::sorted_points::insert_sorted;
use crate::sorted_points::is_sorted;
use crate::sorted_points::lemma_filter_window;
use crate::sorted_points::partition_index;
use crate::sorted_points::point_rank;
use crate::sorted_points::range_indices;
use crate::sorted_points::range_of;
use crate::sorted_points::remove_point_entries;
use crate::sorted_points::sorted_insert;
use crate::sorted_points::without_point;
use crate::types::Bound;
use crate::types::Point;
use crate::types::PointOffsetType;

verus! {

/// Largest number of points a bucket may hold.
pub const HISTOGRAM_MAX_BUCKET_SIZE: usize = 10_000;

/// The point bound at which a range of values starts.
pub open spec fn value_start<T>(from: Bound<T>) -> Bound<Point<T>> {
    match from {
        Bound::Included(v) => Bound::Included(Point { val: v, idx: 0 }),
        Bound::Excluded(v) => Bound::Excluded(Point { val: v, idx: 0xffff_ffff }),
        Bound::Unbounded => Bound::Unbounded,
    }
}

/// The point bound at which a range of values ends.
pub open spec fn value_end<T>(to: Bound<T>) -> Bound<Point<T>> {
    match to {
        Bound::Included(v) => Bound::Included(Point { val: v, idx: 0xffff_ffff }),
        Bound::Excluded(v) => Bound::Excluded(Point { val: v, idx: 0 }),
        Bound::Unbounded => Bound::Unbounded,
    }
}

/// The points whose value lies above `from`, in order.
pub open spec fn points_above<T: Encodable>(s: Seq<Point<T>>, from: Bound<T>) -> Seq<Point<T>> {
    s.filter(|p: Point<T>| above_start(p, value_start(from)))
}

/// How many points have a value between the two bounds.
pub open spec fn count_between<T: Encodable>(s: Seq<Point<T>>, from: Bound<T>, to: Bound<T>) -> nat {
    range_of(s, value_start(from), value_end(to)).len()
}

/// The smallest upper bound under which at least `size` points lie above
/// `from`; unbounded if fewer remain. A size of zero is served as one, so
/// that a bounded answer always lies above `from`.
pub open spec fn range_by_size<T: Encodable>(s: Seq<Point<T>>, from: Bound<T>, size: nat) -> Bound<
    T,
> {
    let above = points_above(s, from);
    let n = if size == 0 {
        1
    } else {
        size
    };
    if above.len() < n {
        Bound::Unbounded
    } else {
        Bound::Included(above[n - 1].val)
    }
}

pub fn point_start<T: Copy>(from: &Bound<T>) -> (b: Bound<Point<T>>)
    ensures
        b == value_start(*from),
{
    match from {
        Bound::Included(v) => Bound::Included(Point::new(*v, 0)),
        Bound::Excluded(v) => Bound::Excluded(Point::new(*v, PointOffsetType::MAX)),
        Bound::Unbounded => Bound::Unbounded,
    }
}

pub fn point_end<T: Copy>(to: &Bound<T>) -> (b: Bound<Point<T>>)
    ensures
        b == value_end(*to),
{
    match to {
        Bound::Included(v) => Bound::Included(Point::new(*v, PointOffsetType::MAX)),
        Bound::Excluded(v) => Bound::Excluded(Point::new(*v, 0)),
        Bound::Unbounded => Bound::Unbounded,
    }
}

pub struct Histogram<T: Encodable> {
    borders: Vec<Point<T>>,
}

impl<T: Encodable> Histogram<T> {
    /// The points counted, in ascending order.
    pub closed spec fn view(&self) -> Seq<Point<T>> {
        self.borders@
    }

    pub closed spec fn wf(&self) -> bool {
        is_sorted(self.borders@)
    }

    pub fn new() -> (h: Self)
        ensures
            h.wf(),
            h@ == Seq::<Point<T>>::empty(),
    {
        Histogram { borders: Vec::new() }
    }

    /// A histogram of points that are sorted already.
    pub fn from_sorted(points: Vec<Point<T>>) -> (h: Self)
        requires
            is_sorted(points@),
        ensures
            h.wf(),
            h@ == points@,
    {
        Histogram { borders: points }
    }

    /// Counts `point`, unless it is counted already.
    pub fn insert(&mut self, point: Point<T>)
        requires
            old(self).wf(),
        ensures
            final(self).wf(),
            final(self)@ == sorted_insert(old(self)@, point),
    {
        insert_sorted(&mut self.borders, point);
    }

    /// Forgets every value of point `idx`.
    pub fn remove_point(&mut self, idx: PointOffsetType)
        requires
            old(self).wf(),
        ensures
            final(self).wf(),
            final(self)@ == without_point(old(self)@, idx),
    {
        remove_point_entries(&mut self.borders, idx);
    }

    pub fn get_total_count(&self) -> (n: usize)
        ensures
            n == self@.len(),
    {
        self.borders.len()
    }

    /// The largest number of points any bucket holds now.
    pub fn current_bucket_size(&self) -> (n: usize)
        ensures
            n == if self@.len() == 0 {
                0nat
            } else {
                1nat
            },
            n <= HISTOGRAM_MAX_BUCKET_SIZE,
    {
        if self.borders.len() == 0 {
            0
        } else {
            1
        }
    }

    /// Lower bound, expectation and upper bound of the number of points
    /// with a value between `from` and `to`.
    pub fn estimate(&self, from: Bound<T>, to: Bound<T>) -> (r: (usize, usize, usize))
        requires
            self.wf(),
        ensures
            r.0 == count_between(self@, from, to),
            r.1 == count_between(self@, from, to),
            r.2 == count_between(self@, from, to),
    {
        let start = point_start(&from);
        let end = point_end(&to);
        let (lo, hi) = range_indices(&self.borders, &start, &end);
        let n: usize = hi - lo;
        (n, n, n)
    }

    /// The smallest upper bound under which at least `range_size` points
    /// lie above `from`.
    pub fn get_range_by_size(&self, from: Bound<T>, range_size: usize) -> (upper: Bound<T>)
        requires
            self.wf(),
        ensures
            upper == range_by_size(self@, from, range_size as nat),
            upper !is Excluded,
            upper matches Bound::Included(v) ==> {
                &&& points_above(self@, Bound::Excluded(v)).len() < points_above(self@, from).len()
                &&& count_between(self@, from, upper) >= range_size
            },
    {
        let start = point_start(&from);
        let lo: usize = match &start {
            Bound::Included(b) => partition_index(&self.borders, b, false),
            Bound::Excluded(b) => partition_index(&self.borders, b, true),
            Bound::Unbounded => 0,
        };
        let len: usize = self.borders.len();
        let n: usize = if range_size == 0 {
            1
        } else {
            range_size
        };
        proof {
            let pred = |p: Point<T>| above_start(p, value_start(from));
            assert forall|k: int| 0 <= k < len implies (pred(#[trigger] self.borders@[k]) <==> lo
                <= k < len) by {}
            lemma_filter_window(self.borders@, pred, lo as int, len as int);
        }
        if len - lo < n {
            Bound::Unbounded
        } else {
            let at: usize = lo + (n - 1);
            let v = self.borders[at].val;
            proof {
                let s = self.borders@;
                let next = |p: Point<T>| above_start(p, value_start(Bound::Excluded(v)));
                let cut = lemma_cut_above(s, v, at as int);
                assert forall|k: int| 0 <= k < len implies (next(#[trigger] s[k]) <==> cut <= k
                    < len) by {}
                lemma_filter_window(s, next, cut, len as int);
                let within = |p: Point<T>|
                    crate::sorted_points::in_range(
                        p,
                        value_start(from),
                        value_end(Bound::Included(v)),
                    );
                assert forall|k: int| 0 <= k < len implies (within(#[trigger] s[k]) <==> lo <= k
                    < cut) by {
                    assert(next(s[k]) <==> cut <= k < len);
                }
                lemma_filter_window(s, within, lo as int, cut);
            }
            Bound::Included(v)
        }
    }
}

/// Whether the points of `s` whose value lies strictly above `v` are
/// exactly those from index `c` on.
pub open spec fn cuts_above<T: Encodable>(s: Seq<Point<T>>, v: T, c: int) -> bool {
    forall|k: int|
        0 <= k < s.len() ==> (above_start(#[trigger] s[k], value_start(Bound::Excluded(v))) <==> c
            <= k < s.len())
}

/// In a sorted sequence, the points whose value lies strictly above `v`
/// form a suffix that starts after any index holding a value at the
/// position of `v`.
pub proof fn lemma_cut_above<T: Encodable>(s: Seq<Point<T>>, v: T, at: int) -> (c: int)
    requires
        is_sorted(s),
        0 <= at < s.len(),
        s[at].val.order_key() == v.order_key(),
    ensures
        at < c <= s.len(),
        cuts_above(s, v, c),
    decreases s.len() - at,
{
    let top = Point { val: v, idx: 0xffff_ffff };
    if at + 1 == s.len() || point_rank(s[at + 1]) > point_rank(top) {
        let c = at + 1;
        assert forall|k: int| 0 <= k < s.len() implies (above_start(
            #[trigger] s[k],
            value_start(Bound::Excluded(v)),
        ) <==> c <= k < s.len()) by {
            if k < at {
                assert(point_rank(s[k]) < point_rank(s[at]));
            } else if k > at + 1 {
                assert(point_rank(s[at + 1]) < point_rank(s[k]));
            }
        }
        c
    } else {
        assert(point_rank(s[at]) < point_rank(s[at + 1]));
        lemma_cut_above(s, v, at + 1)
    }
}

/// The bound that `range_by_size` gives is the smallest that serves: under
/// any bound on a value below it, fewer values than asked for lie above
/// `from`.
pub proof fn lemma_range_by_size_is_smallest<T: Encodable>(
    s: Seq<Point<T>>,
    from: Bound<T>,
    size: nat,
    below: T,
)
    requires
        is_sorted(s),
        range_by_size(s, from, size) matches Bound::Included(v) && below.order_key()
            < v.order_key(),
    ensures
        count_between(s, from, Bound::Included(below)) < if size == 0 {
            1
        } else {
            size
        },
{
    let n = if size == 0 {
        1
    } else {
        size
    };
    let lower = |p: Point<T>| above_start(p, value_start(from));
    let upper = |p: Point<T>| crate::sorted_points::below_end(p, value_end(Bound::Included(below)));
    let within = |p: Point<T>|
        crate::sorted_points::in_range(p, value_start(from), value_end(Bound::Included(below)));
    let above = s.filter(lower);
    let v = above[n - 1].val;
    crate::sorted_points::lemma_filter_sorted(s, lower);
    crate::sorted_points::lemma_filter_both(s, lower, upper);
    crate::sorted_points::lemma_filter_agree(s, |p: Point<T>| lower(p) && upper(p), within);
    let head = above.take(n - 1);
    let tail = above.skip(n - 1);
    assert(above =~= head + tail);
    Seq::filter_distributes_over_add(head, tail, upper);
    assert forall|k: int| 0 <= k < tail.len() implies (upper(#[trigger] tail[k]) <==> 0 <= k
        < 0) by {
        assert(tail[k] == above[k + n - 1]);
        if k > 0 {
            assert(point_rank(above[n - 1]) < point_rank(above[k + n - 1]));
        }
    }
    lemma_filter_window(tail, upper, 0, 0);
    head.lemma_filter_len(upper);
    assert(tail.subrange(0, 0).len() == 0);
}

} // verus!
