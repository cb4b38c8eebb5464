//! A sequence of points kept in ascending `(value, point id)` order, with
//! the searches and updates every ordered store is built from.

use vstd::prelude::*;
use crate::encodable::Encodable;
use crate::types::Bound;
use crate::types::KeyOrdering;
use crate::types::Point;
use crate::types::PointOffsetType;

verus! {

/// Position of a point in the total order of points: the position of its
/// value, then its id.
pub open spec fn point_rank<T: Encodable>(p: Point<T>) -> nat {
    p.val.order_key() * 0x1_0000_0000 + p.idx as nat
}

/// Strictly ascending, so no `(value, id)` pair occurs twice.
pub open spec fn is_sorted<T: Encodable>(s: Seq<Point<T>>) -> bool {
    forall|i: int, j: int| 0 <= i < j < s.len() ==> point_rank(s[i]) < point_rank(s[j])
}

pub open spec fn above_start<T: Encodable>(p: Point<T>, start: Bound<Point<T>>) -> bool {
    match start {
        Bound::Included(b) => point_rank(p) >= point_rank(b),
        Bound::Excluded(b) => point_rank(p) > point_rank(b),
        Bound::Unbounded => true,
    }
}

pub open spec fn below_end<T: Encodable>(p: Point<T>, end: Bound<Point<T>>) -> bool {
    match end {
        Bound::Included(b) => point_rank(p) <= point_rank(b),
        Bound::Excluded(b) => point_rank(p) < point_rank(b),
        Bound::Unbounded => true,
    }
}

pub open spec fn in_range<T: Encodable>(
    p: Point<T>,
    start: Bound<Point<T>>,
    end: Bound<Point<T>>,
) -> bool {
    above_start(p, start) && below_end(p, end)
}

/// The points of `s` that lie between the two bounds, in order.
pub open spec fn range_of<T: Encodable>(
    s: Seq<Point<T>>,
    start: Bound<Point<T>>,
    end: Bound<Point<T>>,
) -> Seq<Point<T>> {
    s.filter(|p: Point<T>| in_range(p, start, end))
}

/// Whether an interval can hold anything: its start must not lie above its
/// end, and the two may only coincide if neither is exclusive.
pub open spec fn bounds_valid<T: Encodable>(start: Bound<Point<T>>, end: Bound<Point<T>>) -> bool {
    match (start, end) {
        (Bound::Excluded(s), Bound::Excluded(e)) => point_rank(s) < point_rank(e),
        (Bound::Included(s), Bound::Included(e)) => point_rank(s) <= point_rank(e),
        (Bound::Included(s), Bound::Excluded(e)) => point_rank(s) <= point_rank(e),
        (Bound::Excluded(s), Bound::Included(e)) => point_rank(s) <= point_rank(e),
        _ => true,
    }
}

pub open spec fn has_rank<T: Encodable>(s: Seq<Point<T>>, rank: nat) -> bool {
    exists|k: int| 0 <= k < s.len() && point_rank(#[trigger] s[k]) == rank
}

/// `s` with `p` put in its place, or `s` itself if a point of the same
/// value and id is already there.
pub open spec fn sorted_insert<T: Encodable>(s: Seq<Point<T>>, p: Point<T>) -> Seq<Point<T>> {
    if has_rank(s, point_rank(p)) {
        s
    } else {
        s.insert(s.filter(|q: Point<T>| point_rank(q) < point_rank(p)).len() as int, p)
    }
}

/// `s` without the entries of point `idx`.
pub open spec fn without_point<T: Encodable>(s: Seq<Point<T>>, idx: PointOffsetType) -> Seq<
    Point<T>,
> {
    s.filter(|p: Point<T>| p.idx != idx)
}

/// A filter that holds exactly on one window of indices keeps that window.
pub proof fn lemma_filter_window<A>(s: Seq<A>, pred: spec_fn(A) -> bool, lo: int, hi: int)
    requires
        0 <= lo <= hi <= s.len(),
        forall|k: int| 0 <= k < s.len() ==> (pred(#[trigger] s[k]) <==> lo <= k < hi),
    ensures
        s.filter(pred) == s.subrange(lo, hi),
    decreases s.len(),
{
    if s.len() == 0 {
        reveal(Seq::filter);
        assert(s.subrange(lo, hi) =~= s);
    } else {
        let t = s.drop_last();
        let n = s.len() - 1;
        assert(s =~= t.push(s.last()));
        t.lemma_filter_push(s.last(), pred);
        assert forall|k: int| 0 <= k < t.len() implies (pred(#[trigger] t[k]) <==> lo <= k < hi) by {
            assert(t[k] == s[k]);
        }
        if hi == s.len() {
            if lo == s.len() {
                lemma_filter_window(t, pred, n, n);
                assert(s.subrange(lo, hi) =~= t.subrange(n, n));
            } else {
                lemma_filter_window(t, pred, lo, n);
                assert(s.subrange(lo, hi) =~= t.subrange(lo, n).push(s.last()));
            }
        } else {
            lemma_filter_window(t, pred, lo, hi);
            assert(s.subrange(lo, hi) =~= t.subrange(lo, hi));
        }
    }
}

/// Two filters that agree on every element keep the same elements.
pub proof fn lemma_filter_agree<A>(s: Seq<A>, p: spec_fn(A) -> bool, q: spec_fn(A) -> bool)
    requires
        forall|k: int| 0 <= k < s.len() ==> p(#[trigger] s[k]) == q(s[k]),
    ensures
        s.filter(p) == s.filter(q),
    decreases s.len(),
{
    reveal(Seq::filter);
    if s.len() > 0 {
        let t = s.drop_last();
        assert forall|k: int| 0 <= k < t.len() implies p(#[trigger] t[k]) == q(t[k]) by {
            assert(t[k] == s[k]);
        }
        lemma_filter_agree(t, p, q);
        assert(s.last() == s[s.len() - 1]);
    }
}

/// Filtering twice keeps what both filters accept.
pub proof fn lemma_filter_both<A>(s: Seq<A>, p: spec_fn(A) -> bool, q: spec_fn(A) -> bool)
    ensures
        s.filter(p).filter(q) == s.filter(|x: A| p(x) && q(x)),
    decreases s.len(),
{
    let both = |x: A| p(x) && q(x);
    if s.len() == 0 {
        reveal(Seq::filter);
        assert(s.filter(p) =~= s);
    } else {
        let t = s.drop_last();
        assert(s =~= t.push(s.last()));
        lemma_filter_both(t, p, q);
        t.lemma_filter_push(s.last(), p);
        t.lemma_filter_push(s.last(), both);
        if p(s.last()) {
            t.filter(p).lemma_filter_push(s.last(), q);
        }
    }
}

/// The order of two filters does not matter.
pub proof fn lemma_filter_commute<A>(s: Seq<A>, p: spec_fn(A) -> bool, q: spec_fn(A) -> bool)
    ensures
        s.filter(p).filter(q) == s.filter(q).filter(p),
{
    lemma_filter_both(s, p, q);
    lemma_filter_both(s, q, p);
    lemma_filter_agree(s, |x: A| p(x) && q(x), |x: A| q(x) && p(x));
}

/// What a filter keeps of a sorted sequence is sorted.
pub proof fn lemma_filter_sorted<T: Encodable>(s: Seq<Point<T>>, pred: spec_fn(Point<T>) -> bool)
    requires
        is_sorted(s),
    ensures
        is_sorted(s.filter(pred)),
        forall|k: int|
            0 <= k < s.filter(pred).len() ==> s.len() > 0 && point_rank(
                #[trigger] s.filter(pred)[k],
            ) <= point_rank(s.last()),
    decreases s.len(),
{
    if s.len() == 0 {
        reveal(Seq::filter);
    } else {
        let t = s.drop_last();
        assert(s =~= t.push(s.last()));
        assert(is_sorted(t)) by {
            assert forall|i: int, j: int| 0 <= i < j < t.len() implies point_rank(t[i])
                < point_rank(t[j]) by {
                assert(t[i] == s[i] && t[j] == s[j]);
            }
        }
        lemma_filter_sorted(t, pred);
        t.lemma_filter_push(s.last(), pred);
        if t.len() > 0 {
            assert(point_rank(t.last()) < point_rank(s.last())) by {
                assert(t.last() == s[s.len() - 2]);
            }
        }
    }
}

/// An interval that cannot hold anything selects nothing.
pub proof fn lemma_invalid_bounds_select_nothing<T: Encodable>(
    s: Seq<Point<T>>,
    start: Bound<Point<T>>,
    end: Bound<Point<T>>,
)
    requires
        !bounds_valid(start, end),
    ensures
        range_of(s, start, end) == Seq::<Point<T>>::empty(),
{
    let pred = |p: Point<T>| in_range(p, start, end);
    assert forall|k: int| 0 <= k < s.len() implies (pred(#[trigger] s[k]) <==> 0 <= k < 0) by {}
    lemma_filter_window(s, pred, 0, 0);
    assert(s.subrange(0, 0) =~= Seq::<Point<T>>::empty());
}

/// Anything that can hand out a sequence of points by index: a vector in
/// memory, or encoded keys in a file.
pub trait PointSource<T: Encodable> {
    /// The points, in the order of their indices.
    spec fn points(&self) -> Seq<Point<T>>;

    /// Whether the source is laid out as its methods expect.
    spec fn ready(&self) -> bool;

    fn count(&self) -> (n: usize)
        requires
            self.ready(),
        ensures
            n == self.points().len(),
    ;

    fn point_at(&self, i: usize) -> (p: Point<T>)
        requires
            self.ready(),
            i < self.points().len(),
        ensures
            p == self.points()[i as int],
    ;
}

impl<T: Encodable> PointSource<T> for Vec<Point<T>> {
    open spec fn points(&self) -> Seq<Point<T>> {
        self@
    }

    open spec fn ready(&self) -> bool {
        true
    }

    fn count(&self) -> (n: usize) {
        self.len()
    }

    fn point_at(&self, i: usize) -> (p: Point<T>) {
        self[i]
    }
}

/// Whether `a` comes strictly before `b`.
pub fn point_lt<T: Encodable>(a: &Point<T>, b: &Point<T>) -> (r: bool)
    ensures
        r == (point_rank(*a) < point_rank(*b)),
{
    match a.val.cmp_encoded(&b.val) {
        KeyOrdering::Less => true,
        KeyOrdering::Equal => a.idx < b.idx,
        KeyOrdering::Greater => false,
    }
}

/// Whether two values stand at the same place in the order.
pub fn same_place<T: Encodable>(a: &T, b: &T) -> (r: bool)
    ensures
        r == (a.order_key() == b.order_key()),
{
    match a.cmp_encoded(b) {
        KeyOrdering::Equal => true,
        _ => false,
    }
}

/// Whether an interval can hold anything.
pub fn check_boundaries<T: Encodable>(start: &Bound<Point<T>>, end: &Bound<Point<T>>) -> (ok: bool)
    ensures
        ok == bounds_valid(*start, *end),
{
    match (start, end) {
        (Bound::Excluded(s), Bound::Excluded(e)) => point_lt(s, e),
        (Bound::Included(s), Bound::Included(e)) => !point_lt(e, s),
        (Bound::Included(s), Bound::Excluded(e)) => !point_lt(e, s),
        (Bound::Excluded(s), Bound::Included(e)) => !point_lt(e, s),
        _ => true,
    }
}

pub open spec fn comes_before<T: Encodable>(p: Point<T>, target: Point<T>, inclusive: bool) -> bool {
    if inclusive {
        point_rank(p) <= point_rank(target)
    } else {
        point_rank(p) < point_rank(target)
    }
}

/// The number of leading points that come before `target`; with
/// `inclusive`, a point equal to `target` counts as coming before it.
pub fn partition_index<T: Encodable, S: PointSource<T>>(
    source: &S,
    target: &Point<T>,
    inclusive: bool,
) -> (i: usize)
    requires
        source.ready(),
        is_sorted(source.points()),
    ensures
        i <= source.points().len(),
        forall|k: int| 0 <= k < i ==> comes_before(#[trigger] source.points()[k], *target, inclusive),
        forall|k: int|
            i <= k < source.points().len() ==> !comes_before(
                #[trigger] source.points()[k],
                *target,
                inclusive,
            ),
{
    let ghost points = source.points();
    let mut lo: usize = 0;
    let mut hi: usize = source.count();
    while lo < hi
        invariant
            lo <= hi <= points.len(),
            source.ready(),
            points == source.points(),
            is_sorted(points),
            forall|k: int| 0 <= k < lo ==> comes_before(#[trigger] points[k], *target, inclusive),
            forall|k: int|
                hi <= k < points.len() ==> !comes_before(#[trigger] points[k], *target, inclusive),
        decreases hi - lo,
    {
        let mid: usize = lo + (hi - lo) / 2;
        let at = source.point_at(mid);
        let before = if inclusive {
            !point_lt(target, &at)
        } else {
            point_lt(&at, target)
        };
        if before {
            assert forall|k: int| 0 <= k < mid + 1 implies comes_before(
                #[trigger] points[k],
                *target,
                inclusive,
            ) by {
                if k < mid {
                    assert(point_rank(points[k]) < point_rank(points[mid as int]));
                }
            }
            lo = mid + 1;
        } else {
            assert forall|k: int| mid <= k < points.len() implies !comes_before(
                #[trigger] points[k],
                *target,
                inclusive,
            ) by {
                if k > mid {
                    assert(point_rank(points[mid as int]) < point_rank(points[k]));
                }
            }
            hi = mid;
        }
    }
    lo
}

/// The window of indices whose points lie between the two bounds.
pub fn range_indices<T: Encodable, S: PointSource<T>>(
    source: &S,
    start: &Bound<Point<T>>,
    end: &Bound<Point<T>>,
) -> (r: (usize, usize))
    requires
        source.ready(),
        is_sorted(source.points()),
    ensures
        r.0 <= r.1 <= source.points().len(),
        source.points().subrange(r.0 as int, r.1 as int) == range_of(source.points(), *start, *end),
        forall|k: int|
            0 <= k < source.points().len() ==> (in_range(
                #[trigger] source.points()[k],
                *start,
                *end,
            ) <==> r.0 <= k < r.1),
{
    let ghost points = source.points();
    let lo: usize = match start {
        Bound::Included(b) => partition_index(source, b, false),
        Bound::Excluded(b) => partition_index(source, b, true),
        Bound::Unbounded => 0,
    };
    let found_hi: usize = match end {
        Bound::Included(b) => partition_index(source, b, true),
        Bound::Excluded(b) => partition_index(source, b, false),
        Bound::Unbounded => source.count(),
    };
    assert forall|k: int| 0 <= k < points.len() implies (above_start(#[trigger] points[k], *start)
        <==> lo <= k) by {}
    assert forall|k: int| 0 <= k < points.len() implies (below_end(#[trigger] points[k], *end)
        <==> k < found_hi) by {}
    let hi: usize = if found_hi < lo {
        lo
    } else {
        found_hi
    };
    proof {
        let pred = |p: Point<T>| in_range(p, *start, *end);
        assert forall|k: int| 0 <= k < points.len() implies (pred(#[trigger] points[k]) <==> lo
            <= k < hi) by {}
        lemma_filter_window(points, pred, lo as int, hi as int);
    }
    (lo, hi)
}

/// Puts `p` in its place unless a point of the same value and id is there.
pub fn insert_sorted<T: Encodable>(points: &mut Vec<Point<T>>, p: Point<T>) -> (inserted: bool)
    requires
        is_sorted(old(points)@),
    ensures
        is_sorted(final(points)@),
        final(points)@ == sorted_insert(old(points)@, p),
        inserted == !has_rank(old(points)@, point_rank(p)),
        final(points)@.len() == old(points)@.len() + if inserted {
            1nat
        } else {
            0nat
        },
{
    let i: usize = partition_index(points, &p, false);
    let ghost before = points@;
    proof {
        let pred = |q: Point<T>| point_rank(q) < point_rank(p);
        assert forall|k: int| 0 <= k < before.len() implies (pred(#[trigger] before[k]) <==> 0 <= k
            < i) by {}
        lemma_filter_window(before, pred, 0, i as int);
    }
    if i < points.len() && !point_lt(&p, &points[i]) {
        assert(point_rank(before[i as int]) == point_rank(p));
        false
    } else {
        assert(!has_rank(before, point_rank(p))) by {
            if has_rank(before, point_rank(p)) {
                let k = choose|k: int| 0 <= k < before.len() && point_rank(#[trigger] before[k])
                    == point_rank(p);
                if k > i {
                    assert(point_rank(before[i as int]) < point_rank(before[k]));
                }
            }
        }
        points.insert(i, p);
        assert forall|a: int, b: int| 0 <= a < b < points@.len() implies point_rank(points@[a])
            < point_rank(points@[b]) by {
            let ra = if a < i { before[a] } else if a == i { p } else { before[a - 1] };
            let rb = if b < i { before[b] } else if b == i { p } else { before[b - 1] };
            assert(points@[a] == ra);
            assert(points@[b] == rb);
        }
        true
    }
}

/// Drops every entry of point `idx`.
pub fn remove_point_entries<T: Encodable>(points: &mut Vec<Point<T>>, idx: PointOffsetType)
    requires
        is_sorted(old(points)@),
    ensures
        is_sorted(final(points)@),
        final(points)@ == without_point(old(points)@, idx),
{
    let mut kept: Vec<Point<T>> = Vec::new();
    let mut i: usize = 0;
    let ghost pred = |p: Point<T>| p.idx != idx;
    proof {
        reveal(Seq::filter);
        assert(points@.take(0) =~= Seq::<Point<T>>::empty());
    }
    while i < points.len()
        invariant
            i <= points.len(),
            is_sorted(points@),
            is_sorted(kept@),
            pred == (|p: Point<T>| p.idx != idx),
            kept@ == points@.take(i as int).filter(pred),
            forall|k: int|
                0 <= k < kept@.len() ==> i > 0 && point_rank(#[trigger] kept@[k]) <= point_rank(
                    points@[i - 1],
                ),
        decreases points.len() - i,
    {
        let p = points[i];
        proof {
            assert(points@.take(i + 1) =~= points@.take(i as int).push(p));
            points@.take(i as int).lemma_filter_push(p, pred);
            if i > 0 {
                assert(point_rank(points@[i - 1]) < point_rank(points@[i as int]));
            }
        }
        if p.idx != idx {
            kept.push(p);
        }
        i = i + 1;
    }
    assert(points@.take(points.len() as int) =~= points@);
    *points = kept;
}

/// The ids of a sequence of points, in order.
pub open spec fn ids_of<T>(s: Seq<Point<T>>) -> Seq<PointOffsetType> {
    s.map_values(|p: Point<T>| p.idx)
}

/// The `(value, id)` pairs of a sequence of points, in order.
pub open spec fn pairs_of<T>(s: Seq<Point<T>>) -> Seq<(T, PointOffsetType)> {
    s.map_values(|p: Point<T>| (p.val, p.idx))
}

/// `s` after every value of `values` was put in for point `idx`, first
/// value first.
pub open spec fn insert_points<T: Encodable>(
    s: Seq<Point<T>>,
    values: Seq<T>,
    idx: PointOffsetType,
) -> Seq<Point<T>>
    decreases values.len(),
{
    if values.len() == 0 {
        s
    } else {
        sorted_insert(
            insert_points(s, values.drop_last(), idx),
            Point { val: values.last(), idx },
        )
    }
}

/// The ids of the points in a window of indices, in order.
pub fn collect_ids<T: Encodable, S: PointSource<T>>(source: &S, lo: usize, hi: usize) -> (ids: Vec<
    PointOffsetType,
>)
    requires
        source.ready(),
        lo <= hi <= source.points().len(),
    ensures
        ids@ == ids_of(source.points().subrange(lo as int, hi as int)),
{
    let ghost points = source.points();
    let mut ids: Vec<PointOffsetType> = Vec::new();
    let mut k: usize = lo;
    while k < hi
        invariant
            lo <= k <= hi <= points.len(),
            source.ready(),
            points == source.points(),
            ids@ == ids_of(points.subrange(lo as int, k as int)),
        decreases hi - k,
    {
        let p = source.point_at(k);
        ids.push(p.idx);
        assert(ids@ =~= ids_of(points.subrange(lo as int, k + 1)));
        k = k + 1;
    }
    ids
}

/// The `(value, id)` pairs of the points in a window of indices, in order.
pub fn collect_pairs<T: Encodable, S: PointSource<T>>(source: &S, lo: usize, hi: usize) -> (pairs:
    Vec<(T, PointOffsetType)>)
    requires
        source.ready(),
        lo <= hi <= source.points().len(),
    ensures
        pairs@ == pairs_of(source.points().subrange(lo as int, hi as int)),
{
    let ghost points = source.points();
    let mut pairs: Vec<(T, PointOffsetType)> = Vec::new();
    let mut k: usize = lo;
    while k < hi
        invariant
            lo <= k <= hi <= points.len(),
            source.ready(),
            points == source.points(),
            pairs@ == pairs_of(points.subrange(lo as int, k as int)),
        decreases hi - k,
    {
        let p = source.point_at(k);
        pairs.push((p.val, p.idx));
        assert(pairs@ =~= pairs_of(points.subrange(lo as int, k + 1)));
        k = k + 1;
    }
    pairs
}

} // verus!
