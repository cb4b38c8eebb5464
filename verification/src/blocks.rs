//! Partition of the value domain into blocks, walked along the histogram.

use vstd::prelude::*;
use crate::encodable::Encodable;
use crate::histogram::points_above;
use crate::histogram::range_by_size;
use crate::histogram::value_start;
use crate::sorted_points::above_start;
use crate::sorted_points::point_rank;
use crate::types::Bound;
use crate::types::Point;
use crate::types::Range;

verus! {

/// The lower bound a range asks for; `gte` takes precedence over `gt`.
pub open spec fn lower_bound<T>(range: Range<T>) -> Bound<T> {
    match (range.gte, range.gt) {
        (Some(v), _) => Bound::Included(v),
        (None, Some(v)) => Bound::Excluded(v),
        (None, None) => Bound::Unbounded,
    }
}

/// The upper bound a range asks for; `lte` takes precedence over `lt`.
pub open spec fn upper_bound<T>(range: Range<T>) -> Bound<T> {
    match (range.lte, range.lt) {
        (Some(v), _) => Bound::Included(v),
        (None, Some(v)) => Bound::Excluded(v),
        (None, None) => Bound::Unbounded,
    }
}

/// The range that lies between two bounds.
pub open spec fn range_between<T>(lower: Bound<T>, upper: Bound<T>) -> Range<T> {
    Range {
        lt: match upper {
            Bound::Excluded(v) => Some(v),
            _ => None,
        },
        gt: match lower {
            Bound::Excluded(v) => Some(v),
            _ => None,
        },
        gte: match lower {
            Bound::Included(v) => Some(v),
            _ => None,
        },
        lte: match upper {
            Bound::Included(v) => Some(v),
            _ => None,
        },
    }
}

pub open spec fn value_above<T: Encodable>(value: T, lower: Bound<T>) -> bool {
    match lower {
        Bound::Included(v) => value.order_key() >= v.order_key(),
        Bound::Excluded(v) => value.order_key() > v.order_key(),
        Bound::Unbounded => true,
    }
}

pub open spec fn value_below<T: Encodable>(value: T, upper: Bound<T>) -> bool {
    match upper {
        Bound::Included(v) => value.order_key() <= v.order_key(),
        Bound::Excluded(v) => value.order_key() < v.order_key(),
        Bound::Unbounded => true,
    }
}

/// Whether a value lies in a range.
pub open spec fn range_contains<T: Encodable>(range: Range<T>, value: T) -> bool {
    value_above(value, lower_bound(range)) && value_below(value, upper_bound(range))
}

/// The ranges of the blocks from `lower` on: each block ends at the
/// smallest upper bound under which `step` values lie above its start, and
/// the next block starts right after it; the last block has no end.
pub open spec fn block_ranges<T: Encodable>(s: Seq<Point<T>>, lower: Bound<T>, step: nat) -> Seq<
    Range<T>,
>
    decreases points_above(s, lower).len(),
{
    let upper = range_by_size(s, lower, step);
    match upper {
        Bound::Included(v) => {
            proof {
                lemma_step_makes_progress(s, lower, step);
            }
            seq![range_between(lower, upper)] + block_ranges(s, Bound::Excluded(v), step)
        },
        _ => seq![range_between(lower, upper)],
    }
}

/// The element of a filtered sequence at index `j` stands somewhere in the
/// sequence and passes the filter.
pub proof fn lemma_filter_index<A>(s: Seq<A>, pred: spec_fn(A) -> bool, j: int) -> (i: int)
    requires
        0 <= j < s.filter(pred).len(),
    ensures
        0 <= i < s.len(),
        s[i] == s.filter(pred)[j],
        pred(s[i]),
    decreases s.len(),
{
    reveal(Seq::filter);
    if s.len() == 0 {
        0
    } else {
        let t = s.drop_last();
        if pred(s.last()) && j == t.filter(pred).len() {
            s.len() - 1
        } else {
            lemma_filter_index(t, pred, j)
        }
    }
}

/// A filter that asks for more keeps no more.
pub proof fn lemma_filter_narrower<A>(s: Seq<A>, p: spec_fn(A) -> bool, q: spec_fn(A) -> bool)
    requires
        forall|k: int| 0 <= k < s.len() ==> (q(#[trigger] s[k]) ==> p(s[k])),
    ensures
        s.filter(q).len() <= s.filter(p).len(),
    decreases s.len(),
{
    reveal(Seq::filter);
    if s.len() > 0 {
        let t = s.drop_last();
        assert forall|k: int| 0 <= k < t.len() implies (q(#[trigger] t[k]) ==> p(t[k])) by {
            assert(t[k] == s[k]);
        }
        lemma_filter_narrower(t, p, q);
        assert(s.last() == s[s.len() - 1]);
    }
}

/// A filter that asks for more and turns away something the other keeps,
/// keeps less.
pub proof fn lemma_filter_strictly_narrower<A>(
    s: Seq<A>,
    p: spec_fn(A) -> bool,
    q: spec_fn(A) -> bool,
    i: int,
)
    requires
        forall|k: int| 0 <= k < s.len() ==> (q(#[trigger] s[k]) ==> p(s[k])),
        0 <= i < s.len(),
        p(s[i]),
        !q(s[i]),
    ensures
        s.filter(q).len() < s.filter(p).len(),
    decreases s.len(),
{
    reveal(Seq::filter);
    let t = s.drop_last();
    assert forall|k: int| 0 <= k < t.len() implies (q(#[trigger] t[k]) ==> p(t[k])) by {
        assert(t[k] == s[k]);
    }
    assert(s.last() == s[s.len() - 1]);
    if i == s.len() - 1 {
        lemma_filter_narrower(t, p, q);
    } else {
        assert(t[i] == s[i]);
        lemma_filter_strictly_narrower(t, p, q, i);
    }
}

/// A point lies above a bound on values exactly if its value does.
pub proof fn lemma_point_above<T: Encodable>(p: Point<T>, lower: Bound<T>)
    ensures
        above_start(p, value_start(lower)) <==> value_above(p.val, lower),
{
}

/// A bounded answer of the histogram lies above the bound asked from, and
/// fewer points lie above it than above that bound.
pub proof fn lemma_step_makes_progress<T: Encodable>(s: Seq<Point<T>>, lower: Bound<T>, step: nat)
    ensures
        range_by_size(s, lower, step) matches Bound::Included(v) ==> {
            &&& value_above(v, lower)
            &&& points_above(s, Bound::Excluded(v)).len() < points_above(s, lower).len()
        },
        !(range_by_size(s, lower, step) is Excluded),
{
    if let Bound::Included(v) = range_by_size(s, lower, step) {
        let p = |x: Point<T>| above_start(x, value_start(lower));
        let q = |x: Point<T>| above_start(x, value_start(Bound::Excluded(v)));
        let n = if step == 0 {
            1
        } else {
            step
        };
        let above = points_above(s, lower);
        let i = lemma_filter_index(s, p, n - 1);
        assert(s[i].val == v);
        lemma_point_above(s[i], lower);
        assert forall|k: int| 0 <= k < s.len() implies (q(#[trigger] s[k]) ==> p(s[k])) by {
            if q(s[k]) {
                assert(point_rank(s[k]) > point_rank(s[i]));
            }
        }
        lemma_filter_strictly_narrower(s, p, q, i);
    }
}

/// The blocks from `lower` on cover every value above `lower`, hold no
/// other value, and no two of them share a value.
pub proof fn lemma_blocks_partition<T: Encodable>(s: Seq<Point<T>>, lower: Bound<T>, step: nat)
    ensures
        block_ranges(s, lower, step).len() >= 1,
        forall|x: T|
            value_above(x, lower) ==> exists|i: int|
                0 <= i < block_ranges(s, lower, step).len() && #[trigger] range_contains(
                    block_ranges(s, lower, step)[i],
                    x,
                ),
        forall|i: int, x: T|
            0 <= i < block_ranges(s, lower, step).len() && #[trigger] range_contains(
                block_ranges(s, lower, step)[i],
                x,
            ) ==> value_above(x, lower),
        forall|i: int, j: int, x: T|
            0 <= i < j < block_ranges(s, lower, step).len() ==> !(#[trigger] range_contains(
                block_ranges(s, lower, step)[i],
                x,
            ) && #[trigger] range_contains(block_ranges(s, lower, step)[j], x)),
    decreases points_above(s, lower).len(),
{
    let upper = range_by_size(s, lower, step);
    let first = range_between(lower, upper);
    let all = block_ranges(s, lower, step);
    lemma_step_makes_progress(s, lower, step);
    assert(lower_bound(first) == lower);
    assert(upper_bound(first) == upper);
    match upper {
        Bound::Included(v) => {
            let rest = block_ranges(s, Bound::Excluded(v), step);
            lemma_blocks_partition(s, Bound::Excluded(v), step);
            assert(all =~= seq![first] + rest);
            assert(all[0] == first);
            assert forall|i: int| 1 <= i < all.len() implies all[i] == rest[i - 1] by {}
            assert forall|x: T| value_above(x, lower) implies exists|i: int|
                0 <= i < all.len() && #[trigger] range_contains(all[i], x) by {
                if x.order_key() <= v.order_key() {
                    assert(range_contains(all[0], x));
                } else {
                    assert(value_above(x, Bound::Excluded(v)));
                    let i = choose|i: int|
                        0 <= i < rest.len() && #[trigger] range_contains(rest[i], x);
                    assert(all[i + 1] == rest[i]);
                    assert(range_contains(all[i + 1], x));
                }
            }
            assert forall|i: int, x: T|
                0 <= i < all.len() && #[trigger] range_contains(all[i], x) implies value_above(
                x,
                lower,
            ) by {
                if i > 0 {
                    assert(all[i] == rest[i - 1]);
                    assert(range_contains(rest[i - 1], x));
                    assert(value_above(x, Bound::Excluded(v)));
                }
            }
            assert forall|i: int, j: int, x: T| 0 <= i < j < all.len() implies !(
            #[trigger] range_contains(all[i], x) && #[trigger] range_contains(all[j], x)) by {
                assert(all[j] == rest[j - 1]);
                if i == 0 {
                    if range_contains(all[j], x) {
                        assert(range_contains(rest[j - 1], x));
                        assert(value_above(x, Bound::Excluded(v)));
                    }
                } else {
                    assert(all[i] == rest[i - 1]);
                }
            }
        },
        _ => {
            assert(all =~= seq![first]);
            assert forall|x: T| value_above(x, lower) implies exists|i: int|
                0 <= i < all.len() && #[trigger] range_contains(all[i], x) by {
                assert(range_contains(all[0], x));
            }
        },
    }
}

/// The blocks of an index cover the whole value domain and no two of them
/// overlap: every value lies in exactly one block.
pub proof fn lemma_blocks_cover_domain<T: Encodable>(s: Seq<Point<T>>, step: nat, x: T)
    ensures
        exists|i: int|
            0 <= i < block_ranges(s, Bound::<T>::Unbounded, step).len() && #[trigger] range_contains(
                block_ranges(s, Bound::<T>::Unbounded, step)[i],
                x,
            ),
        forall|i: int, j: int|
            0 <= i < j < block_ranges(s, Bound::<T>::Unbounded, step).len() ==> !(range_contains(
                #[trigger] block_ranges(s, Bound::<T>::Unbounded, step)[i],
                x,
            ) && range_contains(#[trigger] block_ranges(s, Bound::<T>::Unbounded, step)[j], x)),
{
    lemma_blocks_partition(s, Bound::<T>::Unbounded, step);
    assert(value_above(x, Bound::<T>::Unbounded));
}

} // verus!
