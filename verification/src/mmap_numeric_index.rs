//! The ordered numeric store as it lies in a file: encoded keys of one
//! width, ascending, searched where they lie, with tombstones for deleted
//! points.

use vstd::prelude::*;
use vstd::slice::slice_subrange;
use core::marker::PhantomData;
use crate::bitslice::bits_of;
use crate::bitslice::count_true;
use crate::bitslice::lemma_count_true_bound;
use crate::bitslice::lemma_count_true_update;
use crate::bitslice::MmapBitSlice;
use crate::bitslice::MmapBitSliceBufferedUpdateWrapper;
use crate::encodable::Encodable;
use crate::encodable::Numericable;
use crate::histogram::Histogram;
use crate::in_memory_numeric_index::lists_of;
use crate::in_memory_numeric_index::longest_list;
use crate::in_memory_numeric_index::InMemoryNumericIndex;
use crate::key_encoding::key_bytes;
use crate::key_encoding::key_id;
use crate::key_encoding::key_order_key;
use crate::key_encoding::lemma_be_value_bound;
use crate::key_encoding::lemma_key_round_trip;
use crate::key_encoding::lemma_pow256_values;
use crate::key_encoding::ID_LEN;
use crate::pairing::tied;
use crate::point_to_values::MmapPointToValues;
use crate::sorted_points::ids_of;
use crate::sorted_points::is_sorted;
use crate::sorted_points::lemma_filter_agree;
use crate::sorted_points::lemma_filter_both;
use crate::sorted_points::lemma_filter_commute;
use crate::sorted_points::lemma_filter_sorted;
use crate::sorted_points::in_range;
use crate::sorted_points::pairs_of;
use crate::sorted_points::point_lt;
use crate::sorted_points::point_rank;
use crate::sorted_points::range_indices;
use crate::sorted_points::range_of;
use crate::sorted_points::without_point;
use crate::sorted_points::PointSource;
use crate::types::Bound;
use crate::types::OperationError;
use crate::types::OperationResult;
use crate::types::Point;
use crate::types::PointOffsetType;

verus! {

/// File that holds the encoded keys.
pub const PAIRS_PATH: &'static str = "data.bin";

/// File that holds the tombstone bitmap.
pub const DELETED_PATH: &'static str = "deleted.bin";

/// Width in bytes of one key.
pub open spec fn stride<T: Encodable>() -> nat {
    T::spec_value_len() + ID_LEN as nat
}

/// The key of a point.
pub open spec fn key_of<T: Encodable>(p: Point<T>) -> Seq<u8> {
    key_bytes(p.val.order_key(), T::spec_value_len(), p.idx)
}

/// The keys of a sequence of points, one after the other.
pub open spec fn encoded_points<T: Encodable>(s: Seq<Point<T>>) -> Seq<u8>
    decreases s.len(),
{
    if s.len() == 0 {
        Seq::empty()
    } else {
        encoded_points(s.drop_last()) + key_of(s.last())
    }
}

/// The `i`-th key of a file of keys.
pub open spec fn chunk(bytes: Seq<u8>, i: int, stride: nat) -> Seq<u8> {
    bytes.subrange(i * stride, (i + 1) * stride)
}

/// The point a key spells.
pub open spec fn decoded_point<T: Encodable>(key: Seq<u8>) -> Point<T> {
    Point {
        val: T::from_order_key(key_order_key(key, T::spec_value_len())),
        idx: key_id(key, T::spec_value_len()) as PointOffsetType,
    }
}

/// The points a file of keys spells.
pub open spec fn decoded_points<T: Encodable>(bytes: Seq<u8>) -> Seq<Point<T>> {
    Seq::new(
        (bytes.len() / stride::<T>()) as nat,
        |i: int| decoded_point::<T>(chunk(bytes, i, stride::<T>())),
    )
}

/// A point as it comes back from its key.
pub open spec fn restored<T: Encodable>(p: Point<T>) -> Point<T> {
    Point { val: T::from_order_key(p.val.order_key()), idx: p.idx }
}

/// Whether a point is neither tombstoned nor beyond the bitmap.
pub open spec fn is_live(deleted: Seq<bool>, idx: PointOffsetType) -> bool {
    idx < deleted.len() && !deleted[idx as int]
}

/// The points that are not tombstoned, in order.
pub open spec fn live_points<T>(s: Seq<Point<T>>, deleted: Seq<bool>) -> Seq<Point<T>> {
    s.filter(|p: Point<T>| is_live(deleted, p.idx))
}

/// The tombstones a build starts from: one for every point without
/// values.
pub open spec fn empty_flags<T>(lists: Seq<Seq<T>>, len: nat) -> Seq<bool> {
    Seq::new(len, |i: int| i < lists.len() && lists[i].len() == 0)
}

/// A whole number of keys divides evenly by the key width.
pub proof fn lemma_whole_keys(n: int, w: int)
    requires
        n >= 0,
        w > 0,
    ensures
        (n * w) / w == n,
        (n * w) % w == 0,
{
    vstd::arithmetic::div_mod::lemma_div_multiples_vanish(n, w);
    vstd::arithmetic::div_mod::lemma_mod_multiples_basic(n, w);
    assert(n * w == w * n) by (nonlinear_arith);
}

/// The value lists with those of tombstoned points emptied.
pub open spec fn live_lists<T>(lists: Seq<Seq<T>>, deleted: Seq<bool>) -> Seq<Seq<T>> {
    Seq::new(
        lists.len(),
        |i: int|
            if i <= 0xffff_ffff && is_live(deleted, i as PointOffsetType) {
                lists[i]
            } else {
                Seq::empty()
            },
    )
}

/// Pairs and lists that agree still agree once tombstoned points are
/// left out of both.
pub proof fn lemma_tied_live<T: Encodable>(
    stored: Seq<Point<T>>,
    lists: Seq<Seq<T>>,
    deleted: Seq<bool>,
)
    requires
        tied(stored, lists),
    ensures
        tied(live_points(stored, deleted), live_lists(lists, deleted)),
{
    let pred = |p: Point<T>| is_live(deleted, p.idx);
    let live = live_points(stored, deleted);
    let seen = live_lists(lists, deleted);
    assert forall|k: int| 0 <= k < live.len() implies (#[trigger] live[k]).idx < seen.len()
        && crate::pairing::holds_value(seen[live[k].idx as int], live[k].val.order_key()) by {
        let i = crate::blocks::lemma_filter_index(stored, pred, k);
        assert(stored[i].idx < lists.len());
        assert(seen[stored[i].idx as int] == lists[stored[i].idx as int]);
    }
    assert forall|id: int, j: int|
        0 <= id < seen.len() && 0 <= j < seen[id].len() implies #[trigger] crate::pairing::value_has_pair(
        live,
        seen,
        id,
        j,
    ) by {
        assert(seen[id] == lists[id]);
        assert(crate::pairing::value_has_pair(stored, lists, id, j));
        let rank = crate::pairing::pair_rank(lists[id][j], id);
        let k = choose|k: int| 0 <= k < stored.len() && point_rank(#[trigger] stored[k]) == rank;
        assert(stored[k].idx == id);
        stored.lemma_filter_contains(pred, k);
        let at = choose|at: int| 0 <= at < live.len() && live[at] == stored[k];
        assert(point_rank(live[at]) == rank);
    }
}

pub proof fn lemma_encoded_len<T: Encodable>(s: Seq<Point<T>>)
    ensures
        encoded_points(s).len() == s.len() * stride::<T>(),
    decreases s.len(),
{
    if s.len() > 0 {
        lemma_encoded_len(s.drop_last());
        s.last().val.lemma_order_key_fits();
        lemma_key_round_trip(s.last().val.order_key(), T::spec_value_len(), s.last().idx);
        assert((s.len() - 1) * stride::<T>() + stride::<T>() == s.len() * stride::<T>())
            by (nonlinear_arith);
    } else {
        assert(0 * stride::<T>() == 0);
    }
}

pub proof fn lemma_encoded_chunk<T: Encodable>(s: Seq<Point<T>>, i: int)
    requires
        0 <= i < s.len(),
    ensures
        chunk(encoded_points(s), i, stride::<T>()) == key_of(s[i]),
    decreases s.len(),
{
    let w = stride::<T>();
    let t = s.drop_last();
    lemma_encoded_len(t);
    lemma_encoded_len(s);
    s.last().val.lemma_order_key_fits();
    lemma_key_round_trip(s.last().val.order_key(), T::spec_value_len(), s.last().idx);
    assert(i * w + w == (i + 1) * w) by (nonlinear_arith);
    if i == s.len() - 1 {
        assert(chunk(encoded_points(s), i, w) =~= key_of(s.last()));
    } else {
        lemma_encoded_chunk(t, i);
        assert((i + 1) * w <= t.len() * w) by (nonlinear_arith)
            requires
                i + 1 <= t.len(),
                w >= 0,
        ;
        assert(0 <= i * w) by (nonlinear_arith)
            requires
                i >= 0,
                w >= 0,
        ;
        assert(chunk(encoded_points(s), i, w) =~= chunk(encoded_points(t), i, w));
    }
}

/// Encoding and decoding gives every point back as its key restores it.
pub proof fn lemma_decode_encoded<T: Encodable>(s: Seq<Point<T>>)
    ensures
        decoded_points::<T>(encoded_points(s)) == s.map_values(|p: Point<T>| restored(p)),
{
    let w = stride::<T>();
    let bytes = encoded_points(s);
    lemma_encoded_len(s);
    lemma_whole_keys(s.len() as int, w as int);
    assert forall|i: int| 0 <= i < s.len() implies decoded_points::<T>(bytes)[i] == restored(
        s[i],
    ) by {
        lemma_encoded_chunk(s, i);
        s[i].val.lemma_order_key_fits();
        lemma_key_round_trip(s[i].val.order_key(), T::spec_value_len(), s[i].idx);
    }
    assert(decoded_points::<T>(bytes) =~= s.map_values(|p: Point<T>| restored(p)));
}

/// Restoring keeps the order: a sorted sequence comes back sorted.
pub proof fn lemma_restored_sorted<T: Numericable>(s: Seq<Point<T>>)
    requires
        is_sorted(s),
    ensures
        is_sorted(s.map_values(|p: Point<T>| restored(p))),
{
    let r = s.map_values(|p: Point<T>| restored(p));
    assert forall|i: int, j: int| 0 <= i < j < r.len() implies point_rank(r[i]) < point_rank(
        r[j],
    ) by {
        s[i].val.lemma_decode_keeps_position();
        s[j].val.lemma_decode_keeps_position();
        assert(point_rank(s[i]) < point_rank(s[j]));
    }
}

fn append_bytes(out: &mut Vec<u8>, src: &Vec<u8>)
    ensures
        final(out)@ == old(out)@ + src@,
{
    let mut k: usize = 0;
    while k < src.len()
        invariant
            k <= src.len(),
            out@ == old(out)@ + src@.take(k as int),
        decreases src.len() - k,
    {
        out.push(src[k]);
        assert(out@ =~= old(out)@ + src@.take(k + 1));
        k = k + 1;
    }
    assert(src@.take(src.len() as int) =~= src@);
}

/// Lays out the keys of `points`, one after the other.
pub fn encode_points<T: Encodable>(points: &Vec<Point<T>>) -> (bytes: Vec<u8>)
    ensures
        bytes@ == encoded_points(points@),
{
    let mut bytes: Vec<u8> = Vec::new();
    let mut k: usize = 0;
    while k < points.len()
        invariant
            k <= points.len(),
            bytes@ == encoded_points(points@.take(k as int)),
        decreases points.len() - k,
    {
        let key = points[k].val.encode_key(points[k].idx);
        append_bytes(&mut bytes, &key);
        proof {
            assert(points@.take(k + 1).drop_last() =~= points@.take(k as int));
        }
        k = k + 1;
    }
    assert(points@.take(points.len() as int) =~= points@);
    bytes
}

/// A file of encoded keys.
pub struct EncodedPairs<T: Encodable> {
    bytes: Vec<u8>,
    count: usize,
    marker: PhantomData<T>,
}

impl<T: Encodable> EncodedPairs<T> {
    pub closed spec fn bytes(&self) -> Seq<u8> {
        self.bytes@
    }

    pub closed spec fn wf(&self) -> bool {
        self.bytes@.len() == self.count * stride::<T>()
    }

    proof fn lemma_count(&self)
        requires
            self.wf(),
        ensures
            decoded_points::<T>(self.bytes()).len() == self.bytes().len() / stride::<T>(),
            decoded_points::<T>(self.bytes()).len() * stride::<T>() == self.bytes().len(),
            decoded_points::<T>(self.bytes()).len() == self.count,
            self.bytes().len() % stride::<T>() == 0,
    {
        lemma_whole_keys(self.count as int, stride::<T>() as int);
    }

    /// Takes `bytes` as a file of keys; `None` unless they are a whole
    /// number of keys.
    pub fn new(bytes: Vec<u8>) -> (r: Option<Self>)
        ensures
            r.is_some() <==> bytes@.len() % stride::<T>() == 0,
            r matches Some(pairs) ==> pairs.wf() && pairs.bytes() == bytes@,
    {
        let w: usize = T::value_len() + ID_LEN;
        if bytes.len() % w == 0 {
            let count: usize = bytes.len() / w;
            proof {
                vstd::arithmetic::div_mod::lemma_fundamental_div_mod(
                    bytes@.len() as int,
                    w as int,
                );
                assert(count * w == w * count) by (nonlinear_arith);
            }
            Some(EncodedPairs { bytes, count, marker: PhantomData })
        } else {
            None
        }
    }

    pub fn as_bytes(&self) -> (bytes: &Vec<u8>)
        ensures
            bytes@ == self.bytes(),
    {
        &self.bytes
    }
}

impl<T: Encodable> PointSource<T> for EncodedPairs<T> {
    closed spec fn points(&self) -> Seq<Point<T>> {
        decoded_points::<T>(self.bytes@)
    }

    closed spec fn ready(&self) -> bool {
        self.wf()
    }

    fn count(&self) -> (n: usize) {
        proof {
            self.lemma_count();
        }
        self.count
    }

    fn point_at(&self, i: usize) -> (p: Point<T>) {
        let w: usize = T::value_len() + ID_LEN;
        proof {
            self.lemma_count();
            assert(i < self.count);
            assert(w == stride::<T>());
            assert(self.count * w == self.bytes@.len());
            assert(i * w + w == (i + 1) * w) by (nonlinear_arith);
            assert((i + 1) * w <= self.count * w) by (nonlinear_arith)
                requires
                    i + 1 <= self.count,
                    w >= 0,
            ;
            assert(0 <= i * w) by (nonlinear_arith)
                requires
                    i >= 0,
                    w >= 0,
            ;
        }
        let total: usize = self.bytes.len();
        assert(i * w <= total && i * w + w <= total);
        let start: usize = i * w;
        let key = slice_subrange(self.bytes.as_slice(), start, start + w);
        let (idx, val) = T::decode_key(key);
        proof {
            lemma_be_value_bound(key@.subrange(T::spec_value_len() as int, stride::<T>() as int));
            lemma_pow256_values();
        }
        Point { val, idx }
    }
}

/// Whether the points of a source are strictly ascending.
pub fn check_sorted<T: Encodable, S: PointSource<T>>(source: &S) -> (ok: bool)
    requires
        source.ready(),
    ensures
        ok == is_sorted(source.points()),
{
    let ghost points = source.points();
    let n: usize = source.count();
    if n < 2 {
        return true;
    }
    let mut prev = source.point_at(0);
    let mut k: usize = 1;
    while k < n
        invariant
            1 <= k <= n,
            n == points.len(),
            source.ready(),
            points == source.points(),
            prev == points[k - 1],
            forall|i: int, j: int| 0 <= i < j < k ==> point_rank(points[i]) < point_rank(points[j]),
        decreases n - k,
    {
        let next = source.point_at(k);
        if !point_lt(&prev, &next) {
            return false;
        }
        assert forall|i: int, j: int| 0 <= i < j < k + 1 implies point_rank(points[i])
            < point_rank(points[j]) by {
            if j == k && i < k - 1 {
                assert(point_rank(points[i]) < point_rank(points[k - 1]));
            }
        }
        prev = next;
        k = k + 1;
    }
    true
}

/// The live points of a window of indices, in order.
fn collect_live<T: Encodable, S: PointSource<T>>(
    source: &S,
    deleted: &MmapBitSliceBufferedUpdateWrapper,
    lo: usize,
    hi: usize,
) -> (live: Vec<Point<T>>)
    requires
        source.ready(),
        deleted.wf(),
        lo <= hi <= source.points().len(),
    ensures
        live@ == live_points(source.points().subrange(lo as int, hi as int), deleted@),
{
    let ghost points = source.points();
    let ghost pred = |p: Point<T>| is_live(deleted@, p.idx);
    let mut live: Vec<Point<T>> = Vec::new();
    let mut k: usize = lo;
    proof {
        reveal(Seq::filter);
        assert(points.subrange(lo as int, lo as int) =~= Seq::<Point<T>>::empty());
    }
    while k < hi
        invariant
            lo <= k <= hi <= points.len(),
            source.ready(),
            deleted.wf(),
            points == source.points(),
            pred == (|p: Point<T>| is_live(deleted@, p.idx)),
            live@ == points.subrange(lo as int, k as int).filter(pred),
        decreases hi - k,
    {
        let p = source.point_at(k);
        proof {
            assert(points.subrange(lo as int, k + 1) =~= points.subrange(lo as int, k as int).push(
                p,
            ));
            points.subrange(lo as int, k as int).lemma_filter_push(p, pred);
        }
        if deleted.get(p.idx as usize) == Some(false) {
            live.push(p);
        }
        k = k + 1;
    }
    live
}

fn ids_from<T>(points: &Vec<Point<T>>) -> (ids: Vec<PointOffsetType>)
    ensures
        ids@ == ids_of(points@),
{
    let mut ids: Vec<PointOffsetType> = Vec::new();
    let mut k: usize = 0;
    while k < points.len()
        invariant
            k <= points.len(),
            ids@ == ids_of(points@.take(k as int)),
        decreases points.len() - k,
    {
        ids.push(points[k].idx);
        assert(ids@ =~= ids_of(points@.take(k + 1)));
        k = k + 1;
    }
    assert(points@.take(points.len() as int) =~= points@);
    ids
}

fn pairs_from<T: Copy>(points: &Vec<Point<T>>) -> (pairs: Vec<(T, PointOffsetType)>)
    ensures
        pairs@ == pairs_of(points@),
{
    let mut pairs: Vec<(T, PointOffsetType)> = Vec::new();
    let mut k: usize = 0;
    while k < points.len()
        invariant
            k <= points.len(),
            pairs@ == pairs_of(points@.take(k as int)),
        decreases points.len() - k,
    {
        pairs.push((points[k].val, points[k].idx));
        assert(pairs@ =~= pairs_of(points@.take(k + 1)));
        k = k + 1;
    }
    assert(points@.take(points.len() as int) =~= points@);
    pairs
}

/// The longest of the value lists.
pub fn longest_of<T>(lists: &Vec<Vec<T>>) -> (n: usize)
    ensures
        n == longest_list(lists_of(lists@)),
{
    let mut n: usize = 0;
    let mut k: usize = 0;
    while k < lists.len()
        invariant
            k <= lists.len(),
            n == longest_list(lists_of(lists@).take(k as int)),
        decreases lists.len() - k,
    {
        proof {
            assert(lists_of(lists@).take(k + 1).drop_last() =~= lists_of(lists@).take(k as int));
        }
        if lists[k].len() > n {
            n = lists[k].len();
        }
        k = k + 1;
    }
    assert(lists_of(lists@).take(lists.len() as int) =~= lists_of(lists@));
    n
}

/// A bitmap for `lists.len()` points with a tombstone on every point
/// that has no values.
pub fn build_tombstones<T>(lists: &Vec<Vec<T>>) -> (bitmap: MmapBitSlice)
    requires
        lists@.len() <= usize::MAX - 63,
    ensures
        bitmap.wf(),
        bitmap.bytes().len() == crate::bitslice::bitmap_file_len(lists@.len()),
        bitmap@ == empty_flags(lists_of(lists@), bitmap@.len()),
        bitmap@.len() >= lists@.len(),
{
    let mut bitmap = MmapBitSlice::zeroed(lists.len());
    let ghost len = bitmap@.len();
    let mut k: usize = 0;
    while k < lists.len()
        invariant
            k <= lists.len(),
            bitmap.wf(),
            bitmap@.len() == len,
            len >= lists@.len(),
            bitmap.bytes().len() == crate::bitslice::bitmap_file_len(lists@.len()),
            forall|i: int|
                0 <= i < len ==> #[trigger] bitmap@[i] == (i < k && lists@[i]@.len() == 0),
        decreases lists.len() - k,
    {
        let ghost before = bitmap@;
        if lists[k].len() == 0 {
            bitmap.set(k, true);
        }
        assert forall|i: int| 0 <= i < len implies #[trigger] bitmap@[i] == (i < k + 1
            && lists@[i]@.len() == 0) by {
            assert(before[i] == (i < k && lists@[i]@.len() == 0));
            if i != k {
                assert(bitmap@[i] == before[i]);
            }
        }
        k = k + 1;
    }
    proof {
        bitmap.lemma_view();
        assert(bitmap@ =~= empty_flags(lists_of(lists@), bitmap@.len()));
    }
    bitmap
}

pub struct MmapNumericIndex<T: Encodable> {
    pairs: EncodedPairs<T>,
    deleted: MmapBitSliceBufferedUpdateWrapper,
    point_to_values: MmapPointToValues<T>,
    histogram: Histogram<T>,
    deleted_count: usize,
    max_values_per_point: usize,
    is_on_disk: bool,
}

impl<T: Encodable> MmapNumericIndex<T> {
    /// The bytes of the key file.
    pub closed spec fn pairs_bytes(&self) -> Seq<u8> {
        self.pairs.bytes()
    }

    /// Every stored point, tombstoned or not, ascending.
    pub closed spec fn stored(&self) -> Seq<Point<T>> {
        self.pairs.points()
    }

    /// The tombstones as readers see them.
    pub closed spec fn deleted_bits(&self) -> Seq<bool> {
        self.deleted@
    }

    /// The points that are not tombstoned, ascending.
    pub open spec fn points(&self) -> Seq<Point<T>> {
        live_points(self.stored(), self.deleted_bits())
    }

    /// The values of every point, tombstoned or not, by point id.
    pub closed spec fn point_values(&self) -> Seq<Seq<T>> {
        self.point_to_values@
    }

    pub closed spec fn max_values(&self) -> nat {
        self.max_values_per_point as nat
    }

    pub closed spec fn on_disk(&self) -> bool {
        self.is_on_disk
    }

    pub closed spec fn wf(&self) -> bool {
        &&& self.pairs.wf()
        &&& is_sorted(self.pairs.points())
        &&& self.deleted.wf()
        &&& self.histogram.wf()
        &&& self.histogram@ == live_points(self.pairs.points(), self.deleted@)
        &&& self.deleted_count == count_true(self.deleted@)
        &&& self.max_values_per_point == longest_list(self.point_to_values@)
        &&& tied(self.pairs.points(), self.point_to_values@)
    }

    pub proof fn lemma_wf(&self)
        requires
            self.wf(),
        ensures
            self.stored() == decoded_points::<T>(self.pairs_bytes()),
            is_sorted(self.stored()),
            is_sorted(self.points()),
            self.max_values() == longest_list(self.point_values()),
            tied(self.stored(), self.point_values()),
            tied(self.points(), live_lists(self.point_values(), self.deleted_bits())),
    {
        lemma_filter_sorted(self.stored(), |p: Point<T>| is_live(self.deleted_bits(), p.idx));
        lemma_tied_live(self.stored(), self.point_values(), self.deleted_bits());
    }

    /// Opens a store over the bytes of its key file, the bytes of its
    /// tombstone bitmap and the values of its points. Fails unless the
    /// keys are whole and strictly ascending, keys and values agree (every
    /// key has its value in the list of its point, and every value has
    /// its key), and the bitmap can be addressed.
    pub fn open(
        pairs: Vec<u8>,
        deleted: Vec<u8>,
        point_to_values: MmapPointToValues<T>,
        is_on_disk: bool,
    ) -> (r: OperationResult<Self>)
        ensures
            r.is_ok() <==> {
                &&& pairs@.len() % stride::<T>() == 0
                &&& is_sorted(decoded_points::<T>(pairs@))
                &&& tied(decoded_points::<T>(pairs@), point_to_values@)
                &&& deleted@.len() * 8 <= usize::MAX
            },
            r matches Ok(index) ==> {
                &&& index.wf()
                &&& index.pairs_bytes() == pairs@
                &&& index.stored() == decoded_points::<T>(pairs@)
                &&& index.deleted_bits() == bits_of(deleted@)
                &&& index.point_values() == point_to_values@
                &&& index.on_disk() == is_on_disk
            },
    {
        let pairs = match EncodedPairs::<T>::new(pairs) {
            Some(pairs) => pairs,
            None => {
                return Err(OperationError::corruption("key file is not a whole number of keys"));
            },
        };
        if !check_sorted(&pairs) {
            return Err(OperationError::corruption("keys are not strictly ascending"));
        }
        if !crate::pairing::check_tied(&pairs, point_to_values.as_lists()) {
            return Err(OperationError::corruption("keys and point values do not agree"));
        }
        let bitslice = match MmapBitSlice::from_bytes(deleted) {
            Some(bitslice) => bitslice,
            None => {
                return Err(OperationError::corruption("tombstone bitmap is too large"));
            },
        };
        let deleted = MmapBitSliceBufferedUpdateWrapper::new(bitslice);
        let deleted_count: usize = deleted.count_ones();
        let n: usize = pairs.count();
        let live = collect_live(&pairs, &deleted, 0, n);
        proof {
            assert(pairs.points().subrange(0, n as int) =~= pairs.points());
            lemma_filter_sorted(pairs.points(), |p: Point<T>| is_live(deleted@, p.idx));
        }
        let histogram = Histogram::from_sorted(live);
        let max_values_per_point: usize = longest_of(point_to_values.as_lists());
        Ok(
            MmapNumericIndex {
                pairs,
                deleted,
                point_to_values,
                histogram,
                deleted_count,
                max_values_per_point,
                is_on_disk,
            },
        )
    }

    /// The ids of the live points between the two bounds, ascending by
    /// value and then by id.
    pub fn values_range(&self, start: Bound<Point<T>>, end: Bound<Point<T>>) -> (ids: Vec<
        PointOffsetType,
    >)
        requires
            self.wf(),
        ensures
            ids@ == ids_of(range_of(self.points(), start, end)),
    {
        let live = self.live_range(&start, &end);
        ids_from(&live)
    }

    /// The number of live points between the two bounds.
    pub fn values_range_size(&self, start: Bound<Point<T>>, end: Bound<Point<T>>) -> (n: usize)
        requires
            self.wf(),
        ensures
            n == range_of(self.points(), start, end).len(),
    {
        let live = self.live_range(&start, &end);
        live.len()
    }

    /// The live `(value, id)` pairs between the two bounds, ascending;
    /// read it from either end.
    pub fn orderable_values_range(&self, start: Bound<Point<T>>, end: Bound<Point<T>>) -> (pairs:
        Vec<(T, PointOffsetType)>)
        requires
            self.wf(),
        ensures
            pairs@ == pairs_of(range_of(self.points(), start, end)),
    {
        let live = self.live_range(&start, &end);
        pairs_from(&live)
    }

    fn live_range(&self, start: &Bound<Point<T>>, end: &Bound<Point<T>>) -> (live: Vec<Point<T>>)
        requires
            self.wf(),
        ensures
            live@ == range_of(self.points(), *start, *end),
    {
        let (lo, hi) = range_indices(&self.pairs, start, end);
        proof {
            lemma_filter_commute(
                self.pairs.points(),
                |p: Point<T>| is_live(self.deleted@, p.idx),
                |p: Point<T>| in_range(p, *start, *end),
            );
        }
        collect_live(&self.pairs, &self.deleted, lo, hi)
    }

    /// Tombstones point `idx`, unless it is tombstoned already or lies
    /// beyond the bitmap.
    pub fn remove_point(&mut self, idx: PointOffsetType)
        requires
            old(self).wf(),
        ensures
            final(self).wf(),
            final(self).pairs_bytes() == old(self).pairs_bytes(),
            final(self).stored() == old(self).stored(),
            final(self).point_values() == old(self).point_values(),
            final(self).max_values() == old(self).max_values(),
            final(self).on_disk() == old(self).on_disk(),
            final(self).deleted_bits() == if is_live(old(self).deleted_bits(), idx) {
                old(self).deleted_bits().update(idx as int, true)
            } else {
                old(self).deleted_bits()
            },
            final(self).points() == without_point(old(self).points(), idx),
    {
        let ghost stored = self.pairs.points();
        let ghost bits = self.deleted@;
        let ghost live = |p: Point<T>| is_live(bits, p.idx);
        let ghost other = |p: Point<T>| p.idx != idx;
        proof {
            lemma_filter_both(stored, live, other);
        }
        let bit_count: usize = self.deleted.len();
        if self.deleted.get(idx as usize) == Some(false) {
            proof {
                lemma_count_true_update(bits, idx as int, true);
                lemma_count_true_bound(bits.update(idx as int, true));
            }
            self.deleted.set(idx as usize, true);
            self.deleted_count = self.deleted_count + 1;
            proof {
                let after = |p: Point<T>| is_live(bits.update(idx as int, true), p.idx);
                lemma_filter_agree(stored, after, |p: Point<T>| live(p) && other(p));
            }
        } else {
            proof {
                lemma_filter_agree(stored, live, |p: Point<T>| live(p) && other(p));
            }
        }
        self.histogram.remove_point(idx);
    }

    /// The values of point `idx`; `None` if it is tombstoned or unknown.
    pub fn get_values(&self, idx: PointOffsetType) -> (r: Option<&Vec<T>>)
        requires
            self.wf(),
        ensures
            r.is_some() <==> is_live(self.deleted_bits(), idx) && idx < self.point_values().len(),
            r matches Some(values) ==> values@ == self.point_values()[idx as int],
    {
        if self.deleted.get(idx as usize) == Some(false) {
            self.point_to_values.get_values(idx)
        } else {
            None
        }
    }

    pub fn values_count(&self, idx: PointOffsetType) -> (r: Option<usize>)
        requires
            self.wf(),
        ensures
            r.is_some() <==> is_live(self.deleted_bits(), idx) && idx < self.point_values().len(),
            r matches Some(n) ==> n == self.point_values()[idx as int].len(),
    {
        if self.deleted.get(idx as usize) == Some(false) {
            self.point_to_values.get_values_count(idx)
        } else {
            None
        }
    }

    /// Whether `check_fn` accepts one of the values of point `idx`;
    /// `false` for a tombstoned or unknown point.
    pub fn check_values_any<F: Fn(&T) -> bool>(&self, idx: PointOffsetType, check_fn: F) -> (r:
        bool)
        requires
            self.wf(),
            forall|v: &T| check_fn.requires((v,)),
        ensures
            r ==> is_live(self.deleted_bits(), idx) && idx < self.point_values().len()
                && exists|k: int|
                0 <= k < self.point_values()[idx as int].len() && check_fn.ensures(
                    (&#[trigger] self.point_values()[idx as int][k],),
                    true,
                ),
            !r ==> !is_live(self.deleted_bits(), idx) || idx >= self.point_values().len()
                || forall|k: int|
                0 <= k < self.point_values()[idx as int].len() ==> check_fn.ensures(
                    (&#[trigger] self.point_values()[idx as int][k],),
                    false,
                ),
    {
        if self.deleted.get(idx as usize) == Some(false) {
            let found = self.point_to_values.check_values_any(idx, check_fn);
            assert(is_live(self.deleted_bits(), idx));
            assert(found ==> idx < self.point_values().len());
            assert(found ==> exists|k: int|
                0 <= k < self.point_values()[idx as int].len() && check_fn.ensures(
                    (&#[trigger] self.point_values()[idx as int][k],),
                    true,
                ));
            found
        } else {
            false
        }
    }

    /// Every live point, ascending.
    pub fn live_points_vec(&self) -> (live: Vec<Point<T>>)
        requires
            self.wf(),
        ensures
            live@ == self.points(),
            is_sorted(live@),
    {
        let n: usize = self.pairs.count();
        proof {
            assert(self.pairs.points().subrange(0, n as int) =~= self.pairs.points());
            self.lemma_wf();
        }
        collect_live(&self.pairs, &self.deleted, 0, n)
    }

    /// The value lists of the live points; a tombstoned point has none.
    pub fn live_value_lists(&self) -> (lists: Vec<Vec<T>>)
        requires
            self.wf(),
        ensures
            lists_of(lists@) == live_lists(self.point_values(), self.deleted_bits()),
    {
        let n: usize = self.point_to_values.len();
        let mut lists: Vec<Vec<T>> = Vec::new();
        let mut i: usize = 0;
        while i < n
            invariant
                i <= n,
                n == self.point_to_values@.len(),
                self.wf(),
                lists@.len() == i,
                forall|j: int|
                    0 <= j < i ==> (#[trigger] lists@[j])@ == live_lists(
                        self.point_to_values@,
                        self.deleted@,
                    )[j],
            decreases n - i,
        {
            let mut copy: Vec<T> = Vec::new();
            if i <= PointOffsetType::MAX as usize && self.deleted.get(i) == Some(false) {
                let values = self.point_to_values.as_lists();
                let source = &values[i];
                let mut k: usize = 0;
                while k < source.len()
                    invariant
                        k <= source.len(),
                        copy@ == source@.take(k as int),
                    decreases source.len() - k,
                {
                    copy.push(source[k]);
                    assert(copy@ =~= source@.take(k + 1));
                    k = k + 1;
                }
                assert(source@.take(source.len() as int) =~= source@);
                assert(source@ == self.point_to_values@[i as int]);
            }
            lists.push(copy);
            i = i + 1;
        }
        assert(lists_of(lists@) =~= live_lists(self.point_values(), self.deleted_bits()));
        lists
    }

    /// The number of points that are not tombstoned.
    pub fn get_points_count(&self) -> (n: usize)
        requires
            self.wf(),
        ensures
            n == if self.point_values().len() >= count_true(self.deleted_bits()) {
                self.point_values().len() - count_true(self.deleted_bits())
            } else {
                0
            },
    {
        self.point_to_values.len().saturating_sub(self.deleted_count)
    }

    /// The number of stored `(value, id)` pairs; tombstones do not lower
    /// it.
    pub fn total_unique_values_count(&self) -> (n: usize)
        requires
            self.wf(),
        ensures
            n == self.stored().len(),
    {
        self.pairs.count()
    }

    pub fn get_max_values_per_point(&self) -> (n: usize)
        ensures
            n == self.max_values(),
    {
        self.max_values_per_point
    }

    pub fn get_histogram(&self) -> (h: &Histogram<T>)
        requires
            self.wf(),
        ensures
            h.wf(),
            h@ == self.points(),
    {
        &self.histogram
    }

    pub fn is_on_disk(&self) -> (b: bool)
        ensures
            b == self.on_disk(),
    {
        self.is_on_disk
    }

    /// Writes pending tombstones through to the bitmap bytes.
    pub fn flusher(&mut self)
        requires
            old(self).wf(),
        ensures
            final(self).wf(),
            final(self).pairs_bytes() == old(self).pairs_bytes(),
            final(self).stored() == old(self).stored(),
            final(self).deleted_bits() == old(self).deleted_bits(),
            final(self).point_values() == old(self).point_values(),
            final(self).max_values() == old(self).max_values(),
            final(self).on_disk() == old(self).on_disk(),
            bits_of(final(self).deleted_file()) == old(self).deleted_bits(),
    {
        self.deleted.flush();
    }

    /// The bytes of the tombstone file as last flushed.
    pub closed spec fn deleted_file(&self) -> Seq<u8> {
        self.deleted.flushed_bytes()
    }

    pub fn deleted_bytes(&self) -> (bytes: &Vec<u8>)
        ensures
            bytes@ == self.deleted_file(),
    {
        self.deleted.as_bytes()
    }

    pub fn pairs_file(&self) -> (bytes: &Vec<u8>)
        ensures
            bytes@ == self.pairs_bytes(),
    {
        self.pairs.as_bytes()
    }

    pub fn point_to_values(&self) -> (p: &MmapPointToValues<T>)
        ensures
            p@ == self.point_values(),
    {
        &self.point_to_values
    }

    /// The files that back the store, relative to its directory.
    pub fn files(&self) -> (files: Vec<&'static str>)
        ensures
            files@ == seq![
                PAIRS_PATH,
                DELETED_PATH,
                crate::point_to_values::POINT_TO_VALUES_PATH,
                crate::point_to_values::POINT_TO_VALUES_OFFSETS_PATH,
            ],
    {
        let mut files: Vec<&'static str> = Vec::new();
        files.push(PAIRS_PATH);
        files.push(DELETED_PATH);
        files.push(crate::point_to_values::POINT_TO_VALUES_PATH);
        files.push(crate::point_to_values::POINT_TO_VALUES_OFFSETS_PATH);
        assert(files@ =~= seq![
            PAIRS_PATH,
            DELETED_PATH,
            crate::point_to_values::POINT_TO_VALUES_PATH,
            crate::point_to_values::POINT_TO_VALUES_OFFSETS_PATH,
        ]);
        files
    }

    /// The files that never change after the build: all but the
    /// tombstones.
    pub fn immutable_files(&self) -> (files: Vec<&'static str>)
        ensures
            files@ == seq![
                PAIRS_PATH,
                crate::point_to_values::POINT_TO_VALUES_PATH,
                crate::point_to_values::POINT_TO_VALUES_OFFSETS_PATH,
            ],
    {
        let mut files: Vec<&'static str> = Vec::new();
        files.push(PAIRS_PATH);
        files.push(crate::point_to_values::POINT_TO_VALUES_PATH);
        files.push(crate::point_to_values::POINT_TO_VALUES_OFFSETS_PATH);
        assert(files@ =~= seq![
            PAIRS_PATH,
            crate::point_to_values::POINT_TO_VALUES_PATH,
            crate::point_to_values::POINT_TO_VALUES_OFFSETS_PATH,
        ]);
        files
    }
}

impl<T: Numericable> MmapNumericIndex<T> {
    /// Lays out an in-memory store as a file of keys with a tombstone on
    /// every point without values, and opens it. Every point comes back as
    /// its key restores it. Fails only if the points are too many for a
    /// bitmap.
    pub fn build(in_memory_index: InMemoryNumericIndex<T>, is_on_disk: bool) -> (r: OperationResult<
        Self,
    >)
        requires
            in_memory_index.wf(),
        ensures
            r.is_ok() <==> in_memory_index.point_values().len() <= usize::MAX - 63,
            r matches Ok(index) ==> {
                &&& index.wf()
                &&& index.pairs_bytes() == encoded_points(in_memory_index.points())
                &&& index.stored() == in_memory_index.points().map_values(
                    |p: Point<T>| restored(p),
                )
                &&& index.deleted_bits() == empty_flags(
                    in_memory_index.point_values(),
                    index.deleted_bits().len(),
                )
                &&& index.deleted_bits().len() >= in_memory_index.point_values().len()
                &&& index.point_values() == in_memory_index.point_values()
                &&& index.on_disk() == is_on_disk
            },
    {
        proof {
            in_memory_index.lemma_wf();
            lemma_decode_encoded(in_memory_index.points());
            lemma_restored_sorted(in_memory_index.points());
            crate::pairing::lemma_tied_after_restoring(
                in_memory_index.points(),
                in_memory_index.point_values(),
            );
            assert(crate::pairing::restored_pairs(in_memory_index.points())
                =~= in_memory_index.points().map_values(|p: Point<T>| restored(p)));
            lemma_encoded_len(in_memory_index.points());
            lemma_whole_keys(in_memory_index.points().len() as int, stride::<T>() as int);
        }
        let point_count: usize = in_memory_index.value_lists().len();
        if point_count > usize::MAX - 63 {
            return Err(OperationError::service_error("too many points for a tombstone bitmap"));
        }
        let pairs = encode_points(in_memory_index.sorted_points());
        let bitmap = build_tombstones(in_memory_index.value_lists());
        proof {
            bitmap.lemma_view();
        }
        let deleted = bitmap.into_bytes();
        let lists = in_memory_index.into_value_lists();
        MmapNumericIndex::open(pairs, deleted, MmapPointToValues::from_lists(lists), is_on_disk)
    }
}

} // verus!
