//! The value-to-points table: an open-addressed hash table from keys to
//! lists of point ids, built once and then only read.
//!
//! Every key has a home bucket, given by a seeded hash of its bytes. A key
//! is put into the first empty bucket at or after its home, going round
//! the table; it is found again by walking the same way until it or an
//! empty bucket turns up.

use vstd::prelude::*;
use vstd::string::StrSliceExecFns;
use crate::key_encoding::be_bytes;
use crate::key_encoding::i64_order_key;
use crate::key_encoding::i64_to_order_key;
use crate::key_encoding::lemma_be_value_of_bytes;
use crate::key_encoding::lemma_pow256_values;
use crate::key_encoding::push_be;
use crate::types::OperationError;
use crate::types::OperationResult;
use crate::types::PointOffsetType;

verus! {

/// Marks a bucket that holds no entry.
pub const EMPTY_BUCKET: usize = usize::MAX;

/// The seed every table is built with, so that equal inputs give equal
/// tables.
pub const HASH_SEED: u64 = 0x5eed_5eed_5eed_5eed;

pub const FNV_OFFSET: u64 = 0xcbf2_9ce4_8422_2325;

pub const FNV_PRIME: u64 = 0x0000_0100_0000_01b3;

/// A value that can key the table: it has a stable byte representation,
/// and two keys are the same key exactly if their bytes are equal.
pub trait MapIndexKey: Sized {
    spec fn key_bytes(&self) -> Seq<u8>;

    /// Whether a byte string spells a key.
    spec fn is_key_bytes(bytes: Seq<u8>) -> bool;

    proof fn lemma_key_bytes_spell_a_key(&self)
        ensures
            Self::is_key_bytes(self.key_bytes()),
    ;

    /// The width in bytes of every key, if all keys have one width.
    spec fn fixed_width() -> Option<nat>;

    proof fn lemma_fixed_width(bytes: Seq<u8>)
        requires
            Self::is_key_bytes(bytes),
        ensures
            Self::fixed_width() matches Some(width) ==> bytes.len() == width,
    ;

    fn key_width() -> (width: Option<usize>)
        ensures
            width.is_some() == Self::fixed_width().is_some(),
            width matches Some(w) ==> Self::fixed_width() == Some(w as nat),
    ;

    fn write_bytes(&self) -> (bytes: Vec<u8>)
        ensures
            bytes@ == self.key_bytes(),
    ;

    /// The key that a byte string spells.
    fn from_key_bytes(bytes: Vec<u8>) -> (r: Option<Self>)
        ensures
            r.is_some() <==> Self::is_key_bytes(bytes@),
            r matches Some(key) ==> key.key_bytes() == bytes@,
    ;

    fn matches(&self, other: &Self) -> (b: bool)
        ensures
            b == (self.key_bytes() == other.key_bytes()),
    ;
}

/// Whether two byte strings are equal.
pub fn bytes_equal(a: &[u8], b: &[u8]) -> (r: bool)
    ensures
        r == (a@ == b@),
{
    if a.len() != b.len() {
        return false;
    }
    let mut k: usize = 0;
    while k < a.len()
        invariant
            k <= a.len(),
            a.len() == b.len(),
            forall|j: int| 0 <= j < k ==> a@[j] == b@[j],
        decreases a.len() - k,
    {
        if a[k] != b[k] {
            return false;
        }
        k = k + 1;
    }
    assert(a@ =~= b@);
    true
}

/// Takes bytes as the text they spell.
///
/// Trusted: calls `String::from_utf8`, which accepts exactly the byte
/// strings that are valid UTF-8 and keeps the bytes as they are.
#[verifier::external_body]
fn string_from_utf8(bytes: Vec<u8>) -> (r: Option<String>)
    ensures
        r.is_some() <==> vstd::utf8::valid_utf8(bytes@),
        r matches Some(text) ==> vstd::utf8::encode_utf8(text@) == bytes@,
{
    match String::from_utf8(bytes) {
        Ok(text) => Some(text),
        Err(_) => None,
    }
}

/// A string is keyed by its UTF-8 bytes.
impl MapIndexKey for String {
    open spec fn key_bytes(&self) -> Seq<u8> {
        vstd::utf8::encode_utf8(self@)
    }

    open spec fn is_key_bytes(bytes: Seq<u8>) -> bool {
        vstd::utf8::valid_utf8(bytes)
    }

    proof fn lemma_key_bytes_spell_a_key(&self) {
        vstd::utf8::encode_utf8_valid_utf8(self@);
    }

    open spec fn fixed_width() -> Option<nat> {
        None
    }

    proof fn lemma_fixed_width(bytes: Seq<u8>) {
    }

    fn key_width() -> (width: Option<usize>) {
        None
    }

    fn from_key_bytes(bytes: Vec<u8>) -> (r: Option<Self>) {
        string_from_utf8(bytes)
    }

    fn write_bytes(&self) -> (bytes: Vec<u8>) {
        self.as_str().as_bytes_vec()
    }

    fn matches(&self, other: &Self) -> (b: bool) {
        bytes_equal(self.as_str().as_bytes(), other.as_str().as_bytes())
    }
}

/// An integer is keyed by its eight bytes, sign bit flipped, big-endian.
impl MapIndexKey for i64 {
    open spec fn key_bytes(&self) -> Seq<u8> {
        be_bytes(i64_order_key(*self), 8)
    }

    open spec fn is_key_bytes(bytes: Seq<u8>) -> bool {
        bytes.len() == 8
    }

    proof fn lemma_key_bytes_spell_a_key(&self) {
        crate::key_encoding::lemma_be_bytes_len(i64_order_key(*self), 8);
    }

    open spec fn fixed_width() -> Option<nat> {
        Some(8)
    }

    proof fn lemma_fixed_width(bytes: Seq<u8>) {
    }

    fn key_width() -> (width: Option<usize>) {
        Some(8)
    }

    fn from_key_bytes(bytes: Vec<u8>) -> (r: Option<Self>) {
        if bytes.len() != 8 {
            return None;
        }
        let raw: u128 = crate::key_encoding::read_be(bytes.as_slice(), 0, 8);
        proof {
            assert(bytes@.subrange(0, 8) =~= bytes@);
            crate::key_encoding::lemma_be_value_bound(bytes@);
            crate::key_encoding::lemma_be_bytes_of_value(bytes@);
            lemma_pow256_values();
        }
        Some(crate::key_encoding::i64_of_order_key(raw as u64))
    }

    fn write_bytes(&self) -> (bytes: Vec<u8>) {
        let mut bytes: Vec<u8> = Vec::new();
        push_be(&mut bytes, i64_to_order_key(*self) as u128, 8);
        bytes
    }

    fn matches(&self, other: &Self) -> (b: bool) {
        proof {
            lemma_pow256_values();
            lemma_be_value_of_bytes(i64_order_key(*self), 8);
            lemma_be_value_of_bytes(i64_order_key(*other), 8);
        }
        *self == *other
    }
}

/// A 128-bit integer is keyed by its sixteen bytes, big-endian.
impl MapIndexKey for u128 {
    open spec fn key_bytes(&self) -> Seq<u8> {
        be_bytes(*self as nat, 16)
    }

    open spec fn is_key_bytes(bytes: Seq<u8>) -> bool {
        bytes.len() == 16
    }

    proof fn lemma_key_bytes_spell_a_key(&self) {
        crate::key_encoding::lemma_be_bytes_len(*self as nat, 16);
    }

    open spec fn fixed_width() -> Option<nat> {
        Some(16)
    }

    proof fn lemma_fixed_width(bytes: Seq<u8>) {
    }

    fn key_width() -> (width: Option<usize>) {
        Some(16)
    }

    fn from_key_bytes(bytes: Vec<u8>) -> (r: Option<Self>) {
        if bytes.len() != 16 {
            return None;
        }
        let raw: u128 = crate::key_encoding::read_be(bytes.as_slice(), 0, 16);
        proof {
            assert(bytes@.subrange(0, 16) =~= bytes@);
            crate::key_encoding::lemma_be_bytes_of_value(bytes@);
        }
        Some(raw)
    }

    fn write_bytes(&self) -> (bytes: Vec<u8>) {
        let mut bytes: Vec<u8> = Vec::new();
        push_be(&mut bytes, *self, 16);
        bytes
    }

    fn matches(&self, other: &Self) -> (b: bool) {
        proof {
            lemma_pow256_values();
            lemma_be_value_of_bytes(*self as nat, 16);
            lemma_be_value_of_bytes(*other as nat, 16);
        }
        *self == *other
    }
}

/// A float is keyed by the eight bytes of its bit pattern, big-endian.
impl MapIndexKey for crate::types::FloatPayloadType {
    open spec fn key_bytes(&self) -> Seq<u8> {
        be_bytes(self.bits as nat, 8)
    }

    open spec fn is_key_bytes(bytes: Seq<u8>) -> bool {
        bytes.len() == 8
    }

    proof fn lemma_key_bytes_spell_a_key(&self) {
        crate::key_encoding::lemma_be_bytes_len(self.bits as nat, 8);
    }

    open spec fn fixed_width() -> Option<nat> {
        Some(8)
    }

    proof fn lemma_fixed_width(bytes: Seq<u8>) {
    }

    fn key_width() -> (width: Option<usize>) {
        Some(8)
    }

    fn write_bytes(&self) -> (bytes: Vec<u8>) {
        let mut bytes: Vec<u8> = Vec::new();
        push_be(&mut bytes, self.bits as u128, 8);
        bytes
    }

    fn from_key_bytes(bytes: Vec<u8>) -> (r: Option<Self>) {
        if bytes.len() != 8 {
            return None;
        }
        let raw: u128 = crate::key_encoding::read_be(bytes.as_slice(), 0, 8);
        proof {
            assert(bytes@.subrange(0, 8) =~= bytes@);
            crate::key_encoding::lemma_be_value_bound(bytes@);
            crate::key_encoding::lemma_be_bytes_of_value(bytes@);
            lemma_pow256_values();
        }
        Some(crate::types::FloatPayloadType { bits: raw as u64 })
    }

    fn matches(&self, other: &Self) -> (b: bool) {
        proof {
            lemma_pow256_values();
            lemma_be_value_of_bytes(self.bits as nat, 8);
            lemma_be_value_of_bytes(other.bits as nat, 8);
        }
        self.bits == other.bits
    }
}

/// The seeded hash of a byte string: every byte is mixed into the state
/// and the state multiplied by a prime, wrapping.
pub open spec fn hash_bytes(seed: u64, bytes: Seq<u8>) -> u64
    decreases bytes.len(),
{
    if bytes.len() == 0 {
        seed ^ FNV_OFFSET
    } else {
        (hash_bytes(seed, bytes.drop_last()) ^ (bytes.last() as u64)).wrapping_mul(FNV_PRIME)
    }
}

pub fn compute_hash(seed: u64, bytes: &[u8]) -> (h: u64)
    ensures
        h == hash_bytes(seed, bytes@),
{
    let mut h: u64 = seed ^ FNV_OFFSET;
    let mut k: usize = 0;
    assert(bytes@.take(0) =~= Seq::<u8>::empty());
    while k < bytes.len()
        invariant
            k <= bytes.len(),
            h == hash_bytes(seed, bytes@.take(k as int)),
        decreases bytes.len() - k,
    {
        assert(bytes@.take(k + 1).drop_last() =~= bytes@.take(k as int));
        h = (h ^ (bytes[k] as u64)).wrapping_mul(FNV_PRIME);
        k = k + 1;
    }
    assert(bytes@.take(bytes.len() as int) =~= bytes@);
    h
}

/// The bucket a key starts its walk from.
pub open spec fn home_bucket(seed: u64, bytes: Seq<u8>, buckets: nat) -> int {
    (hash_bytes(seed, bytes) as int) % (buckets as int)
}

/// The bucket reached `step` buckets after `home`, going round.
pub open spec fn bucket_at(home: int, step: int, buckets: nat) -> int {
    (home + step) % (buckets as int)
}

/// The number of buckets walked from `home`, starting at `step`, before an
/// empty one turns up; the number of buckets if none does.
pub open spec fn probe(buckets: Seq<usize>, home: int, step: int) -> int
    decreases buckets.len() - step,
{
    if step >= buckets.len() {
        buckets.len() as int
    } else if buckets[bucket_at(home, step, buckets.len())] == EMPTY_BUCKET {
        step
    } else {
        probe(buckets, home, step + 1)
    }
}

/// The table after `entry` was put into the first empty bucket of its
/// walk; unchanged if the walk meets none.
pub open spec fn place(buckets: Seq<usize>, home: int, entry: usize) -> Seq<usize> {
    let step = probe(buckets, home, 0);
    if step < buckets.len() {
        buckets.update(bucket_at(home, step, buckets.len()), entry)
    } else {
        buckets
    }
}

/// The table of `count` buckets that holds the keys in the order given.
pub open spec fn build_buckets<K: MapIndexKey>(keys: Seq<K>, seed: u64, count: nat) -> Seq<usize>
    decreases keys.len(),
{
    if keys.len() == 0 {
        Seq::new(count, |i: int| EMPTY_BUCKET)
    } else {
        place(
            build_buckets(keys.drop_last(), seed, count),
            home_bucket(seed, keys.last().key_bytes(), count),
            (keys.len() - 1) as usize,
        )
    }
}

/// How many buckets hold an entry.
pub open spec fn occupied(buckets: Seq<usize>) -> nat
    decreases buckets.len(),
{
    if buckets.len() == 0 {
        0
    } else {
        occupied(buckets.drop_last()) + if buckets.last() == EMPTY_BUCKET {
            0nat
        } else {
            1nat
        }
    }
}

/// Whether entry `entry` is found by the walk of its key: it sits in a
/// bucket of the walk, and no bucket before it is empty.
pub open spec fn reachable(buckets: Seq<usize>, home: int, entry: usize) -> bool {
    exists|step: int|
        0 <= step < buckets.len() && #[trigger] buckets[bucket_at(home, step, buckets.len())]
            == entry && forall|t: int|
            0 <= t < step ==> #[trigger] buckets[bucket_at(home, t, buckets.len())] != EMPTY_BUCKET
}

/// Whether the table holds the first `n` keys and nothing else, each of
/// them where its walk finds it.
pub open spec fn table_holds<K: MapIndexKey>(buckets: Seq<usize>, keys: Seq<K>, seed: u64) -> bool {
    &&& forall|b: int|
        0 <= b < buckets.len() ==> #[trigger] buckets[b] == EMPTY_BUCKET || buckets[b] < keys.len()
    &&& forall|e: int|
        0 <= e < keys.len() ==> reachable(
            buckets,
            home_bucket(seed, (#[trigger] keys[e]).key_bytes(), buckets.len()),
            e as usize,
        )
    &&& occupied(buckets) <= keys.len()
}

proof fn lemma_occupied_update(buckets: Seq<usize>, at: int, entry: usize)
    requires
        0 <= at < buckets.len(),
        buckets[at] == EMPTY_BUCKET,
        entry != EMPTY_BUCKET,
    ensures
        occupied(buckets.update(at, entry)) == occupied(buckets) + 1,
    decreases buckets.len(),
{
    let after = buckets.update(at, entry);
    if at == buckets.len() - 1 {
        assert(after.drop_last() =~= buckets.drop_last());
    } else {
        lemma_occupied_update(buckets.drop_last(), at, entry);
        assert(after.drop_last() =~= buckets.drop_last().update(at, entry));
    }
}

proof fn lemma_occupied_full(buckets: Seq<usize>)
    requires
        forall|b: int| 0 <= b < buckets.len() ==> buckets[b] != EMPTY_BUCKET,
    ensures
        occupied(buckets) == buckets.len(),
    decreases buckets.len(),
{
    if buckets.len() > 0 {
        lemma_occupied_full(buckets.drop_last());
    }
}

proof fn lemma_occupied_empty(count: nat)
    ensures
        occupied(Seq::new(count, |i: int| EMPTY_BUCKET)) == 0,
    decreases count,
{
    let s = Seq::new(count, |i: int| EMPTY_BUCKET);
    if count > 0 {
        assert(s.drop_last() =~= Seq::new((count - 1) as nat, |i: int| EMPTY_BUCKET));
        lemma_occupied_empty((count - 1) as nat);
    }
}

/// A walk of as many steps as there are buckets passes every bucket.
proof fn lemma_walk_covers(home: int, bucket: int, count: nat)
    requires
        0 <= home < count,
        0 <= bucket < count,
    ensures
        exists|step: int| 0 <= step < count && bucket_at(home, step, count) == bucket,
{
    let step = if bucket >= home {
        bucket - home
    } else {
        bucket - home + count
    };
    assert(bucket_at(home, step, count) == bucket) by {
        if bucket >= home {
            vstd::arithmetic::div_mod::lemma_small_mod(bucket as nat, count);
        } else {
            vstd::arithmetic::div_mod::lemma_mod_add_multiples_vanish(bucket, count as int);
            vstd::arithmetic::div_mod::lemma_small_mod(bucket as nat, count);
        }
    }
}

/// What a walk finds: before the step it stops at, no bucket is empty; the
/// bucket it stops at is empty, unless it has gone all the way round.
proof fn lemma_probe(buckets: Seq<usize>, home: int, step: int)
    requires
        0 <= step <= buckets.len(),
    ensures
        step <= probe(buckets, home, step) <= buckets.len(),
        forall|t: int|
            step <= t < probe(buckets, home, step) ==> #[trigger] buckets[bucket_at(
                home,
                t,
                buckets.len(),
            )] != EMPTY_BUCKET,
        probe(buckets, home, step) < buckets.len() ==> buckets[bucket_at(
            home,
            probe(buckets, home, step),
            buckets.len(),
        )] == EMPTY_BUCKET,
    decreases buckets.len() - step,
{
    if step < buckets.len() && buckets[bucket_at(home, step, buckets.len())] != EMPTY_BUCKET {
        lemma_probe(buckets, home, step + 1);
    }
}

/// In a table with a bucket to spare, a walk always stops at an empty
/// bucket.
proof fn lemma_probe_finds(buckets: Seq<usize>, home: int)
    requires
        0 <= home < buckets.len(),
        occupied(buckets) < buckets.len(),
    ensures
        probe(buckets, home, 0) < buckets.len(),
{
    lemma_probe(buckets, home, 0);
    if probe(buckets, home, 0) >= buckets.len() {
        assert forall|b: int| 0 <= b < buckets.len() implies buckets[b] != EMPTY_BUCKET by {
            lemma_walk_covers(home, b, buckets.len());
            let step = choose|step: int|
                0 <= step < buckets.len() && bucket_at(home, step, buckets.len()) == b;
            assert(buckets[bucket_at(home, step, buckets.len())] != EMPTY_BUCKET);
        }
        lemma_occupied_full(buckets);
    }
}

proof fn lemma_home_in_range(seed: u64, bytes: Seq<u8>, count: nat)
    requires
        count > 0,
    ensures
        0 <= home_bucket(seed, bytes, count) < count,
        forall|step: int| 0 <= step ==> 0 <= #[trigger] bucket_at(
            home_bucket(seed, bytes, count),
            step,
            count,
        ) < count,
{
}

/// Putting one more key into a table with room keeps every key where its
/// walk finds it.
proof fn lemma_place_holds<K: MapIndexKey>(buckets: Seq<usize>, keys: Seq<K>, seed: u64)
    requires
        keys.len() > 0,
        keys.len() < buckets.len(),
        keys.len() < usize::MAX,
        table_holds(buckets, keys.drop_last(), seed),
    ensures
        table_holds(
            place(
                buckets,
                home_bucket(seed, keys.last().key_bytes(), buckets.len()),
                (keys.len() - 1) as usize,
            ),
            keys,
            seed,
        ),
        probe(buckets, home_bucket(seed, keys.last().key_bytes(), buckets.len()), 0)
            < buckets.len(),
{
    let m = buckets.len();
    let home = home_bucket(seed, keys.last().key_bytes(), m);
    let entry = (keys.len() - 1) as usize;
    let before = keys.drop_last();
    lemma_home_in_range(seed, keys.last().key_bytes(), m);
    lemma_probe_finds(buckets, home);
    lemma_probe(buckets, home, 0);
    let step = probe(buckets, home, 0);
    let at = bucket_at(home, step, m);
    let after = place(buckets, home, entry);
    lemma_occupied_update(buckets, at, entry);
    assert forall|e: int| 0 <= e < keys.len() implies reachable(
        after,
        home_bucket(seed, (#[trigger] keys[e]).key_bytes(), m),
        e as usize,
    ) by {
        if e == keys.len() - 1 {
            assert(after[bucket_at(home, step, m)] == entry);
            assert forall|t: int| 0 <= t < step implies #[trigger] after[bucket_at(home, t, m)]
                != EMPTY_BUCKET by {
                assert(buckets[bucket_at(home, t, m)] != EMPTY_BUCKET);
            }
        } else {
            assert(keys[e] == before[e]);
            let h = home_bucket(seed, before[e].key_bytes(), m);
            lemma_home_in_range(seed, before[e].key_bytes(), m);
            assert(reachable(buckets, h, e as usize));
            let s = choose|s: int|
                0 <= s < m && #[trigger] buckets[bucket_at(h, s, m)] == e as usize && forall|t: int|
                    0 <= t < s ==> #[trigger] buckets[bucket_at(h, t, m)] != EMPTY_BUCKET;
            assert(after[bucket_at(h, s, m)] == e as usize);
            assert forall|t: int| 0 <= t < s implies #[trigger] after[bucket_at(h, t, m)]
                != EMPTY_BUCKET by {
                assert(buckets[bucket_at(h, t, m)] != EMPTY_BUCKET);
            }
        }
    }
    assert forall|b: int| 0 <= b < after.len() implies #[trigger] after[b] == EMPTY_BUCKET
        || after[b] < keys.len() by {
        if b != at {
            assert(buckets[b] == EMPTY_BUCKET || buckets[b] < before.len());
        }
    }
}

/// A table built with a bucket to spare holds every key where its walk
/// finds it.
pub proof fn lemma_build_holds<K: MapIndexKey>(keys: Seq<K>, seed: u64, count: nat)
    requires
        keys.len() < count,
        keys.len() < usize::MAX,
    ensures
        build_buckets(keys, seed, count).len() == count,
        table_holds(build_buckets(keys, seed, count), keys, seed),
    decreases keys.len(),
{
    if keys.len() == 0 {
        lemma_occupied_empty(count);
    } else {
        lemma_build_holds(keys.drop_last(), seed, count);
        lemma_place_holds(build_buckets(keys.drop_last(), seed, count), keys, seed);
    }
}

/// The table depends on the keys only through their bytes.
pub proof fn lemma_build_by_bytes<K: MapIndexKey>(a: Seq<K>, b: Seq<K>, seed: u64, count: nat)
    requires
        a.len() == b.len(),
        forall|e: int| 0 <= e < a.len() ==> (#[trigger] a[e]).key_bytes() == b[e].key_bytes(),
    ensures
        build_buckets(a, seed, count) == build_buckets(b, seed, count),
    decreases a.len(),
{
    if a.len() > 0 {
        assert forall|e: int| 0 <= e < a.drop_last().len() implies (
        #[trigger] a.drop_last()[e]).key_bytes() == b.drop_last()[e].key_bytes() by {
            assert(a.drop_last()[e] == a[e]);
        }
        lemma_build_by_bytes(a.drop_last(), b.drop_last(), seed, count);
        assert(a.last() == a[a.len() - 1]);
    }
}

/// Whether no two keys have the same bytes.
pub open spec fn keys_distinct<K: MapIndexKey>(keys: Seq<K>) -> bool {
    forall|i: int, j: int|
        0 <= i < j < keys.len() ==> (#[trigger] keys[i]).key_bytes() != (
        #[trigger] keys[j]).key_bytes()
}

/// Whether some key has the given bytes.
pub open spec fn has_key<K: MapIndexKey>(keys: Seq<K>, bytes: Seq<u8>) -> bool {
    exists|e: int| 0 <= e < keys.len() && (#[trigger] keys[e]).key_bytes() == bytes
}

/// The entry whose key has the given bytes.
pub open spec fn entry_of<K: MapIndexKey>(keys: Seq<K>, bytes: Seq<u8>) -> int {
    choose|e: int| 0 <= e < keys.len() && (#[trigger] keys[e]).key_bytes() == bytes
}

/// The map from the bytes of every key to its id list.
pub open spec fn map_of<K: MapIndexKey>(keys: Seq<K>, values: Seq<Seq<PointOffsetType>>) -> Map<
    Seq<u8>,
    Seq<PointOffsetType>,
> {
    Map::new(
        |bytes: Seq<u8>| has_key(keys, bytes),
        |bytes: Seq<u8>| values[entry_of(keys, bytes)],
    )
}

/// The map depends on the keys only through their bytes.
pub proof fn lemma_map_by_bytes<K: MapIndexKey>(
    a: Seq<K>,
    b: Seq<K>,
    values: Seq<Seq<PointOffsetType>>,
)
    requires
        a.len() == b.len(),
        keys_distinct(a),
        forall|e: int| 0 <= e < a.len() ==> (#[trigger] a[e]).key_bytes() == b[e].key_bytes(),
    ensures
        map_of(a, values) == map_of(b, values),
        keys_distinct(b),
{
    assert forall|i: int, j: int| 0 <= i < j < b.len() implies (#[trigger] b[i]).key_bytes() != (
    #[trigger] b[j]).key_bytes() by {
        assert(a[i].key_bytes() == b[i].key_bytes());
        assert(a[j].key_bytes() == b[j].key_bytes());
    }
    assert forall|bytes: Seq<u8>| has_key(a, bytes) == has_key(b, bytes) by {
        if has_key(a, bytes) {
            let e = entry_of(a, bytes);
            assert(b[e].key_bytes() == bytes);
        }
        if has_key(b, bytes) {
            let e = entry_of(b, bytes);
            assert(a[e].key_bytes() == b[e].key_bytes());
        }
    }
    assert forall|bytes: Seq<u8>| has_key(a, bytes) implies entry_of(a, bytes) == entry_of(
        b,
        bytes,
    ) by {
        let x = entry_of(a, bytes);
        let y = entry_of(b, bytes);
        assert(b[x].key_bytes() == bytes);
        assert(a[y].key_bytes() == b[y].key_bytes());
        if x < y {
            assert(a[x].key_bytes() != a[y].key_bytes());
        } else if y < x {
            assert(a[y].key_bytes() != a[x].key_bytes());
        }
    }
    assert(map_of(a, values) =~= map_of(b, values));
}

/// The id lists of a table, by entry.
pub open spec fn id_lists(values: Seq<Vec<PointOffsetType>>) -> Seq<Seq<PointOffsetType>> {
    values.map_values(|ids: Vec<PointOffsetType>| ids@)
}

pub struct MmapHashMap<K> {
    keys: Vec<K>,
    values: Vec<Vec<PointOffsetType>>,
    buckets: Vec<usize>,
    seed: u64,
}

impl<K: MapIndexKey> MmapHashMap<K> {
    /// The keys, in the order they were put in.
    pub closed spec fn keys(&self) -> Seq<K> {
        self.keys@
    }

    /// The id list of every key, in the order of the keys.
    pub closed spec fn values(&self) -> Seq<Seq<PointOffsetType>> {
        id_lists(self.values@)
    }

    /// The buckets: each holds the number of an entry, or is empty.
    pub closed spec fn buckets(&self) -> Seq<usize> {
        self.buckets@
    }

    pub closed spec fn seed(&self) -> u64 {
        self.seed
    }

    /// The table as a map from the bytes of a key to its id list.
    pub open spec fn view(&self) -> Map<Seq<u8>, Seq<PointOffsetType>> {
        map_of(self.keys(), self.values())
    }

    pub closed spec fn wf(&self) -> bool {
        &&& self.keys@.len() == self.values@.len()
        &&& self.keys@.len() < self.buckets@.len()
        &&& keys_distinct(self.keys@)
        &&& self.buckets@ == build_buckets(self.keys@, self.seed, self.buckets@.len())
        &&& table_holds(self.buckets@, self.keys@, self.seed)
    }

    pub proof fn lemma_wf(&self)
        requires
            self.wf(),
        ensures
            self.keys().len() == self.values().len(),
            keys_distinct(self.keys()),
            self.buckets() == build_buckets(self.keys(), self.seed(), self.buckets().len()),
    {
    }

    /// Every bucket is empty or holds the number of an entry.
    pub proof fn lemma_buckets_in_range(&self, b: int)
        requires
            self.wf(),
            0 <= b < self.buckets().len(),
        ensures
            self.buckets()[b] == EMPTY_BUCKET || self.buckets()[b] < self.keys().len(),
    {
    }

    /// Every entry is found under the bytes of its key.
    pub proof fn lemma_entry(&self, e: int)
        requires
            self.wf(),
            0 <= e < self.keys().len(),
        ensures
            self@.contains_key(self.keys()[e].key_bytes()),
            self@[self.keys()[e].key_bytes()] == self.values()[e],
    {
        let bytes = self.keys@[e].key_bytes();
        let chosen = entry_of(self.keys@, bytes);
        if chosen != e {
            if chosen < e {
                assert(self.keys@[chosen].key_bytes() != self.keys@[e].key_bytes());
            } else {
                assert(self.keys@[e].key_bytes() != self.keys@[chosen].key_bytes());
            }
        }
    }

    /// The entry that holds `key`, if any.
    fn find(
        keys: &Vec<K>,
        buckets: &Vec<usize>,
        seed: u64,
        key: &K,
    ) -> (r: Option<usize>)
        requires
            keys@.len() < buckets@.len(),
            table_holds(buckets@, keys@, seed),
        ensures
            r matches Some(e) ==> e < keys@.len() && keys@[e as int].key_bytes() == key.key_bytes(),
            r.is_none() ==> !has_key(keys@, key.key_bytes()),
    {
        let m: usize = buckets.len();
        let bytes = key.write_bytes();
        let home: usize = (compute_hash(seed, bytes.as_slice()) % (m as u64)) as usize;
        let ghost h = home_bucket(seed, key.key_bytes(), m as nat);
        assert(home == h);
        let mut step: usize = 0;
        while step < m
            invariant
                step <= m,
                m == buckets@.len(),
                keys@.len() < m,
                0 <= h < m,
                home == h,
                h == home_bucket(seed, key.key_bytes(), m as nat),
                table_holds(buckets@, keys@, seed),
                forall|t: int|
                    0 <= t < step ==> {
                        let e = #[trigger] buckets@[bucket_at(h, t, m as nat)];
                        e != EMPTY_BUCKET && e < keys@.len() && keys@[e as int].key_bytes()
                            != key.key_bytes()
                    },
            decreases m - step,
        {
            let at: usize = ((home as u128 + step as u128) % (m as u128)) as usize;
            assert(at == bucket_at(h, step as int, m as nat));
            let entry: usize = buckets[at];
            if entry == EMPTY_BUCKET {
                proof {
                    if has_key(keys@, key.key_bytes()) {
                        let e = entry_of(keys@, key.key_bytes());
                        assert(keys@[e].key_bytes() == key.key_bytes());
                        assert(reachable(buckets@, h, e as usize));
                        let s = choose|s: int|
                            0 <= s < m && #[trigger] buckets@[bucket_at(h, s, m as nat)]
                                == e as usize && forall|t: int|
                                0 <= t < s ==> #[trigger] buckets@[bucket_at(h, t, m as nat)]
                                    != EMPTY_BUCKET;
                        if s < step {
                            assert(buckets@[bucket_at(h, s, m as nat)] == e as usize);
                        } else if s > step {
                            assert(buckets@[bucket_at(h, step as int, m as nat)] != EMPTY_BUCKET);
                        }
                    }
                }
                return None;
            }
            assert(entry < keys@.len());
            if keys[entry].matches(key) {
                return Some(entry);
            }
            step = step + 1;
        }
        proof {
            if has_key(keys@, key.key_bytes()) {
                let e = entry_of(keys@, key.key_bytes());
                assert(keys@[e].key_bytes() == key.key_bytes());
                assert(reachable(buckets@, h, e as usize));
                let s = choose|s: int|
                    0 <= s < m && #[trigger] buckets@[bucket_at(h, s, m as nat)] == e as usize
                        && forall|t: int|
                        0 <= t < s ==> #[trigger] buckets@[bucket_at(h, t, m as nat)]
                            != EMPTY_BUCKET;
                assert(buckets@[bucket_at(h, s, m as nat)] == e as usize);
            }
        }
        None
    }

    /// Builds the table over `keys` and their id lists, with twice as
    /// many buckets as keys and one more. Fails if two keys have the same
    /// bytes, if there are not as many lists as keys, or if the buckets
    /// cannot be counted in a machine word.
    pub fn create(keys: Vec<K>, values: Vec<Vec<PointOffsetType>>) -> (r: OperationResult<Self>)
        ensures
            r.is_ok() <==> {
                &&& keys@.len() == values@.len()
                &&& keys_distinct(keys@)
                &&& 2 * keys@.len() + 1 <= usize::MAX
            },
            r matches Ok(table) ==> {
                &&& table.wf()
                &&& table.keys() == keys@
                &&& table.values() == id_lists(values@)
                &&& table.seed() == HASH_SEED
                &&& table.buckets() == build_buckets(keys@, HASH_SEED, 2 * keys@.len() + 1)
                &&& table.buckets().len() == 2 * keys@.len() + 1
            },
    {
        if keys.len() != values.len() {
            return Err(OperationError::service_error("every key needs a list of point ids"));
        }
        if keys.len() > (usize::MAX - 1) / 2 {
            return Err(OperationError::service_error("too many keys for a hash table"));
        }
        let n: usize = keys.len();
        let m: usize = 2 * n + 1;
        let mut buckets: Vec<usize> = Vec::new();
        let mut b: usize = 0;
        while b < m
            invariant
                b <= m,
                buckets@.len() == b,
                forall|i: int| 0 <= i < b ==> buckets@[i] == EMPTY_BUCKET,
            decreases m - b,
        {
            buckets.push(EMPTY_BUCKET);
            b = b + 1;
        }
        assert(buckets@ =~= build_buckets(keys@.take(0), HASH_SEED, m as nat));
        proof {
            lemma_build_holds(keys@.take(0), HASH_SEED, m as nat);
        }
        let mut e: usize = 0;
        while e < n
            invariant
                e <= n,
                n == keys@.len(),
                m == 2 * n + 1,
                buckets@.len() == m,
                buckets@ == build_buckets(keys@.take(e as int), HASH_SEED, m as nat),
                table_holds(buckets@, keys@.take(e as int), HASH_SEED),
                keys_distinct(keys@.take(e as int)),
            decreases n - e,
        {
            let ghost done = keys@.take(e as int);
            let ghost next = keys@.take(e + 1);
            proof {
                assert(next.drop_last() =~= done);
                assert(next.last() == keys@[e as int]);
            }
            let prefix_len: usize = e;
            let found = Self::find_in_prefix(&keys, prefix_len, &buckets, &keys[e]);
            if found {
                proof {
                    let d = entry_of(done, keys@[e as int].key_bytes());
                    assert(done[d] == keys@[d]);
                    assert(keys@[d].key_bytes() == keys@[e as int].key_bytes());
                }
                return Err(OperationError::service_error("a key occurs twice"));
            }
            let bytes = keys[e].write_bytes();
            let home: usize = (compute_hash(HASH_SEED, bytes.as_slice()) % (m as u64)) as usize;
            proof {
                lemma_place_holds(buckets@, next, HASH_SEED);
                lemma_probe(buckets@, home as int, 0);
            }
            let at: usize = Self::first_empty(&buckets, home);
            buckets.set(at, e);
            proof {
                assert forall|i: int, j: int| 0 <= i < j < next.len() implies (
                #[trigger] next[i]).key_bytes() != (#[trigger] next[j]).key_bytes() by {
                    if j == e {
                        assert(done[i] == next[i]);
                    } else {
                        assert(done[i] == next[i] && done[j] == next[j]);
                    }
                }
            }
            e = e + 1;
        }
        assert(keys@.take(n as int) =~= keys@);
        Ok(MmapHashMap { keys, values, buckets, seed: HASH_SEED })
    }

    /// Whether one of the first `len` keys has the bytes of `key`.
    fn find_in_prefix(keys: &Vec<K>, len: usize, buckets: &Vec<usize>, key: &K) -> (found: bool)
        requires
            len <= keys@.len(),
            len < buckets@.len(),
            table_holds(buckets@, keys@.take(len as int), HASH_SEED),
        ensures
            found == has_key(keys@.take(len as int), key.key_bytes()),
    {
        let ghost prefix = keys@.take(len as int);
        let m: usize = buckets.len();
        let bytes = key.write_bytes();
        let home: usize = (compute_hash(HASH_SEED, bytes.as_slice()) % (m as u64)) as usize;
        let ghost h = home_bucket(HASH_SEED, key.key_bytes(), m as nat);
        let mut step: usize = 0;
        while step < m
            invariant
                step <= m,
                m == buckets@.len(),
                len < m,
                len <= keys@.len(),
                prefix == keys@.take(len as int),
                0 <= h < m,
                home == h,
                h == home_bucket(HASH_SEED, key.key_bytes(), m as nat),
                table_holds(buckets@, prefix, HASH_SEED),
                forall|t: int|
                    0 <= t < step ==> {
                        let e = #[trigger] buckets@[bucket_at(h, t, m as nat)];
                        e != EMPTY_BUCKET && e < prefix.len() && prefix[e as int].key_bytes()
                            != key.key_bytes()
                    },
            decreases m - step,
        {
            let at: usize = ((home as u128 + step as u128) % (m as u128)) as usize;
            assert(at == bucket_at(h, step as int, m as nat));
            let entry: usize = buckets[at];
            if entry == EMPTY_BUCKET {
                proof {
                    if has_key(prefix, key.key_bytes()) {
                        let e = entry_of(prefix, key.key_bytes());
                        assert(prefix[e].key_bytes() == key.key_bytes());
                        assert(reachable(buckets@, h, e as usize));
                        let s = choose|s: int|
                            0 <= s < m && #[trigger] buckets@[bucket_at(h, s, m as nat)]
                                == e as usize && forall|t: int|
                                0 <= t < s ==> #[trigger] buckets@[bucket_at(h, t, m as nat)]
                                    != EMPTY_BUCKET;
                        if s < step {
                            assert(buckets@[bucket_at(h, s, m as nat)] == e as usize);
                        } else if s > step {
                            assert(buckets@[bucket_at(h, step as int, m as nat)] != EMPTY_BUCKET);
                        }
                    }
                }
                return false;
            }
            assert(entry < prefix.len());
            assert(prefix[entry as int] == keys@[entry as int]);
            if keys[entry].matches(key) {
                return true;
            }
            step = step + 1;
        }
        proof {
            if has_key(prefix, key.key_bytes()) {
                let e = entry_of(prefix, key.key_bytes());
                assert(prefix[e].key_bytes() == key.key_bytes());
                assert(reachable(buckets@, h, e as usize));
                let s = choose|s: int|
                    0 <= s < m && #[trigger] buckets@[bucket_at(h, s, m as nat)] == e as usize
                        && forall|t: int|
                        0 <= t < s ==> #[trigger] buckets@[bucket_at(h, t, m as nat)]
                            != EMPTY_BUCKET;
                assert(buckets@[bucket_at(h, s, m as nat)] == e as usize);
            }
        }
        false
    }

    /// The first empty bucket of the walk from `home`.
    fn first_empty(buckets: &Vec<usize>, home: usize) -> (at: usize)
        requires
            home < buckets@.len(),
            probe(buckets@, home as int, 0) < buckets@.len(),
        ensures
            at == bucket_at(home as int, probe(buckets@, home as int, 0), buckets@.len()),
            at < buckets@.len(),
    {
        let m: usize = buckets.len();
        let mut step: usize = 0;
        loop
            invariant
                step < m,
                m == buckets@.len(),
                home < m,
                probe(buckets@, home as int, 0) < m,
                probe(buckets@, home as int, step as int) == probe(buckets@, home as int, 0),
            decreases m - step,
        {
            let at: usize = ((home as u128 + step as u128) % (m as u128)) as usize;
            if buckets[at] == EMPTY_BUCKET {
                return at;
            }
            proof {
                lemma_probe(buckets@, home as int, step as int + 1);
            }
            step = step + 1;
        }
    }

    /// The number of distinct keys.
    pub fn keys_count(&self) -> (n: usize)
        ensures
            n == self.keys().len(),
    {
        self.keys.len()
    }

    /// The id list of `key`, if the table holds it.
    pub fn get(&self, key: &K) -> (r: Option<&Vec<PointOffsetType>>)
        requires
            self.wf(),
        ensures
            r.is_some() == self@.contains_key(key.key_bytes()),
            r matches Some(ids) ==> ids@ == self@[key.key_bytes()],
    {
        match Self::find(&self.keys, &self.buckets, self.seed, key) {
            Some(e) => {
                proof {
                    let chosen = entry_of(self.keys@, key.key_bytes());
                    assert(self.keys@[e as int].key_bytes() == key.key_bytes());
                    if chosen != e {
                        if chosen < e {
                            assert(self.keys@[chosen].key_bytes() != self.keys@[e as int].key_bytes());
                        } else {
                            assert(self.keys@[e as int].key_bytes() != self.keys@[chosen].key_bytes());
                        }
                    }
                }
                Some(&self.values[e])
            },
            None => None,
        }
    }

    /// The number of buckets.
    pub fn buckets_count(&self) -> (n: usize)
        ensures
            n == self.buckets().len(),
    {
        self.buckets.len()
    }

    /// What bucket `b` holds: the number of an entry, or the mark of an
    /// empty bucket.
    pub fn bucket(&self, b: usize) -> (entry: usize)
        requires
            self.wf(),
            b < self.buckets().len(),
        ensures
            entry == self.buckets()[b as int],
            entry == EMPTY_BUCKET || entry < self.keys().len(),
    {
        self.buckets[b]
    }

    pub fn hash_seed(&self) -> (seed: u64)
        ensures
            seed == self.seed(),
    {
        self.seed
    }

    /// The key of entry `e`.
    pub fn key_at(&self, e: usize) -> (key: &K)
        requires
            e < self.keys().len(),
        ensures
            *key == self.keys()[e as int],
    {
        &self.keys[e]
    }

    /// The id list of entry `e`.
    pub fn values_at(&self, e: usize) -> (ids: &Vec<PointOffsetType>)
        requires
            self.wf(),
            e < self.keys().len(),
        ensures
            ids@ == self.values()[e as int],
    {
        &self.values[e]
    }
}

/// Byte-wise order is transitive.
pub proof fn lemma_bytes_lt_transitive(a: Seq<u8>, b: Seq<u8>, c: Seq<u8>)
    requires
        crate::key_encoding::bytes_lt(a, b),
        crate::key_encoding::bytes_lt(b, c),
    ensures
        crate::key_encoding::bytes_lt(a, c),
    decreases a.len(),
{
    if a.len() > 0 && a[0] == b[0] && b[0] == c[0] {
        lemma_bytes_lt_transitive(a.drop_first(), b.drop_first(), c.drop_first());
    }
}

/// Of two byte strings exactly one holds: the first comes before the
/// second, they are equal, or the second comes before the first.
pub proof fn lemma_bytes_lt_total(a: Seq<u8>, b: Seq<u8>)
    ensures
        crate::key_encoding::bytes_lt(a, b) || a == b || crate::key_encoding::bytes_lt(b, a),
        !(crate::key_encoding::bytes_lt(a, b) && crate::key_encoding::bytes_lt(b, a)),
        !crate::key_encoding::bytes_lt(a, a),
    decreases a.len(),
{
    if a.len() > 0 && b.len() > 0 && a[0] == b[0] {
        lemma_bytes_lt_total(a.drop_first(), b.drop_first());
        if a.drop_first() == b.drop_first() {
            assert(a =~= seq![a[0]] + a.drop_first());
            assert(b =~= seq![b[0]] + b.drop_first());
        }
    } else if a.len() == 0 && b.len() == 0 {
        assert(a =~= b);
    }
    if a.len() > 0 {
        lemma_bytes_lt_irreflexive(a);
    }
}

proof fn lemma_bytes_lt_irreflexive(a: Seq<u8>)
    ensures
        !crate::key_encoding::bytes_lt(a, a),
    decreases a.len(),
{
    if a.len() > 0 {
        lemma_bytes_lt_irreflexive(a.drop_first());
    }
}

/// Whether the first byte string comes before the second, byte by byte.
pub fn bytes_less(a: &[u8], b: &[u8]) -> (r: bool)
    ensures
        r == crate::key_encoding::bytes_lt(a@, b@),
{
    let mut k: usize = 0;
    assert(a@.skip(0) =~= a@ && b@.skip(0) =~= b@);
    while k < a.len() && k < b.len()
        invariant
            k <= a.len(),
            k <= b.len(),
            crate::key_encoding::bytes_lt(a@, b@) == crate::key_encoding::bytes_lt(
                a@.skip(k as int),
                b@.skip(k as int),
            ),
        decreases a.len() - k,
    {
        proof {
            assert(a@.skip(k as int).drop_first() =~= a@.skip(k + 1));
            assert(b@.skip(k as int).drop_first() =~= b@.skip(k + 1));
            assert(a@.skip(k as int)[0] == a@[k as int]);
            assert(b@.skip(k as int)[0] == b@[k as int]);
        }
        if a[k] != b[k] {
            return a[k] < b[k];
        }
        k = k + 1;
    }
    k < b.len()
}

/// Whether keys are in ascending order of their bytes; `strictly` rules
/// out equal neighbours.
pub open spec fn keys_ascending<K: MapIndexKey>(keys: Seq<K>, strictly: bool) -> bool {
    forall|i: int, j: int|
        0 <= i < j < keys.len() ==> if strictly {
            crate::key_encoding::bytes_lt(
                (#[trigger] keys[i]).key_bytes(),
                (#[trigger] keys[j]).key_bytes(),
            )
        } else {
            !crate::key_encoding::bytes_lt(keys[j].key_bytes(), keys[i].key_bytes())
        }
}

/// Whether a table holds, from entry `from` on, a key with the given
/// bytes and the given id list.
#[verifier::opaque]
pub open spec fn has_entry<K: MapIndexKey>(
    keys: Seq<K>,
    ids: Seq<Vec<PointOffsetType>>,
    from: int,
    bytes: Seq<u8>,
    list: Vec<PointOffsetType>,
) -> bool {
    exists|k: int|
        from <= k < keys.len() && (#[trigger] keys[k]).key_bytes() == bytes && ids[k] == list
}

/// Whether every entry of the first table, from entry `from` on, is an
/// entry of the second: a key with the same bytes and the same id list.
pub open spec fn entries_within<K: MapIndexKey>(
    keys: Seq<K>,
    ids: Seq<Vec<PointOffsetType>>,
    from: int,
    other_keys: Seq<K>,
    other_ids: Seq<Vec<PointOffsetType>>,
    other_from: int,
) -> bool {
    forall|e: int|
        from <= e < keys.len() ==> has_entry(
            other_keys,
            other_ids,
            other_from,
            (#[trigger] keys[e]).key_bytes(),
            ids[e],
        )
}

/// Entry `k` of a table is an entry of it.
pub proof fn lemma_entry_is_held<K: MapIndexKey>(
    keys: Seq<K>,
    ids: Seq<Vec<PointOffsetType>>,
    from: int,
    k: int,
)
    requires
        from <= k < keys.len(),
    ensures
        has_entry(keys, ids, from, keys[k].key_bytes(), ids[k]),
{
    reveal(has_entry);
}

/// Where a table holds an entry, it holds it at some place.
pub proof fn lemma_entry_place<K: MapIndexKey>(
    keys: Seq<K>,
    ids: Seq<Vec<PointOffsetType>>,
    from: int,
    bytes: Seq<u8>,
    list: Vec<PointOffsetType>,
) -> (k: int)
    requires
        has_entry(keys, ids, from, bytes, list),
    ensures
        from <= k < keys.len(),
        keys[k].key_bytes() == bytes,
        ids[k] == list,
{
    reveal(has_entry);
    choose|k: int| from <= k < keys.len() && (#[trigger] keys[k]).key_bytes() == bytes && ids[k]
        == list
}

/// Puts the entries of a table in the order of the bytes of their keys,
/// so that the table built of them does not depend on the order they
/// came in. The entries stay the same entries. Keys that are distinct
/// come out strictly ascending and map to the same id lists as before.
/// Where there are not as many id lists as keys, nothing is changed.
pub fn order_entries<K: MapIndexKey>(values: Vec<K>, ids: Vec<Vec<PointOffsetType>>) -> (r: (
    Vec<K>,
    Vec<Vec<PointOffsetType>>,
))
    ensures
        values@.len() != ids@.len() ==> r.0@ == values@ && r.1@ == ids@,
        r.0@.len() == values@.len(),
        r.1@.len() == ids@.len(),
        values@.len() == ids@.len() ==> {
            &&& keys_ascending(r.0@, false)
            &&& entries_within(values@, ids@, 0, r.0@, r.1@, 0)
            &&& entries_within(r.0@, r.1@, 0, values@, ids@, 0)
        },
        values@.len() == ids@.len() && keys_distinct(values@) ==> {
            &&& keys_ascending(r.0@, true)
            &&& keys_distinct(r.0@)
            &&& map_of(r.0@, id_lists(r.1@)) == map_of(values@, id_lists(ids@))
        },
{
    if values.len() != ids.len() {
        return (values, ids);
    }
    let ghost keys0 = values@;
    let ghost ids0 = ids@;
    let mut values = values;
    let mut ids = ids;
    let mut out_keys: Vec<K> = Vec::new();
    let mut out_ids: Vec<Vec<PointOffsetType>> = Vec::new();
    while values.len() > 0
        invariant
            keys0.len() == ids0.len(),
            values@.len() == ids@.len(),
            values@ == keys0.take(values@.len() as int),
            ids@ == ids0.take(values@.len() as int),
            out_keys@.len() == out_ids@.len(),
            out_keys@.len() + values@.len() == keys0.len(),
            keys_ascending(out_keys@, false),
            keys_distinct(keys0) ==> keys_ascending(out_keys@, true),
            entries_within(keys0, ids0, values@.len() as int, out_keys@, out_ids@, 0),
            entries_within(out_keys@, out_ids@, 0, keys0, ids0, values@.len() as int),
        decreases values@.len(),
    {
        let ghost rem = values@.len() as int;
        let ghost before_keys = out_keys@;
        let ghost before_ids = out_ids@;
        let key = values.pop().unwrap();
        let list = ids.pop().unwrap();
        assert(key == keys0[rem - 1] && list == ids0[rem - 1]);
        let key_bytes = key.write_bytes();
        let mut pos: usize = 0;
        let mut found: bool = false;
        while pos < out_keys.len() && !found
            invariant
                pos <= out_keys@.len(),
                out_keys@ == before_keys,
                key_bytes@ == key.key_bytes(),
                forall|i: int|
                    0 <= i < pos ==> crate::key_encoding::bytes_lt(
                        (#[trigger] out_keys@[i]).key_bytes(),
                        key.key_bytes(),
                    ),
                found ==> pos < out_keys@.len() && !crate::key_encoding::bytes_lt(
                    out_keys@[pos as int].key_bytes(),
                    key.key_bytes(),
                ),
            decreases out_keys@.len() - pos + if found { 0int } else { 1int },
        {
            let there = out_keys[pos].write_bytes();
            if bytes_less(there.as_slice(), key_bytes.as_slice()) {
                pos = pos + 1;
            } else {
                found = true;
            }
        }
        proof {
            lemma_entry_inserted(keys0, ids0, rem, before_keys, before_ids, pos as int);
        }
        out_keys.insert(pos, key);
        out_ids.insert(pos, list);
        proof {
            assert(values@ =~= keys0.take(rem - 1));
            assert(ids@ =~= ids0.take(rem - 1));
        }
    }
    proof {
        if keys_distinct(keys0) {
            assert forall|i: int, j: int| 0 <= i < j < out_keys@.len() implies (
            #[trigger] out_keys@[i]).key_bytes() != (#[trigger] out_keys@[j]).key_bytes() by {
                lemma_bytes_lt_total(out_keys@[i].key_bytes(), out_keys@[j].key_bytes());
            }
            lemma_same_entries_same_map(keys0, ids0, out_keys@, out_ids@);
        }
    }
    (out_keys, out_ids)
}

/// Putting one more entry in its place keeps the keys in order and the
/// entries the same entries.
#[verifier::rlimit(60)]
proof fn lemma_entry_inserted<K: MapIndexKey>(
    keys0: Seq<K>,
    ids0: Seq<Vec<PointOffsetType>>,
    rem: int,
    before_keys: Seq<K>,
    before_ids: Seq<Vec<PointOffsetType>>,
    pos: int,
)
    requires
        keys0.len() == ids0.len(),
        before_keys.len() == before_ids.len(),
        1 <= rem <= keys0.len(),
        0 <= pos <= before_keys.len(),
        keys_ascending(before_keys, false),
        keys_distinct(keys0) ==> keys_ascending(before_keys, true),
        entries_within(keys0, ids0, rem, before_keys, before_ids, 0),
        entries_within(before_keys, before_ids, 0, keys0, ids0, rem),
        forall|i: int|
            0 <= i < pos ==> crate::key_encoding::bytes_lt(
                (#[trigger] before_keys[i]).key_bytes(),
                keys0[rem - 1].key_bytes(),
            ),
        pos < before_keys.len() ==> !crate::key_encoding::bytes_lt(
            before_keys[pos].key_bytes(),
            keys0[rem - 1].key_bytes(),
        ),
    ensures
        keys_ascending(before_keys.insert(pos, keys0[rem - 1]), false),
        keys_distinct(keys0) ==> keys_ascending(before_keys.insert(pos, keys0[rem - 1]), true),
        entries_within(
            keys0,
            ids0,
            rem - 1,
            before_keys.insert(pos, keys0[rem - 1]),
            before_ids.insert(pos, ids0[rem - 1]),
            0,
        ),
        entries_within(
            before_keys.insert(pos, keys0[rem - 1]),
            before_ids.insert(pos, ids0[rem - 1]),
            0,
            keys0,
            ids0,
            rem - 1,
        ),
{
    let key = keys0[rem - 1];
    let list = ids0[rem - 1];
    let after_keys = before_keys.insert(pos, key);
    let after_ids = before_ids.insert(pos, list);
    let kb = key.key_bytes();
    // every key already placed differs from the new one if the keys are distinct
    assert forall|k: int| 0 <= k < before_keys.len() && keys_distinct(keys0) implies (
    #[trigger] before_keys[k]).key_bytes() != kb by {
        let e = lemma_entry_place(keys0, ids0, rem, before_keys[k].key_bytes(), before_ids[k]);
        assert(keys0[rem - 1].key_bytes() != keys0[e].key_bytes());
    }
    // the new key does not come after any key from its place on
    assert forall|j: int| pos <= j < before_keys.len() implies !crate::key_encoding::bytes_lt(
        (#[trigger] before_keys[j]).key_bytes(),
        kb,
    ) by {
        let first = before_keys[pos].key_bytes();
        let b = before_keys[j].key_bytes();
        if j > pos && crate::key_encoding::bytes_lt(b, kb) {
            lemma_bytes_lt_total(first, kb);
            assert(!crate::key_encoding::bytes_lt(b, first));
            if first != kb {
                lemma_bytes_lt_transitive(b, kb, first);
            }
        }
    }
    assert forall|i: int, j: int| 0 <= i < j < after_keys.len() implies (
    !crate::key_encoding::bytes_lt(
        (#[trigger] after_keys[j]).key_bytes(),
        (#[trigger] after_keys[i]).key_bytes(),
    ) && (keys_distinct(keys0) ==> crate::key_encoding::bytes_lt(
        after_keys[i].key_bytes(),
        after_keys[j].key_bytes(),
    ))) by {
        let a = after_keys[i].key_bytes();
        let b = after_keys[j].key_bytes();
        lemma_bytes_lt_total(a, b);
        if i != pos && j != pos {
            let pi = if i < pos { i } else { i - 1 };
            let pj = if j < pos { j } else { j - 1 };
            assert(after_keys[i] == before_keys[pi] && after_keys[j] == before_keys[pj]);
            assert(pi < pj);
        } else if j == pos {
            assert(after_keys[i] == before_keys[i]);
        } else {
            assert(after_keys[j] == before_keys[j - 1]);
        }
    }
    assert forall|e: int| rem - 1 <= e < keys0.len() implies has_entry(
        after_keys,
        after_ids,
        0,
        (#[trigger] keys0[e]).key_bytes(),
        ids0[e],
    ) by {
        if e == rem - 1 {
            lemma_entry_is_held(after_keys, after_ids, 0, pos);
        } else {
            let k = lemma_entry_place(before_keys, before_ids, 0, keys0[e].key_bytes(), ids0[e]);
            let moved = if k < pos { k } else { k + 1 };
            assert(after_keys[moved] == before_keys[k]);
            assert(after_ids[moved] == before_ids[k]);
            lemma_entry_is_held(after_keys, after_ids, 0, moved);
        }
    }
    assert forall|k: int| 0 <= k < after_keys.len() implies has_entry(
        keys0,
        ids0,
        rem - 1,
        (#[trigger] after_keys[k]).key_bytes(),
        after_ids[k],
    ) by {
        if k == pos {
            lemma_entry_is_held(keys0, ids0, rem - 1, rem - 1);
        } else {
            let from = if k < pos { k } else { k - 1 };
            assert(after_keys[k] == before_keys[from]);
            assert(after_ids[k] == before_ids[from]);
            let e = lemma_entry_place(
                keys0,
                ids0,
                rem,
                before_keys[from].key_bytes(),
                before_ids[from],
            );
            lemma_entry_is_held(keys0, ids0, rem - 1, e);
        }
    }
}

/// Two tables with distinct keys that hold the same entries map the same
/// keys to the same id lists.
pub proof fn lemma_same_entries_same_map<K: MapIndexKey>(
    keys: Seq<K>,
    ids: Seq<Vec<PointOffsetType>>,
    other_keys: Seq<K>,
    other_ids: Seq<Vec<PointOffsetType>>,
)
    requires
        keys.len() == ids.len(),
        other_keys.len() == other_ids.len(),
        keys_distinct(keys),
        keys_distinct(other_keys),
        entries_within(keys, ids, 0, other_keys, other_ids, 0),
        entries_within(other_keys, other_ids, 0, keys, ids, 0),
    ensures
        map_of(other_keys, id_lists(other_ids)) == map_of(keys, id_lists(ids)),
{
    let a = map_of(keys, id_lists(ids));
    let b = map_of(other_keys, id_lists(other_ids));
    assert forall|bytes: Seq<u8>| a.contains_key(bytes) == b.contains_key(bytes) by {
        if has_key(keys, bytes) {
            let e = entry_of(keys, bytes);
            assert(keys[e].key_bytes() == bytes);
            let k = lemma_entry_place(other_keys, other_ids, 0, keys[e].key_bytes(), ids[e]);
            assert(other_keys[k].key_bytes() == bytes);
        }
        if has_key(other_keys, bytes) {
            let k = entry_of(other_keys, bytes);
            assert(other_keys[k].key_bytes() == bytes);
            let e = lemma_entry_place(keys, ids, 0, other_keys[k].key_bytes(), other_ids[k]);
            assert(keys[e].key_bytes() == bytes);
        }
    }
    assert forall|bytes: Seq<u8>| a.contains_key(bytes) implies a[bytes] == b[bytes] by {
        let e = entry_of(keys, bytes);
        let k = entry_of(other_keys, bytes);
        assert(keys[e].key_bytes() == bytes);
        assert(other_keys[k].key_bytes() == bytes);
        let k2 = lemma_entry_place(other_keys, other_ids, 0, keys[e].key_bytes(), ids[e]);
        if k2 < k {
            assert(other_keys[k2].key_bytes() != other_keys[k].key_bytes());
        } else if k < k2 {
            assert(other_keys[k].key_bytes() != other_keys[k2].key_bytes());
        }
    }
    assert(a =~= b);
}

} // verus!
