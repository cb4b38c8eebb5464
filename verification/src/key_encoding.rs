//! Order-preserving binary keys.
//!
//! A key is the big-endian image of a value, mapped into an unsigned range
//! so that unsigned order equals value order, followed by the big-endian
//! point id. Comparing two keys byte by byte therefore compares
//! `(value, point id)` pairs.

use vstd::prelude::*;
use crate::types::PointOffsetType;
use crate::types::FloatPayloadType;

verus! {

/// Length in bytes of an encoded point id.
pub const ID_LEN: usize = 4;

/// Length in bytes of an encoded 64-bit value.
pub const WORD_LEN: usize = 8;

/// Length in bytes of an encoded 128-bit value.
pub const WIDE_LEN: usize = 16;

/// `256^n`.
pub open spec fn pow256(n: nat) -> nat
    decreases n,
{
    if n == 0 {
        1
    } else {
        256 * pow256((n - 1) as nat)
    }
}

/// The `n` low base-256 digits of `x`, most significant first.
pub open spec fn be_bytes(x: nat, n: nat) -> Seq<u8>
    decreases n,
{
    if n == 0 {
        Seq::empty()
    } else {
        be_bytes(x / 256, (n - 1) as nat).push((x % 256) as u8)
    }
}

/// The number whose base-256 digits, most significant first, are `s`.
pub open spec fn be_value(s: Seq<u8>) -> nat
    decreases s.len(),
{
    if s.len() == 0 {
        0
    } else {
        be_value(s.drop_last()) * 256 + s.last() as nat
    }
}

/// Byte-wise lexicographic order, the order in which a sorted file of keys
/// is laid out.
pub open spec fn bytes_lt(a: Seq<u8>, b: Seq<u8>) -> bool
    decreases a.len(),
{
    if b.len() == 0 {
        false
    } else if a.len() == 0 {
        true
    } else if a[0] != b[0] {
        a[0] < b[0]
    } else {
        bytes_lt(a.drop_first(), b.drop_first())
    }
}

pub proof fn lemma_pow256_positive(n: nat)
    ensures
        pow256(n) > 0,
    decreases n,
{
    if n > 0 {
        lemma_pow256_positive((n - 1) as nat);
    }
}

pub proof fn lemma_pow256_values()
    ensures
        pow256(0) == 1,
        pow256(4) == 0x1_0000_0000,
        pow256(8) == 0x1_0000_0000_0000_0000,
        pow256(12) == 0x1_0000_0000_0000_0000_0000_0000,
        pow256(16) == 0x1_0000_0000_0000_0000_0000_0000_0000_0000,
        pow256(20) == 0x1_0000_0000_0000_0000_0000_0000_0000_0000_0000_0000,
{
    reveal_with_fuel(pow256, 21);
}

pub proof fn lemma_pow256_add(a: nat, b: nat)
    ensures
        pow256(a + b) == pow256(a) * pow256(b),
    decreases b,
{
    if b == 0 {
        assert(pow256(a) * 1 == pow256(a));
    } else {
        lemma_pow256_add(a, (b - 1) as nat);
        assert(pow256(a + b) == 256 * pow256((a + b - 1) as nat));
        assert(256 * (pow256(a) * pow256((b - 1) as nat)) == pow256(a) * (256 * pow256(
            (b - 1) as nat,
        ))) by (nonlinear_arith);
    }
}

pub proof fn lemma_be_bytes_len(x: nat, n: nat)
    ensures
        be_bytes(x, n).len() == n,
    decreases n,
{
    if n > 0 {
        lemma_be_bytes_len(x / 256, (n - 1) as nat);
    }
}

pub proof fn lemma_be_value_bound(s: Seq<u8>)
    ensures
        be_value(s) < pow256(s.len()),
    decreases s.len(),
{
    if s.len() > 0 {
        lemma_be_value_bound(s.drop_last());
    }
}

/// Reading back the digits of a number that fits gives the number.
pub proof fn lemma_be_value_of_bytes(x: nat, n: nat)
    requires
        x < pow256(n),
    ensures
        be_value(be_bytes(x, n)) == x,
    decreases n,
{
    if n > 0 {
        let rest = be_bytes(x / 256, (n - 1) as nat);
        lemma_be_value_of_bytes(x / 256, (n - 1) as nat);
        assert(be_bytes(x, n).drop_last() =~= rest);
    }
}

/// Writing the digits of what was read gives the bytes back.
pub proof fn lemma_be_bytes_of_value(s: Seq<u8>)
    ensures
        be_bytes(be_value(s), s.len()) == s,
    decreases s.len(),
{
    if s.len() > 0 {
        lemma_be_bytes_of_value(s.drop_last());
        let v = be_value(s);
        assert(v / 256 == be_value(s.drop_last()));
        assert(v % 256 == s.last() as nat);
        assert(be_bytes(v, s.len()) =~= s);
    } else {
        assert(be_bytes(be_value(s), 0) =~= s);
    }
}

/// The value of a concatenation shifts the first part past the second.
pub proof fn lemma_be_value_concat(a: Seq<u8>, b: Seq<u8>)
    ensures
        be_value(a + b) == be_value(a) * pow256(b.len()) + be_value(b),
    decreases b.len(),
{
    if b.len() == 0 {
        assert(a + b =~= a);
        assert(be_value(a) * 1 == be_value(a));
    } else {
        lemma_be_value_concat(a, b.drop_last());
        assert((a + b).drop_last() =~= a + b.drop_last());
        assert((a + b).last() == b.last());
        let p = pow256((b.len() - 1) as nat);
        let va = be_value(a);
        let vb = be_value(b.drop_last());
        assert(be_value(a + b) == be_value(a + b.drop_last()) * 256 + b.last() as nat);
        assert(be_value(b) == vb * 256 + b.last() as nat);
        assert(pow256(b.len()) == 256 * p);
        assert((va * p + vb) * 256 == va * (256 * p) + vb * 256) by (nonlinear_arith);
    }
}

/// The leading byte weighs `256^(len - 1)`.
pub proof fn lemma_be_value_front(s: Seq<u8>)
    requires
        s.len() > 0,
    ensures
        be_value(s) == s[0] as nat * pow256((s.len() - 1) as nat) + be_value(s.drop_first()),
{
    let head = seq![s[0]];
    assert(head + s.drop_first() =~= s);
    lemma_be_value_concat(head, s.drop_first());
    assert(head.drop_last() =~= Seq::<u8>::empty());
    assert(be_value(Seq::<u8>::empty()) == 0);
    assert(be_value(head) == be_value(head.drop_last()) * 256 + head.last() as nat);
}

/// On keys of one length, byte order is numeric order.
pub proof fn lemma_bytes_lt_is_value_lt(a: Seq<u8>, b: Seq<u8>)
    requires
        a.len() == b.len(),
    ensures
        bytes_lt(a, b) <==> be_value(a) < be_value(b),
    decreases a.len(),
{
    if a.len() > 0 {
        lemma_be_value_front(a);
        lemma_be_value_front(b);
        lemma_be_value_bound(a.drop_first());
        lemma_be_value_bound(b.drop_first());
        let p = pow256((a.len() - 1) as nat);
        let x = a[0] as nat;
        let y = b[0] as nat;
        if a[0] != b[0] {
            if x < y {
                assert(x * p + p <= y * p) by (nonlinear_arith)
                    requires
                        x < y,
                ;
            } else {
                assert(y * p + p <= x * p) by (nonlinear_arith)
                    requires
                        y < x,
                ;
            }
        } else {
            lemma_bytes_lt_is_value_lt(a.drop_first(), b.drop_first());
        }
    }
}

/// Appends the `n` low base-256 digits of `x`, most significant first.
pub fn push_be(buf: &mut Vec<u8>, x: u128, n: usize)
    ensures
        final(buf)@ == old(buf)@ + be_bytes(x as nat, n as nat),
    decreases n,
{
    if n > 0 {
        push_be(buf, x / 256, n - 1);
        buf.push((x % 256) as u8);
        assert(buf@ =~= old(buf)@ + be_bytes(x as nat, n as nat));
    } else {
        assert(buf@ =~= old(buf)@ + be_bytes(x as nat, n as nat));
    }
}

/// Reads `n` bytes at `start` as one big-endian number.
pub fn read_be(s: &[u8], start: usize, n: usize) -> (x: u128)
    requires
        n <= 16,
        start + n <= s.len(),
    ensures
        x as nat == be_value(s@.subrange(start as int, start + n)),
{
    let mut x: u128 = 0;
    let mut k: usize = 0;
    while k < n
        invariant
            k <= n <= 16,
            start + n <= s.len(),
            x as nat == be_value(s@.subrange(start as int, start + k)),
        decreases n - k,
    {
        proof {
            let cur = s@.subrange(start as int, start + k);
            let next = s@.subrange(start as int, start + k + 1);
            lemma_be_value_bound(cur);
            lemma_pow256_values();
            lemma_pow256_add(k as nat, (15 - k) as nat);
            lemma_pow256_positive((15 - k) as nat);
            assert(pow256(15) == 0x1_00_0000_0000_0000_0000_0000_0000_0000) by {
                reveal_with_fuel(pow256, 16);
            }
            assert(pow256(k as nat) <= pow256(15)) by (nonlinear_arith)
                requires
                    pow256(15) == pow256(k as nat) * pow256((15 - k) as nat),
                    pow256((15 - k) as nat) > 0,
                    pow256(k as nat) > 0,
            ;
            assert(next.drop_last() =~= cur);
            assert(next.last() == s@[start + k]);
        }
        x = x * 256 + s[start + k] as u128;
        k = k + 1;
    }
    x
}

/// Position of a signed value among all signed values: the value with its
/// sign bit flipped, read as unsigned.
pub open spec fn i64_order_key(val: i64) -> nat {
    (val + 0x8000_0000_0000_0000) as nat
}

/// The signed value at a given position.
pub open spec fn i64_from_order_key(key: nat) -> i64 {
    (key - 0x8000_0000_0000_0000) as i64
}

/// Position of a float in the codec's total order. Every NaN takes the
/// lowest position; a negative value has all its bits inverted and any
/// other value has its sign bit flipped.
pub open spec fn f64_order_key(val: FloatPayloadType) -> nat {
    if val.spec_is_nan() {
        0
    } else if val.bits >= 0x8000_0000_0000_0000 {
        (0xffff_ffff_ffff_ffff - val.bits) as nat
    } else {
        (val.bits + 0x8000_0000_0000_0000) as nat
    }
}

/// The float at a given position; position zero gives a NaN.
pub open spec fn f64_from_order_key(key: nat) -> FloatPayloadType {
    if key >= 0x8000_0000_0000_0000 {
        FloatPayloadType { bits: (key - 0x8000_0000_0000_0000) as u64 }
    } else {
        FloatPayloadType { bits: (0xffff_ffff_ffff_ffff - key) as u64 }
    }
}

/// The key of a value at position `order_key`, `value_len` bytes wide,
/// carried by point `id`.
pub open spec fn key_bytes(order_key: nat, value_len: nat, id: PointOffsetType) -> Seq<u8> {
    be_bytes(order_key, value_len) + be_bytes(id as nat, ID_LEN as nat)
}

/// The position encoded in the value part of a key.
pub open spec fn key_order_key(key: Seq<u8>, value_len: nat) -> nat {
    be_value(key.subrange(0, value_len as int))
}

/// The point id encoded in the tail of a key.
pub open spec fn key_id(key: Seq<u8>, value_len: nat) -> nat {
    be_value(key.subrange(value_len as int, value_len + ID_LEN))
}

/// A key decodes to the position and the id it was made from.
pub proof fn lemma_key_round_trip(order_key: nat, value_len: nat, id: PointOffsetType)
    requires
        order_key < pow256(value_len),
    ensures
        key_bytes(order_key, value_len, id).len() == value_len + ID_LEN,
        key_order_key(key_bytes(order_key, value_len, id), value_len) == order_key,
        key_id(key_bytes(order_key, value_len, id), value_len) == id,
{
    let v = be_bytes(order_key, value_len);
    let i = be_bytes(id as nat, ID_LEN as nat);
    lemma_be_bytes_len(order_key, value_len);
    lemma_be_bytes_len(id as nat, ID_LEN as nat);
    lemma_pow256_values();
    lemma_be_value_of_bytes(order_key, value_len);
    lemma_be_value_of_bytes(id as nat, ID_LEN as nat);
    assert((v + i).subrange(0, value_len as int) =~= v);
    assert((v + i).subrange(value_len as int, value_len + ID_LEN) =~= i);
}

/// The number a whole key spells: the position shifted past the id.
pub proof fn lemma_key_value(order_key: nat, value_len: nat, id: PointOffsetType)
    requires
        order_key < pow256(value_len),
    ensures
        be_value(key_bytes(order_key, value_len, id)) == order_key * 0x1_0000_0000 + id,
{
    let v = be_bytes(order_key, value_len);
    let i = be_bytes(id as nat, ID_LEN as nat);
    lemma_be_bytes_len(id as nat, ID_LEN as nat);
    lemma_pow256_values();
    lemma_be_value_of_bytes(order_key, value_len);
    lemma_be_value_of_bytes(id as nat, ID_LEN as nat);
    lemma_be_value_concat(v, i);
}

/// Keys of one width sort byte-wise exactly as `(position, id)` pairs sort.
pub proof fn lemma_key_order(
    a: nat,
    i: PointOffsetType,
    b: nat,
    j: PointOffsetType,
    value_len: nat,
)
    requires
        a < pow256(value_len),
        b < pow256(value_len),
    ensures
        bytes_lt(key_bytes(a, value_len, i), key_bytes(b, value_len, j)) <==> (a < b || (a == b
            && i < j)),
{
    lemma_key_value(a, value_len, i);
    lemma_key_value(b, value_len, j);
    lemma_key_round_trip(a, value_len, i);
    lemma_key_round_trip(b, value_len, j);
    lemma_bytes_lt_is_value_lt(key_bytes(a, value_len, i), key_bytes(b, value_len, j));
}

/// Builds the key of a value at position `order_key`.
pub fn encode_key_ascending(order_key: u128, value_len: usize, id: PointOffsetType) -> (key: Vec<
    u8,
>)
    ensures
        key@ == key_bytes(order_key as nat, value_len as nat, id),
{
    let mut key: Vec<u8> = Vec::new();
    push_be(&mut key, order_key, value_len);
    push_be(&mut key, id as u128, ID_LEN);
    assert(key@ =~= key_bytes(order_key as nat, value_len as nat, id));
    key
}

/// Splits a key into its point id and the position of its value.
pub fn decode_key_ascending(key: &[u8], value_len: usize) -> (r: (PointOffsetType, u128))
    requires
        value_len <= 16,
        key@.len() == value_len + ID_LEN,
    ensures
        r.0 as nat == key_id(key@, value_len as nat),
        r.1 as nat == key_order_key(key@, value_len as nat),
{
    let order_key: u128 = read_be(key, 0, value_len);
    let id: u128 = read_be(key, value_len, ID_LEN);
    proof {
        lemma_be_value_bound(key@.subrange(value_len as int, value_len + ID_LEN));
        lemma_pow256_values();
    }
    (id as PointOffsetType, order_key)
}

pub fn i64_to_order_key(val: i64) -> (key: u64)
    ensures
        key as nat == i64_order_key(val),
{
    if val < 0 {
        (val - i64::MIN) as u64
    } else {
        val as u64 + 0x8000_0000_0000_0000
    }
}

pub fn i64_of_order_key(key: u64) -> (val: i64)
    ensures
        val == i64_from_order_key(key as nat),
{
    if key >= 0x8000_0000_0000_0000 {
        (key - 0x8000_0000_0000_0000) as i64
    } else {
        key as i64 + i64::MIN
    }
}

pub fn f64_to_order_key(val: FloatPayloadType) -> (key: u64)
    ensures
        key as nat == f64_order_key(val),
{
    if val.is_nan() {
        0
    } else if val.bits >= 0x8000_0000_0000_0000 {
        0xffff_ffff_ffff_ffff - val.bits
    } else {
        val.bits + 0x8000_0000_0000_0000
    }
}

pub fn f64_of_order_key(key: u64) -> (val: FloatPayloadType)
    ensures
        val == f64_from_order_key(key as nat),
{
    if key >= 0x8000_0000_0000_0000 {
        FloatPayloadType { bits: key - 0x8000_0000_0000_0000 }
    } else {
        FloatPayloadType { bits: 0xffff_ffff_ffff_ffff - key }
    }
}

/// The key of a signed value: the value with its sign bit flipped, then the
/// point id, both big-endian.
pub fn encode_i64_key_ascending(val: i64, id: PointOffsetType) -> (key: Vec<u8>)
    ensures
        key@ == key_bytes(i64_order_key(val), WORD_LEN as nat, id),
        key@.len() == WORD_LEN + ID_LEN,
{
    proof {
        lemma_pow256_values();
        lemma_key_round_trip(i64_order_key(val), WORD_LEN as nat, id);
    }
    encode_key_ascending(i64_to_order_key(val) as u128, WORD_LEN, id)
}

pub fn decode_i64_key_ascending(key: &[u8]) -> (r: (PointOffsetType, i64))
    requires
        key@.len() == WORD_LEN + ID_LEN,
    ensures
        r.0 as nat == key_id(key@, WORD_LEN as nat),
        r.1 == i64_from_order_key(key_order_key(key@, WORD_LEN as nat)),
{
    let (id, order_key) = decode_key_ascending(key, WORD_LEN);
    proof {
        lemma_be_value_bound(key@.subrange(0, WORD_LEN as int));
        lemma_pow256_values();
    }
    (id, i64_of_order_key(order_key as u64))
}

/// The key of a 128-bit value: the value, then the point id, both
/// big-endian.
pub fn encode_u128_key_ascending(val: u128, id: PointOffsetType) -> (key: Vec<u8>)
    ensures
        key@ == key_bytes(val as nat, WIDE_LEN as nat, id),
        key@.len() == WIDE_LEN + ID_LEN,
{
    proof {
        lemma_pow256_values();
        lemma_key_round_trip(val as nat, WIDE_LEN as nat, id);
    }
    encode_key_ascending(val, WIDE_LEN, id)
}

pub fn decode_u128_key_ascending(key: &[u8]) -> (r: (PointOffsetType, u128))
    requires
        key@.len() == WIDE_LEN + ID_LEN,
    ensures
        r.0 as nat == key_id(key@, WIDE_LEN as nat),
        r.1 as nat == key_order_key(key@, WIDE_LEN as nat),
{
    decode_key_ascending(key, WIDE_LEN)
}

/// The key of a float: its position in the codec's order, then the point
/// id, both big-endian.
pub fn encode_f64_key_ascending(val: FloatPayloadType, id: PointOffsetType) -> (key: Vec<u8>)
    ensures
        key@ == key_bytes(f64_order_key(val), WORD_LEN as nat, id),
        key@.len() == WORD_LEN + ID_LEN,
{
    proof {
        lemma_pow256_values();
        lemma_key_round_trip(f64_order_key(val), WORD_LEN as nat, id);
    }
    encode_key_ascending(f64_to_order_key(val) as u128, WORD_LEN, id)
}

pub fn decode_f64_key_ascending(key: &[u8]) -> (r: (PointOffsetType, FloatPayloadType))
    requires
        key@.len() == WORD_LEN + ID_LEN,
    ensures
        r.0 as nat == key_id(key@, WORD_LEN as nat),
        r.1 == f64_from_order_key(key_order_key(key@, WORD_LEN as nat)),
{
    let (id, order_key) = decode_key_ascending(key, WORD_LEN);
    proof {
        lemma_be_value_bound(key@.subrange(0, WORD_LEN as int));
        lemma_pow256_values();
    }
    (id, f64_of_order_key(order_key as u64))
}

/// A signed value and its id survive encoding and decoding.
pub proof fn lemma_i64_key_round_trip(val: i64, id: PointOffsetType)
    ensures
        ({
            let key = key_bytes(i64_order_key(val), WORD_LEN as nat, id);
            &&& key_id(key, WORD_LEN as nat) == id
            &&& i64_from_order_key(key_order_key(key, WORD_LEN as nat)) == val
        }),
{
    lemma_pow256_values();
    lemma_key_round_trip(i64_order_key(val), WORD_LEN as nat, id);
}

/// Keys of signed values sort byte-wise as `(value, id)` pairs sort.
pub proof fn lemma_i64_key_order(a: i64, i: PointOffsetType, b: i64, j: PointOffsetType)
    ensures
        bytes_lt(
            key_bytes(i64_order_key(a), WORD_LEN as nat, i),
            key_bytes(i64_order_key(b), WORD_LEN as nat, j),
        ) <==> (a < b || (a == b && i < j)),
{
    lemma_pow256_values();
    lemma_key_order(i64_order_key(a), i, i64_order_key(b), j, WORD_LEN as nat);
}

/// A 128-bit value and its id survive encoding and decoding.
pub proof fn lemma_u128_key_round_trip(val: u128, id: PointOffsetType)
    ensures
        ({
            let key = key_bytes(val as nat, WIDE_LEN as nat, id);
            &&& key_id(key, WIDE_LEN as nat) == id
            &&& key_order_key(key, WIDE_LEN as nat) == val
        }),
{
    lemma_pow256_values();
    lemma_key_round_trip(val as nat, WIDE_LEN as nat, id);
}

/// Keys of 128-bit values sort byte-wise as `(value, id)` pairs sort.
pub proof fn lemma_u128_key_order(a: u128, i: PointOffsetType, b: u128, j: PointOffsetType)
    ensures
        bytes_lt(
            key_bytes(a as nat, WIDE_LEN as nat, i),
            key_bytes(b as nat, WIDE_LEN as nat, j),
        ) <==> (a < b || (a == b && i < j)),
{
    lemma_pow256_values();
    lemma_key_order(a as nat, i, b as nat, j, WIDE_LEN as nat);
}

/// A float that is not a NaN survives encoding and decoding bit for bit;
/// a NaN comes back as a NaN. The id always survives.
pub proof fn lemma_f64_key_round_trip(val: FloatPayloadType, id: PointOffsetType)
    ensures
        ({
            let key = key_bytes(f64_order_key(val), WORD_LEN as nat, id);
            let back = f64_from_order_key(key_order_key(key, WORD_LEN as nat));
            &&& key_id(key, WORD_LEN as nat) == id
            &&& !val.spec_is_nan() ==> back == val
            &&& val.spec_is_nan() ==> back.spec_is_nan()
            &&& f64_order_key(back) == f64_order_key(val)
        }),
{
    lemma_pow256_values();
    lemma_key_round_trip(f64_order_key(val), WORD_LEN as nat, id);
}

/// Keys of floats sort byte-wise as `(position, id)` pairs sort, where the
/// position places every NaN first and equal to every other NaN.
pub proof fn lemma_f64_key_order(
    a: FloatPayloadType,
    i: PointOffsetType,
    b: FloatPayloadType,
    j: PointOffsetType,
)
    ensures
        bytes_lt(
            key_bytes(f64_order_key(a), WORD_LEN as nat, i),
            key_bytes(f64_order_key(b), WORD_LEN as nat, j),
        ) <==> (f64_order_key(a) < f64_order_key(b) || (f64_order_key(a) == f64_order_key(b) && i
            < j)),
        a.spec_is_nan() && !b.spec_is_nan() ==> f64_order_key(a) < f64_order_key(b),
        a.spec_is_nan() && b.spec_is_nan() ==> f64_order_key(a) == f64_order_key(b),
{
    lemma_pow256_values();
    lemma_key_order(f64_order_key(a), i, f64_order_key(b), j, WORD_LEN as nat);
}

} // verus!
