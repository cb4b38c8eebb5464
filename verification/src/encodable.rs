//! Scalar values that can be laid out as order-preserving keys.

use vstd::prelude::*;
use crate::key_encoding::be_value;
use crate::key_encoding::decode_f64_key_ascending;
use crate::key_encoding::decode_i64_key_ascending;
use crate::key_encoding::decode_u128_key_ascending;
use crate::key_encoding::encode_f64_key_ascending;
use crate::key_encoding::encode_i64_key_ascending;
use crate::key_encoding::encode_u128_key_ascending;
use crate::key_encoding::f64_from_order_key;
use crate::key_encoding::f64_order_key;
use crate::key_encoding::f64_to_order_key;
use crate::key_encoding::i64_from_order_key;
use crate::key_encoding::i64_order_key;
use crate::key_encoding::key_bytes;
use crate::key_encoding::key_id;
use crate::key_encoding::key_order_key;
use crate::key_encoding::lemma_pow256_values;
use crate::key_encoding::pow256;
use crate::key_encoding::ID_LEN;
use crate::key_encoding::WIDE_LEN;
use crate::key_encoding::WORD_LEN;
use crate::types::DateTimePayloadType;
use crate::types::FloatPayloadType;
use crate::types::KeyOrdering;
use crate::types::PointOffsetType;

verus! {

/// How two positions in a total order compare.
pub open spec fn key_ordering(a: nat, b: nat) -> KeyOrdering {
    if a < b {
        KeyOrdering::Less
    } else if a == b {
        KeyOrdering::Equal
    } else {
        KeyOrdering::Greater
    }
}

/// A scalar with an ascending key codec.
///
/// Every value has a position (`order_key`) in a total order; its key is
/// that position written big-endian in `value_len` bytes, followed by the
/// point id. Comparing encoded keys byte-wise therefore compares
/// `(position, id)` pairs.
pub trait Encodable: Copy {
    /// Position of the value in the codec's total order.
    spec fn order_key(&self) -> nat;

    /// The value that a key prefix spelling `key` decodes to.
    spec fn from_order_key(key: nat) -> Self;

    /// Width in bytes of the value part of a key.
    spec fn spec_value_len() -> nat;

    /// Every position fits the value part of a key.
    proof fn lemma_order_key_fits(&self)
        ensures
            0 < Self::spec_value_len() <= 16,
            self.order_key() < pow256(Self::spec_value_len()),
    ;

    fn value_len() -> (n: usize)
        ensures
            n == Self::spec_value_len(),
            0 < n <= 16,
    ;

    fn encode_key(&self, id: PointOffsetType) -> (key: Vec<u8>)
        ensures
            key@ == key_bytes(self.order_key(), Self::spec_value_len(), id),
            key@.len() == Self::spec_value_len() + ID_LEN,
    ;

    fn decode_key(key: &[u8]) -> (r: (PointOffsetType, Self))
        requires
            key@.len() == Self::spec_value_len() + ID_LEN,
        ensures
            r.0 as nat == key_id(key@, Self::spec_value_len()),
            r.1 == Self::from_order_key(key_order_key(key@, Self::spec_value_len())),
    ;

    fn cmp_encoded(&self, other: &Self) -> (o: KeyOrdering)
        ensures
            o == key_ordering(self.order_key(), other.order_key()),
    ;
}

impl Encodable for i64 {
    open spec fn order_key(&self) -> nat {
        i64_order_key(*self)
    }

    open spec fn from_order_key(key: nat) -> Self {
        i64_from_order_key(key)
    }

    open spec fn spec_value_len() -> nat {
        8
    }

    proof fn lemma_order_key_fits(&self) {
        lemma_pow256_values();
    }

    fn value_len() -> (n: usize) {
        WORD_LEN
    }

    fn encode_key(&self, id: PointOffsetType) -> (key: Vec<u8>) {
        encode_i64_key_ascending(*self, id)
    }

    fn decode_key(key: &[u8]) -> (r: (PointOffsetType, Self)) {
        decode_i64_key_ascending(key)
    }

    fn cmp_encoded(&self, other: &Self) -> (o: KeyOrdering) {
        if *self < *other {
            KeyOrdering::Less
        } else if *self == *other {
            KeyOrdering::Equal
        } else {
            KeyOrdering::Greater
        }
    }
}

impl Encodable for u128 {
    open spec fn order_key(&self) -> nat {
        *self as nat
    }

    open spec fn from_order_key(key: nat) -> Self {
        key as u128
    }

    open spec fn spec_value_len() -> nat {
        16
    }

    proof fn lemma_order_key_fits(&self) {
        lemma_pow256_values();
    }

    fn value_len() -> (n: usize) {
        WIDE_LEN
    }

    fn encode_key(&self, id: PointOffsetType) -> (key: Vec<u8>) {
        encode_u128_key_ascending(*self, id)
    }

    fn decode_key(key: &[u8]) -> (r: (PointOffsetType, Self)) {
        decode_u128_key_ascending(key)
    }

    fn cmp_encoded(&self, other: &Self) -> (o: KeyOrdering) {
        if *self < *other {
            KeyOrdering::Less
        } else if *self == *other {
            KeyOrdering::Equal
        } else {
            KeyOrdering::Greater
        }
    }
}

impl Encodable for FloatPayloadType {
    open spec fn order_key(&self) -> nat {
        f64_order_key(*self)
    }

    open spec fn from_order_key(key: nat) -> Self {
        f64_from_order_key(key)
    }

    open spec fn spec_value_len() -> nat {
        8
    }

    proof fn lemma_order_key_fits(&self) {
        lemma_pow256_values();
    }

    fn value_len() -> (n: usize) {
        WORD_LEN
    }

    fn encode_key(&self, id: PointOffsetType) -> (key: Vec<u8>) {
        encode_f64_key_ascending(*self, id)
    }

    fn decode_key(key: &[u8]) -> (r: (PointOffsetType, Self)) {
        decode_f64_key_ascending(key)
    }

    /// Every NaN equals every other NaN and sorts below everything else;
    /// all other values sort as their keys do.
    fn cmp_encoded(&self, other: &Self) -> (o: KeyOrdering) {
        let a: u64 = f64_to_order_key(*self);
        let b: u64 = f64_to_order_key(*other);
        if a < b {
            KeyOrdering::Less
        } else if a == b {
            KeyOrdering::Equal
        } else {
            KeyOrdering::Greater
        }
    }
}

/// The first second of the year 1, in seconds since the Unix epoch.
pub const FIRST_COMMON_SECOND: i64 = -62_135_596_800;

/// The last second of the year 9999, in seconds since the Unix epoch.
pub const LAST_COMMON_SECOND: i64 = 253_402_300_799;

/// What `chrono::DateTime::from_timestamp` makes of seconds and
/// nanoseconds since the Unix epoch, as microseconds since the epoch;
/// `None` where it rejects them.
pub uninterp spec fn chrono_timestamp_micros(secs: i64, nsecs: u32) -> Option<i64>;

/// Makes a date-time of seconds and nanoseconds since the Unix epoch and
/// gives its microseconds since the epoch.
///
/// Trusted: calls `chrono::DateTime::from_timestamp` and, where it
/// accepts the arguments, `chrono::DateTime::timestamp_micros`. The
/// contract names the result and adds two things: an accepted timestamp comes back as
/// the seconds and nanoseconds it was made of, and every second of the
/// years 1 to 9999 is accepted with less than a second of nanoseconds
/// (chrono's dates span the years -262143 to 262142, and it refuses
/// nanoseconds only from one second on). Beyond those years nothing is
/// claimed about which arguments are accepted.
#[verifier::external_body]
fn datetime_from_timestamp(secs: i64, nsecs: u32) -> (r: Option<i64>)
    ensures
        r == chrono_timestamp_micros(secs, nsecs),
        r matches Some(micros) ==> micros == secs * 1_000_000 + nsecs / 1000,
        FIRST_COMMON_SECOND <= secs <= LAST_COMMON_SECOND && nsecs < 1_000_000_000 ==> r.is_some(),
{
    match chrono::DateTime::from_timestamp(secs, nsecs) {
        Some(datetime) => Some(datetime.timestamp_micros()),
        None => None,
    }
}

/// The date-time that a stored timestamp decodes to. The timestamp is
/// split into a thousand parts: the whole thousands are taken as seconds
/// and the rest, a million-fold, as nanoseconds. Where the rest is
/// negative, or the date-time is out of range, the Unix epoch comes back.
pub open spec fn datetime_of_timestamp(timestamp: i64) -> DateTimePayloadType {
    if timestamp >= 0 {
        match chrono_timestamp_micros(
            (timestamp / 1000) as i64,
            ((timestamp % 1000) * 1_000_000) as u32,
        ) {
            Some(micros) => DateTimePayloadType { micros },
            None => DateTimePayloadType { micros: 0 },
        }
    } else if (-timestamp) % 1000 == 0 {
        match chrono_timestamp_micros((-((-timestamp) / 1000)) as i64, 0) {
            Some(micros) => DateTimePayloadType { micros },
            None => DateTimePayloadType { micros: 0 },
        }
    } else {
        DateTimePayloadType { micros: 0 }
    }
}

pub fn decode_datetime(timestamp: i64) -> (datetime: DateTimePayloadType)
    ensures
        datetime == datetime_of_timestamp(timestamp),
        timestamp >= 0 ==> datetime.micros == 0 || datetime.micros == (timestamp / 1000)
            * 1_000_000 + (timestamp % 1000) * 1000,
        timestamp < 0 && (-timestamp) % 1000 != 0 ==> datetime.micros == 0,
        timestamp < 0 && (-timestamp) % 1000 == 0 ==> datetime.micros == 0 || datetime.micros
            == timestamp * 1000,
        0 <= timestamp <= LAST_COMMON_SECOND * 1000 + 999 ==> datetime.micros == (timestamp
            / 1000) * 1_000_000 + (timestamp % 1000) * 1000,
        FIRST_COMMON_SECOND * 1000 <= timestamp < 0 && (-timestamp) % 1000 == 0
            ==> datetime.micros == timestamp * 1000,
{
    let parts = if timestamp >= 0 {
        Some((timestamp / 1000, (timestamp % 1000) as u32 * 1_000_000))
    } else {
        let magnitude: u64 = (-(timestamp + 1)) as u64 + 1;
        if magnitude % 1000 == 0 {
            Some((-((magnitude / 1000) as i64), 0u32))
        } else {
            None
        }
    };
    let micros = match parts {
        Some((secs, nsecs)) => datetime_from_timestamp(secs, nsecs),
        None => None,
    };
    datetime_or_epoch(micros)
}

/// The date-time of a timestamp, or the Unix epoch where there is none.
pub fn datetime_or_epoch(micros: Option<i64>) -> (datetime: DateTimePayloadType)
    ensures
        datetime.micros == match micros {
            Some(micros) => micros,
            None => 0,
        },
{
    match micros {
        Some(micros) => DateTimePayloadType { micros },
        None => DateTimePayloadType { micros: 0 },
    }
}

/// A date-time is encoded by its timestamp in microseconds, as a signed
/// integer is.
impl Encodable for DateTimePayloadType {
    open spec fn order_key(&self) -> nat {
        i64_order_key(self.micros)
    }

    open spec fn from_order_key(key: nat) -> Self {
        datetime_of_timestamp(i64_from_order_key(key))
    }

    open spec fn spec_value_len() -> nat {
        8
    }

    proof fn lemma_order_key_fits(&self) {
        lemma_pow256_values();
    }

    fn value_len() -> (n: usize) {
        WORD_LEN
    }

    fn encode_key(&self, id: PointOffsetType) -> (key: Vec<u8>) {
        encode_i64_key_ascending(self.timestamp(), id)
    }

    fn decode_key(key: &[u8]) -> (r: (PointOffsetType, Self)) {
        let (id, timestamp) = decode_i64_key_ascending(key);
        (id, decode_datetime(timestamp))
    }

    fn cmp_encoded(&self, other: &Self) -> (o: KeyOrdering) {
        self.timestamp().cmp_encoded(&other.timestamp())
    }
}

/// A scalar that an ordered store can hold: decoding the key of a value
/// gives a value at the same position in the order, and a 128-bit integer
/// can be taken as a value.
pub trait Numericable: Encodable {
    proof fn lemma_decode_keeps_position(&self)
        ensures
            Self::from_order_key(self.order_key()).order_key() == self.order_key(),
    ;

    /// The value that stands for a 128-bit integer.
    spec fn spec_from_u128(val: u128) -> Self;

    fn from_u128(val: u128) -> (v: Self)
        ensures
            v == Self::spec_from_u128(val),
    ;
}

impl Numericable for i64 {
    proof fn lemma_decode_keeps_position(&self) {
    }

    /// The low 64 bits, read as signed.
    open spec fn spec_from_u128(val: u128) -> Self {
        val as i64
    }

    fn from_u128(val: u128) -> (v: Self) {
        #[verifier::truncate]
        (val as i64)
    }
}

impl Numericable for u128 {
    proof fn lemma_decode_keeps_position(&self) {
    }

    open spec fn spec_from_u128(val: u128) -> Self {
        val
    }

    fn from_u128(val: u128) -> (v: Self) {
        val
    }
}

impl Numericable for FloatPayloadType {
    proof fn lemma_decode_keeps_position(&self) {
    }

    /// The float nearest to the integer.
    open spec fn spec_from_u128(val: u128) -> Self {
        FloatPayloadType { bits: crate::float_bits::f64_bits_of_nat(val as nat) as u64 }
    }

    fn from_u128(val: u128) -> (v: Self) {
        FloatPayloadType { bits: crate::float_bits::f64_bits_from_u128(val) }
    }
}

} // verus!
