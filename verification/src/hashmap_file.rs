//! The file of the value-to-points table.
//!
//! The file starts with three 64-bit numbers: how many entries it holds,
//! how many buckets, and the seed of the hash. The buckets follow, one
//! 64-bit number each: where the entry of the bucket starts in the
//! payload, or all ones for an empty bucket. The payload holds the
//! entries one after the other: the length of the key and the key, then
//! the number of point ids and the ids, lengths and ids as 32-bit numbers.
//! All numbers are big-endian.

use vstd::prelude::*;
use crate::byte_format::lemma_word_in_run;
use crate::byte_format::lemma_words_bytes_len;
use crate::byte_format::lemma_words_read_then_written;
use crate::byte_format::lemma_words_written_then_read;
use crate::byte_format::word_at;
use crate::byte_format::words_at;
use crate::byte_format::words_bytes;
use crate::byte_format::words_fit;
use crate::key_encoding::be_bytes;
use crate::key_encoding::be_value;
use crate::key_encoding::lemma_be_bytes_len;
use crate::key_encoding::lemma_be_bytes_of_value;
use crate::key_encoding::lemma_be_value_bound;
use crate::key_encoding::lemma_be_value_of_bytes;
use crate::key_encoding::lemma_pow256_values;
use crate::key_encoding::pow256;
use crate::mmap_hashmap::id_lists;
use crate::mmap_hashmap::MapIndexKey;
use crate::mmap_hashmap::MmapHashMap;
use crate::mmap_hashmap::EMPTY_BUCKET;
use crate::mmap_hashmap::HASH_SEED;
use crate::types::OperationError;
use crate::types::OperationResult;
use crate::types::PointOffsetType;

verus! {

/// Length of the file header.
pub const HEADER_LEN: usize = 24;

/// The word of an empty bucket.
pub const EMPTY_WORD: u64 = 0xffff_ffff_ffff_ffff;

/// An entry as the file holds it: the bytes of the key and the ids.
pub type RawEntry = (Seq<u8>, Seq<nat>);

pub open spec fn entry_fits(entry: RawEntry) -> bool {
    &&& entry.0.len() < 0x1_0000_0000
    &&& entry.1.len() < 0x1_0000_0000
    &&& words_fit(entry.1, 4)
}

/// The bytes of one entry.
pub open spec fn entry_bytes(entry: RawEntry) -> Seq<u8> {
    be_bytes(entry.0.len(), 4) + entry.0 + be_bytes(entry.1.len(), 4) + words_bytes(entry.1, 4)
}

/// The entry that starts at `at`, and where it ends; `None` if the bytes
/// end before the entry does.
pub open spec fn parse_entry(bytes: Seq<u8>, at: int) -> Option<(RawEntry, int)> {
    if at < 0 || at + 4 > bytes.len() {
        None
    } else {
        let key_len = word_at(bytes, at, 4);
        let ids_at = at + 4 + key_len;
        if ids_at + 4 > bytes.len() {
            None
        } else {
            let count = word_at(bytes, ids_at, 4);
            let end = ids_at + 4 + count * 4;
            if end > bytes.len() {
                None
            } else {
                Some(((bytes.subrange(at + 4, ids_at), words_at(bytes, ids_at + 4, count, 4)), end))
            }
        }
    }
}

/// The bytes of the entries, one after the other.
pub open spec fn payload_bytes(entries: Seq<RawEntry>) -> Seq<u8>
    decreases entries.len(),
{
    if entries.len() == 0 {
        Seq::empty()
    } else {
        payload_bytes(entries.drop_last()) + entry_bytes(entries.last())
    }
}

/// The `count` entries that start at `at`, and where they end.
pub open spec fn parse_entries(bytes: Seq<u8>, at: int, count: nat) -> Option<(Seq<RawEntry>, int)>
    decreases count,
{
    if count == 0 {
        Some((Seq::empty(), at))
    } else {
        match parse_entries(bytes, at, (count - 1) as nat) {
            None => None,
            Some((entries, next)) => match parse_entry(bytes, next) {
                None => None,
                Some((entry, end)) => Some((entries.push(entry), end)),
            },
        }
    }
}

/// What a file holds: its entries, its bucket words and its seed.
pub type RawFile = (Seq<RawEntry>, Seq<nat>, nat);

pub open spec fn file_fits(file: RawFile) -> bool {
    &&& file.0.len() < 0x1_0000_0000_0000_0000
    &&& file.1.len() < 0x1_0000_0000_0000_0000
    &&& file.2 < 0x1_0000_0000_0000_0000
    &&& words_fit(file.1, 8)
    &&& forall|e: int| 0 <= e < file.0.len() ==> entry_fits(#[trigger] file.0[e])
}

/// The bytes of a file.
pub open spec fn file_bytes(file: RawFile) -> Seq<u8> {
    be_bytes(file.0.len(), 8) + be_bytes(file.1.len(), 8) + be_bytes(file.2, 8) + words_bytes(
        file.1,
        8,
    ) + payload_bytes(file.0)
}

/// What the bytes of a file hold; `None` if they are not a file.
pub open spec fn parse_file(bytes: Seq<u8>) -> Option<RawFile> {
    if bytes.len() < 24 {
        None
    } else {
        let entries = word_at(bytes, 0, 8);
        let buckets = word_at(bytes, 8, 8);
        let seed = word_at(bytes, 16, 8);
        if 24 + buckets * 8 > bytes.len() {
            None
        } else {
            match parse_entries(bytes, (24 + buckets * 8) as int, entries) {
                Some((parsed, end)) => if end == bytes.len() {
                    Some((parsed, words_at(bytes, 24, buckets, 8), seed))
                } else {
                    None
                },
                None => None,
            }
        }
    }
}

pub proof fn lemma_entry_len(entry: RawEntry)
    ensures
        entry_bytes(entry).len() == 8 + entry.0.len() + 4 * entry.1.len(),
{
    lemma_be_bytes_len(entry.0.len(), 4);
    lemma_be_bytes_len(entry.1.len(), 4);
    lemma_words_bytes_len(entry.1, 4);
}

/// An entry that was written is read back as it was.
pub proof fn lemma_entry_written_then_read(before: Seq<u8>, entry: RawEntry, after: Seq<u8>)
    requires
        entry_fits(entry),
    ensures
        parse_entry(before + entry_bytes(entry) + after, before.len() as int) == Some(
            (entry, (before.len() + entry_bytes(entry).len()) as int),
        ),
{
    let bytes = before + entry_bytes(entry) + after;
    let at = before.len() as int;
    let key = entry.0;
    let ids = entry.1;
    lemma_entry_len(entry);
    lemma_pow256_values();
    lemma_be_bytes_len(key.len(), 4);
    lemma_be_bytes_len(ids.len(), 4);
    lemma_words_bytes_len(ids, 4);
    lemma_be_value_of_bytes(key.len(), 4);
    lemma_be_value_of_bytes(ids.len(), 4);
    assert(bytes.subrange(at, at + 4) =~= be_bytes(key.len(), 4));
    let ids_at = at + 4 + key.len();
    assert(bytes.subrange(ids_at, ids_at + 4) =~= be_bytes(ids.len(), 4));
    assert(bytes.subrange(at + 4, ids_at) =~= key);
    let head = before + be_bytes(key.len(), 4) + key + be_bytes(ids.len(), 4);
    assert(bytes =~= head + words_bytes(ids, 4) + after);
    lemma_words_written_then_read(head, ids, after, 4);
}

/// An entry that was read is written back as the bytes it was read from.
pub proof fn lemma_entry_read_then_written(bytes: Seq<u8>, at: int)
    requires
        parse_entry(bytes, at).is_some(),
    ensures
        at < parse_entry(bytes, at).unwrap().1 <= bytes.len(),
        bytes.subrange(at, parse_entry(bytes, at).unwrap().1) == entry_bytes(
            parse_entry(bytes, at).unwrap().0,
        ),
        entry_fits(parse_entry(bytes, at).unwrap().0),
{
    let (entry, end) = parse_entry(bytes, at).unwrap();
    let key_len = word_at(bytes, at, 4);
    let ids_at = at + 4 + key_len;
    let count = word_at(bytes, ids_at, 4);
    lemma_pow256_values();
    lemma_be_bytes_of_value(bytes.subrange(at, at + 4));
    lemma_be_value_bound(bytes.subrange(at, at + 4));
    lemma_be_bytes_of_value(bytes.subrange(ids_at, ids_at + 4));
    lemma_be_value_bound(bytes.subrange(ids_at, ids_at + 4));
    lemma_words_read_then_written(bytes, ids_at + 4, count, 4);
    assert(entry.0.len() == key_len);
    assert(entry.1.len() == count);
    assert(bytes.subrange(at, end) =~= bytes.subrange(at, at + 4) + bytes.subrange(at + 4, ids_at)
        + bytes.subrange(ids_at, ids_at + 4) + bytes.subrange(ids_at + 4, end));
}

/// Entries that were written are read back as they were.
#[verifier::rlimit(60)]
pub proof fn lemma_entries_written_then_read(
    before: Seq<u8>,
    entries: Seq<RawEntry>,
    after: Seq<u8>,
)
    requires
        forall|e: int| 0 <= e < entries.len() ==> entry_fits(#[trigger] entries[e]),
    ensures
        parse_entries(before + payload_bytes(entries) + after, before.len() as int, entries.len())
            == Some((entries, (before.len() + payload_bytes(entries).len()) as int)),
    decreases entries.len(),
{
    let bytes = before + payload_bytes(entries) + after;
    let at = before.len() as int;
    if entries.len() > 0 {
        let rest = entries.drop_last();
        let last = entries.last();
        let count = (entries.len() - 1) as nat;
        let next = (before.len() + payload_bytes(rest).len()) as int;
        let end = (before.len() + payload_bytes(entries).len()) as int;
        assert(entry_fits(last));
        assert(parse_entries(bytes, at, count) == Some((rest, next))) by {
            assert forall|e: int| 0 <= e < rest.len() implies entry_fits(#[trigger] rest[e]) by {
                assert(rest[e] == entries[e]);
            }
            lemma_entries_written_then_read(before, rest, entry_bytes(last) + after);
            assert(bytes =~= before + payload_bytes(rest) + (entry_bytes(last) + after));
        }
        assert(parse_entry(bytes, next) == Some((last, end))) by {
            lemma_entry_written_then_read(before + payload_bytes(rest), last, after);
            assert(bytes =~= (before + payload_bytes(rest)) + entry_bytes(last) + after);
        }
        assert(rest.push(last) =~= entries);
    }
}

/// Entries that were read are written back as the bytes they were read
/// from.
pub proof fn lemma_entries_read_then_written(bytes: Seq<u8>, at: int, count: nat)
    requires
        0 <= at <= bytes.len(),
        parse_entries(bytes, at, count).is_some(),
    ensures
        parse_entries(bytes, at, count).unwrap().0.len() == count,
        at + 8 * count <= parse_entries(bytes, at, count).unwrap().1 <= bytes.len(),
        bytes.subrange(at, parse_entries(bytes, at, count).unwrap().1) == payload_bytes(
            parse_entries(bytes, at, count).unwrap().0,
        ),
        forall|e: int|
            0 <= e < count ==> entry_fits(#[trigger] parse_entries(bytes, at, count).unwrap().0[e]),
    decreases count,
{
    if count == 0 {
        assert(bytes.subrange(at, at) =~= Seq::<u8>::empty());
    } else {
        let (rest, next) = parse_entries(bytes, at, (count - 1) as nat).unwrap();
        lemma_entries_read_then_written(bytes, at, (count - 1) as nat);
        lemma_entry_read_then_written(bytes, next);
        let (entry, end) = parse_entry(bytes, next).unwrap();
        let all = rest.push(entry);
        assert(all.drop_last() =~= rest);
        assert(bytes.subrange(at, end) =~= bytes.subrange(at, next) + bytes.subrange(next, end));
        assert forall|e: int| 0 <= e < count implies entry_fits(#[trigger] all[e]) by {
            if e < count - 1 {
                assert(all[e] == rest[e]);
            }
        }
    }
}

pub proof fn lemma_file_len(file: RawFile)
    ensures
        file_bytes(file).len() == 24 + 8 * file.1.len() + payload_bytes(file.0).len(),
{
    lemma_be_bytes_len(file.0.len(), 8);
    lemma_be_bytes_len(file.1.len(), 8);
    lemma_be_bytes_len(file.2, 8);
    lemma_words_bytes_len(file.1, 8);
}

/// A file that was written is read back as it was.
pub proof fn lemma_file_written_then_read(file: RawFile)
    requires
        file_fits(file),
    ensures
        parse_file(file_bytes(file)) == Some(file),
{
    let bytes = file_bytes(file);
    let header = be_bytes(file.0.len(), 8) + be_bytes(file.1.len(), 8) + be_bytes(file.2, 8);
    lemma_file_len(file);
    lemma_pow256_values();
    lemma_be_bytes_len(file.0.len(), 8);
    lemma_be_bytes_len(file.1.len(), 8);
    lemma_be_bytes_len(file.2, 8);
    lemma_words_bytes_len(file.1, 8);
    lemma_be_value_of_bytes(file.0.len(), 8);
    lemma_be_value_of_bytes(file.1.len(), 8);
    lemma_be_value_of_bytes(file.2, 8);
    assert(bytes.subrange(0, 8) =~= be_bytes(file.0.len(), 8));
    assert(bytes.subrange(8, 16) =~= be_bytes(file.1.len(), 8));
    assert(bytes.subrange(16, 24) =~= be_bytes(file.2, 8));
    lemma_words_written_then_read(header, file.1, payload_bytes(file.0), 8);
    assert(bytes =~= header + words_bytes(file.1, 8) + payload_bytes(file.0));
    lemma_entries_written_then_read(header + words_bytes(file.1, 8), file.0, Seq::empty());
    assert(bytes =~= (header + words_bytes(file.1, 8)) + payload_bytes(file.0) + Seq::<u8>::empty());
}

/// A file that was read is written back as the bytes it was read from.
pub proof fn lemma_file_read_then_written(bytes: Seq<u8>)
    requires
        parse_file(bytes).is_some(),
    ensures
        file_bytes(parse_file(bytes).unwrap()) == bytes,
        file_fits(parse_file(bytes).unwrap()),
{
    let file = parse_file(bytes).unwrap();
    let entries = word_at(bytes, 0, 8);
    let buckets = word_at(bytes, 8, 8);
    lemma_pow256_values();
    lemma_be_bytes_of_value(bytes.subrange(0, 8));
    lemma_be_bytes_of_value(bytes.subrange(8, 16));
    lemma_be_bytes_of_value(bytes.subrange(16, 24));
    lemma_be_value_bound(bytes.subrange(0, 8));
    lemma_be_value_bound(bytes.subrange(8, 16));
    lemma_be_value_bound(bytes.subrange(16, 24));
    lemma_words_read_then_written(bytes, 24, buckets, 8);
    lemma_entries_read_then_written(bytes, (24 + buckets * 8) as int, entries);
    assert(bytes =~= bytes.subrange(0, 8) + bytes.subrange(8, 16) + bytes.subrange(16, 24)
        + bytes.subrange(24, (24 + buckets * 8) as int) + bytes.subrange(
        (24 + buckets * 8) as int,
        bytes.len() as int,
    ));
}

/// Entries that cannot be read cannot be read with more entries after
/// them.
pub proof fn lemma_entries_fail_for_more(bytes: Seq<u8>, at: int, fewer: nat, count: nat)
    requires
        fewer <= count,
        parse_entries(bytes, at, fewer).is_none(),
    ensures
        parse_entries(bytes, at, count).is_none(),
    decreases count,
{
    if count > fewer {
        lemma_entries_fail_for_more(bytes, at, fewer, (count - 1) as nat);
    }
}

/// The ids of an entry as the file holds them.
pub open spec fn raw_ids(ids: Seq<u32>) -> Seq<nat> {
    ids.map_values(|id: u32| id as nat)
}

/// The contents of a table file, in memory.
pub struct TableFile {
    pub keys: Vec<Vec<u8>>,
    pub ids: Vec<Vec<u32>>,
    pub buckets: Vec<u64>,
    pub seed: u64,
}

impl TableFile {
    pub open spec fn entries(&self) -> Seq<RawEntry> {
        Seq::new(self.keys@.len(), |e: int| (self.keys@[e]@, raw_ids(self.ids@[e]@)))
    }

    pub open spec fn view(&self) -> RawFile {
        (self.entries(), self.buckets@.map_values(|w: u64| w as nat), self.seed as nat)
    }

    /// Whether the contents can be written: every key has its ids, and
    /// every length fits the 32 bits the file gives it.
    pub open spec fn fits(&self) -> bool {
        &&& self.keys@.len() == self.ids@.len()
        &&& self.keys@.len() <= usize::MAX
        &&& self.buckets@.len() <= usize::MAX
        &&& forall|e: int|
            0 <= e < self.keys@.len() ==> (#[trigger] self.keys@[e])@.len() < 0x1_0000_0000
                && self.ids@[e]@.len() < 0x1_0000_0000
    }

    /// The bytes of the file; `None` if a length does not fit.
    pub fn write(&self) -> (r: Option<Vec<u8>>)
        ensures
            r.is_some() <==> self.fits(),
            r matches Some(bytes) ==> bytes@ == file_bytes(self@),
    {
        if self.keys.len() != self.ids.len() {
            return None;
        }
        let mut out: Vec<u8> = Vec::new();
        crate::key_encoding::push_be(&mut out, self.keys.len() as u128, 8);
        crate::key_encoding::push_be(&mut out, self.buckets.len() as u128, 8);
        crate::key_encoding::push_be(&mut out, self.seed as u128, 8);
        let ghost header = out@;
        let ghost words = self.buckets@.map_values(|w: u64| w as nat);
        let mut b: usize = 0;
        assert(out@ =~= header + words_bytes(words.take(0), 8));
        while b < self.buckets.len()
            invariant
                b <= self.buckets@.len(),
                words == self.buckets@.map_values(|w: u64| w as nat),
                out@ == header + words_bytes(words.take(b as int), 8),
            decreases self.buckets.len() - b,
        {
            crate::key_encoding::push_be(&mut out, self.buckets[b] as u128, 8);
            proof {
                assert(words.take(b + 1).drop_last() =~= words.take(b as int));
                assert(words.take(b + 1).last() == self.buckets@[b as int] as nat);
                assert(out@ =~= header + words_bytes(words.take(b + 1), 8));
            }
            b = b + 1;
        }
        assert(words.take(self.buckets@.len() as int) =~= words);
        let ghost top = out@;
        let ghost entries = self.entries();
        let mut e: usize = 0;
        assert(out@ =~= top + payload_bytes(entries.take(0)));
        while e < self.keys.len()
            invariant
                e <= self.keys@.len(),
                self.keys@.len() == self.ids@.len(),
                entries == self.entries(),
                out@ == top + payload_bytes(entries.take(e as int)),
                forall|j: int|
                    0 <= j < e ==> (#[trigger] self.keys@[j])@.len() < 0x1_0000_0000
                        && self.ids@[j]@.len() < 0x1_0000_0000,
            decreases self.keys.len() - e,
        {
            let key = &self.keys[e];
            let ids = &self.ids[e];
            if key.len() > 0xffff_ffff || ids.len() > 0xffff_ffff {
                return None;
            }
            let ghost before = out@;
            crate::key_encoding::push_be(&mut out, key.len() as u128, 4);
            append(&mut out, key);
            crate::key_encoding::push_be(&mut out, ids.len() as u128, 4);
            crate::byte_format::push_u32s(&mut out, ids);
            proof {
                assert(entries.take(e + 1).drop_last() =~= entries.take(e as int));
                assert(entries.take(e + 1).last() == entries[e as int]);
                assert(out@ =~= before + entry_bytes(entries[e as int]));
            }
            e = e + 1;
        }
        assert(entries.take(self.keys@.len() as int) =~= entries);
        assert(out@ =~= file_bytes(self@));
        Some(out)
    }

    /// The contents of a file; `None` if the bytes are not a file.
    pub fn read(bytes: &[u8]) -> (r: Option<TableFile>)
        ensures
            r.is_some() <==> parse_file(bytes@).is_some(),
            r matches Some(file) ==> file@ == parse_file(bytes@).unwrap() && file.fits(),
    {
        let len: usize = bytes.len();
        if len < HEADER_LEN {
            return None;
        }
        let entry_count: u128 = crate::key_encoding::read_be(bytes, 0, 8);
        let bucket_count: u128 = crate::key_encoding::read_be(bytes, 8, 8);
        let seed: u128 = crate::key_encoding::read_be(bytes, 16, 8);
        proof {
            lemma_pow256_values();
            lemma_be_value_bound(bytes@.subrange(0, 8));
            lemma_be_value_bound(bytes@.subrange(8, 16));
            lemma_be_value_bound(bytes@.subrange(16, 24));
        }
        if bucket_count > ((len - HEADER_LEN) / 8) as u128 {
            return None;
        }
        let bucket_count: usize = bucket_count as usize;
        let payload_at: usize = HEADER_LEN + bucket_count * 8;
        if entry_count > ((len - payload_at) / 8) as u128 {
            proof {
                if parse_entries(bytes@, payload_at as int, entry_count as nat).is_some() {
                    lemma_entries_read_then_written(bytes@, payload_at as int, entry_count as nat);
                }
            }
            return None;
        }
        let entry_count: usize = entry_count as usize;
        let mut buckets: Vec<u64> = Vec::new();
        let mut b: usize = 0;
        while b < bucket_count
            invariant
                b <= bucket_count,
                HEADER_LEN + bucket_count * 8 <= bytes@.len(),
                bytes@.len() == bytes.len(),
                buckets@.len() == b,
                forall|i: int|
                    0 <= i < b ==> #[trigger] buckets@[i] as nat == word_at(bytes@, 24 + i * 8, 8),
            decreases bucket_count - b,
        {
            let word: u128 = crate::key_encoding::read_be(bytes, HEADER_LEN + b * 8, 8);
            proof {
                lemma_pow256_values();
                lemma_be_value_bound(bytes@.subrange(24 + b * 8, 24 + b * 8 + 8));
            }
            buckets.push(word as u64);
            b = b + 1;
        }
        assert(buckets@.map_values(|w: u64| w as nat) =~= words_at(
            bytes@,
            24,
            bucket_count as nat,
            8,
        ));
        let mut keys: Vec<Vec<u8>> = Vec::new();
        let mut ids: Vec<Vec<u32>> = Vec::new();
        let mut at: usize = payload_at;
        let mut e: usize = 0;
        let ghost mut parsed: Seq<RawEntry> = Seq::empty();
        while e < entry_count
            invariant
                e <= entry_count,
                payload_at <= at <= len,
                len == bytes@.len(),
                len == bytes.len(),
                len >= 24,
                entry_count as nat == word_at(bytes@, 0, 8),
                bucket_count as nat == word_at(bytes@, 8, 8),
                payload_at == 24 + bucket_count * 8,
                keys@.len() == e,
                ids@.len() == e,
                parse_entries(bytes@, payload_at as int, e as nat) == Some((parsed, at as int)),
                parsed.len() == e,
                forall|j: int|
                    0 <= j < e ==> parsed[j] == ((#[trigger] keys@[j])@, raw_ids(ids@[j]@)),
                forall|j: int|
                    0 <= j < e ==> (#[trigger] keys@[j])@.len() < 0x1_0000_0000 && ids@[j]@.len()
                        < 0x1_0000_0000,
            decreases entry_count - e,
        {
            proof {
                lemma_pow256_values();
            }
            if len - at < 4 {
                proof {
                    assert(parse_entry(bytes@, at as int).is_none());
                    assert(parse_entries(bytes@, payload_at as int, (e + 1) as nat).is_none());
                    lemma_entries_fail_for_more(
                        bytes@,
                        payload_at as int,
                        (e + 1) as nat,
                        entry_count as nat,
                    );
                }
                return None;
            }
            let key_len: u128 = crate::key_encoding::read_be(bytes, at, 4);
            proof {
                lemma_be_value_bound(bytes@.subrange(at as int, at + 4));
            }
            if key_len > (len - at - 4) as u128 || (len - at - 4) as u128 - key_len < 4 {
                proof {
                    assert(parse_entry(bytes@, at as int).is_none());
                    assert(parse_entries(bytes@, payload_at as int, (e + 1) as nat).is_none());
                    lemma_entries_fail_for_more(
                        bytes@,
                        payload_at as int,
                        (e + 1) as nat,
                        entry_count as nat,
                    );
                }
                return None;
            }
            let key_len: usize = key_len as usize;
            let ids_at: usize = at + 4 + key_len;
            let count: u128 = crate::key_encoding::read_be(bytes, ids_at, 4);
            proof {
                lemma_be_value_bound(bytes@.subrange(ids_at as int, ids_at + 4));
            }
            if count > ((len - ids_at - 4) / 4) as u128 {
                proof {
                    assert(parse_entry(bytes@, at as int).is_none());
                    assert(parse_entries(bytes@, payload_at as int, (e + 1) as nat).is_none());
                    lemma_entries_fail_for_more(
                        bytes@,
                        payload_at as int,
                        (e + 1) as nat,
                        entry_count as nat,
                    );
                }
                return None;
            }
            let count: usize = count as usize;
            let end: usize = ids_at + 4 + count * 4;
            let key = vstd::slice::slice_to_vec(vstd::slice::slice_subrange(bytes, at + 4, ids_at));
            let entry_ids = crate::byte_format::read_u32s(bytes, ids_at + 4, count);
            proof {
                let entry: RawEntry = (key@, raw_ids(entry_ids@));
                assert(parse_entry(bytes@, at as int) == Some((entry, end as int)));
                parsed = parsed.push(entry);
            }
            keys.push(key);
            ids.push(entry_ids);
            at = end;
            e = e + 1;
        }
        if at != len {
            return None;
        }
        let file = TableFile { keys, ids, buckets, seed: seed as u64 };
        assert(file.entries() =~= parsed);
        Some(file)
    }
}

fn append(out: &mut Vec<u8>, src: &Vec<u8>)
    ensures
        final(out)@ == old(out)@ + src@,
{
    let mut k: usize = 0;
    assert(out@ =~= old(out)@ + src@.take(0));
    while k < src.len()
        invariant
            k <= src.len(),
            out@ == old(out)@ + src@.take(k as int),
        decreases src.len() - k,
    {
        out.push(src[k]);
        assert(out@ =~= old(out)@ + src@.take(k + 1));
        k = k + 1;
    }
    assert(src@.take(src.len() as int) =~= src@);
}

/// The entries of a table as its file holds them.
pub open spec fn table_entries<K: MapIndexKey>(
    keys: Seq<K>,
    values: Seq<Seq<PointOffsetType>>,
) -> Seq<RawEntry> {
    Seq::new(keys.len(), |e: int| (keys[e].key_bytes(), raw_ids(values[e])))
}

/// Where entry `e` starts in the payload.
pub open spec fn offset_of(entries: Seq<RawEntry>, e: int) -> nat {
    payload_bytes(entries.take(e)).len()
}

/// The bucket words of a table: the offset of the entry of every bucket,
/// or the word of an empty bucket.
pub open spec fn table_words(entries: Seq<RawEntry>, buckets: Seq<usize>) -> Seq<nat> {
    Seq::new(
        buckets.len(),
        |b: int|
            if buckets[b] == EMPTY_BUCKET {
                EMPTY_WORD as nat
            } else {
                offset_of(entries, buckets[b] as int)
            },
    )
}

pub proof fn lemma_offset_step(entries: Seq<RawEntry>, e: int)
    requires
        0 <= e < entries.len(),
    ensures
        offset_of(entries, e + 1) == offset_of(entries, e) + 8 + entries[e].0.len() + 4
            * entries[e].1.len(),
        offset_of(entries, 0) == 0,
{
    assert(entries.take(e + 1).drop_last() =~= entries.take(e));
    assert(entries.take(e + 1).last() == entries[e]);
    lemma_entry_len(entries[e]);
    assert(entries.take(0) =~= Seq::<RawEntry>::empty());
}

pub proof fn lemma_offset_grows(entries: Seq<RawEntry>, e: int, later: int)
    requires
        0 <= e <= later <= entries.len(),
    ensures
        offset_of(entries, e) <= offset_of(entries, later),
    decreases later - e,
{
    if e < later {
        lemma_offset_step(entries, later - 1);
        lemma_offset_grows(entries, e, later - 1);
    }
}

/// Where every entry starts in the payload, and where the payload ends;
/// `None` if the payload is longer than a bucket word can say.
pub fn entry_offsets(keys: &Vec<Vec<u8>>, ids: &Vec<Vec<u32>>) -> (r: Option<Vec<u64>>)
    requires
        keys@.len() == ids@.len(),
        forall|e: int|
            0 <= e < keys@.len() ==> (#[trigger] keys@[e])@.len() < 0x1_0000_0000 && ids@[e]@.len()
                < 0x1_0000_0000,
    ensures
        ({
            let entries = Seq::new(keys@.len(), |e: int| (keys@[e]@, raw_ids(ids@[e]@)));
            &&& r.is_some() <==> payload_bytes(entries).len() < EMPTY_WORD
            &&& r matches Some(offsets) ==> offsets@.len() == keys@.len() + 1 && forall|e: int|
                0 <= e <= keys@.len() ==> #[trigger] offsets@[e] as nat == offset_of(entries, e)
        }),
{
    let ghost entries = Seq::new(keys@.len(), |e: int| (keys@[e]@, raw_ids(ids@[e]@)));
    let mut offsets: Vec<u64> = Vec::new();
    let mut at: u64 = 0;
    let mut e: usize = 0;
    proof {
        assert(entries.take(0) =~= Seq::<RawEntry>::empty());
        assert(entries.take(entries.len() as int) =~= entries);
    }
    offsets.push(0);
    while e < keys.len()
        invariant
            e <= keys@.len(),
            keys@.len() == ids@.len(),
            entries == Seq::new(keys@.len(), |e: int| (keys@[e]@, raw_ids(ids@[e]@))),
            forall|j: int|
                0 <= j < keys@.len() ==> (#[trigger] keys@[j])@.len() < 0x1_0000_0000
                    && ids@[j]@.len() < 0x1_0000_0000,
            at as nat == offset_of(entries, e as int),
            at < EMPTY_WORD,
            offsets@.len() == e + 1,
            forall|j: int| 0 <= j <= e ==> #[trigger] offsets@[j] as nat == offset_of(entries, j),
        decreases keys.len() - e,
    {
        proof {
            lemma_offset_step(entries, e as int);
            assert(keys@[e as int]@.len() < 0x1_0000_0000);
        }
        let size: u64 = 8 + keys[e].len() as u64 + 4 * (ids[e].len() as u64);
        if size >= EMPTY_WORD - at {
            proof {
                lemma_offset_grows(entries, e + 1, entries.len() as int);
                assert(entries.take(entries.len() as int) =~= entries);
            }
            return None;
        }
        at = at + size;
        offsets.push(at);
        e = e + 1;
    }
    assert(entries.take(entries.len() as int) =~= entries);
    Some(offsets)
}

impl<K: MapIndexKey> MmapHashMap<K> {
    /// What the file of the table holds.
    pub open spec fn raw_file(&self) -> RawFile {
        (
            table_entries(self.keys(), self.values()),
            table_words(table_entries(self.keys(), self.values()), self.buckets()),
            self.seed() as nat,
        )
    }

    /// The bytes of the file of the table.
    pub open spec fn file(&self) -> Seq<u8> {
        file_bytes(self.raw_file())
    }

    /// Whether the table can be written: every length fits the 32 bits
    /// the file gives it, and every offset a bucket word.
    pub open spec fn fits_file(&self) -> bool {
        &&& forall|e: int|
            0 <= e < self.keys().len() ==> (#[trigger] self.keys()[e]).key_bytes().len()
                < 0x1_0000_0000 && self.values()[e].len() < 0x1_0000_0000
        &&& payload_bytes(table_entries(self.keys(), self.values())).len() < EMPTY_WORD
    }

    /// Whether the table is one that `create` makes: well-formed, with
    /// the fixed seed and twice as many buckets as keys and one more.
    pub open spec fn is_standard(&self) -> bool {
        &&& self.wf()
        &&& self.seed() == HASH_SEED
        &&& self.buckets().len() == 2 * self.keys().len() + 1
        &&& 2 * self.keys().len() + 1 <= usize::MAX
    }

    /// The file of a table that can be written is read back as what the
    /// table holds.
    pub proof fn lemma_file_is_read_back(&self)
        requires
            self.is_standard(),
            self.fits_file(),
        ensures
            file_fits(self.raw_file()),
            parse_file(self.file()) == Some(self.raw_file()),
    {
        self.lemma_wf();
        let entries = table_entries(self.keys(), self.values());
        let words = table_words(entries, self.buckets());
        lemma_pow256_values();
        assert(entries.take(entries.len() as int) =~= entries);
        assert forall|b: int| 0 <= b < words.len() implies #[trigger] words[b] < pow256(8) by {
            self.lemma_buckets_in_range(b);
            if self.buckets()[b] != EMPTY_BUCKET {
                lemma_offset_grows(entries, self.buckets()[b] as int, entries.len() as int);
            }
        }
        assert forall|e: int| 0 <= e < entries.len() implies entry_fits(#[trigger] entries[e]) by {
            assert(self.keys()[e].key_bytes().len() < 0x1_0000_0000);
            assert forall|i: int| 0 <= i < entries[e].1.len() implies #[trigger] entries[e].1[i]
                < pow256(4) by {}
        }
        assert(usize::MAX <= 0xffff_ffff_ffff_ffff) by {
            vstd::layout::unsigned_int_max_values();
        }
        lemma_file_written_then_read(self.raw_file());
    }

    /// The bytes of the file of the table; `None` if the table cannot be
    /// written.
    pub fn to_bytes(&self) -> (r: Option<Vec<u8>>)
        requires
            self.wf(),
        ensures
            r.is_some() <==> self.fits_file(),
            r matches Some(bytes) ==> bytes@ == self.file(),
    {
        proof {
            self.lemma_wf();
        }
        let n: usize = self.keys_count();
        let ghost entries = table_entries(self.keys(), self.values());
        let mut keys: Vec<Vec<u8>> = Vec::new();
        let mut ids: Vec<Vec<u32>> = Vec::new();
        let mut e: usize = 0;
        while e < n
            invariant
                e <= n,
                n == self.keys().len(),
                n == self.values().len(),
                self.wf(),
                entries == table_entries(self.keys(), self.values()),
                keys@.len() == e,
                ids@.len() == e,
                forall|j: int|
                    0 <= j < e ==> (#[trigger] keys@[j])@ == self.keys()[j].key_bytes() && ids@[j]@
                        == self.values()[j],
                forall|j: int|
                    0 <= j < e ==> (#[trigger] keys@[j])@.len() < 0x1_0000_0000 && ids@[j]@.len()
                        < 0x1_0000_0000,
            decreases n - e,
        {
            let key = self.key_at(e).write_bytes();
            let list = self.values_at(e);
            if key.len() > 0xffff_ffff || list.len() > 0xffff_ffff {
                assert(self.keys()[e as int].key_bytes().len() >= 0x1_0000_0000
                    || self.values()[e as int].len() >= 0x1_0000_0000);
                return None;
            }
            let mut copy: Vec<u32> = Vec::new();
            let mut k: usize = 0;
            while k < list.len()
                invariant
                    k <= list.len(),
                    copy@ == list@.take(k as int),
                decreases list.len() - k,
            {
                copy.push(list[k]);
                assert(copy@ =~= list@.take(k + 1));
                k = k + 1;
            }
            assert(list@.take(list.len() as int) =~= list@);
            keys.push(key);
            ids.push(copy);
            e = e + 1;
        }
        let ghost held = Seq::new(keys@.len(), |e: int| (keys@[e]@, raw_ids(ids@[e]@)));
        assert(held =~= entries);
        proof {
            assert forall|e: int| 0 <= e < self.keys().len() implies (
            #[trigger] self.keys()[e]).key_bytes().len() < 0x1_0000_0000 && self.values()[e].len()
                < 0x1_0000_0000 by {
                assert(keys@[e]@ == self.keys()[e].key_bytes());
            }
        }
        let offsets = match entry_offsets(&keys, &ids) {
            Some(offsets) => offsets,
            None => {
                return None;
            },
        };
        let m: usize = self.buckets_count();
        let mut buckets: Vec<u64> = Vec::new();
        let mut b: usize = 0;
        while b < m
            invariant
                b <= m,
                m == self.buckets().len(),
                self.wf(),
                n == self.keys().len(),
                offsets@.len() == n + 1,
                forall|e: int|
                    0 <= e <= n ==> #[trigger] offsets@[e] as nat == offset_of(entries, e),
                buckets@.len() == b,
                forall|i: int|
                    0 <= i < b ==> #[trigger] buckets@[i] as nat == table_words(
                        entries,
                        self.buckets(),
                    )[i],
            decreases m - b,
        {
            let entry: usize = self.bucket(b);
            let word: u64 = if entry == EMPTY_BUCKET {
                EMPTY_WORD
            } else {
                offsets[entry]
            };
            buckets.push(word);
            b = b + 1;
        }
        let file = TableFile { keys, ids, buckets, seed: self.hash_seed() };
        proof {
            assert(file.entries() =~= entries);
            assert(file@.1 =~= table_words(entries, self.buckets()));
            assert(file@ == self.raw_file());
            assert(file.fits());
            assert(self.fits_file()) by {
                assert forall|e: int| 0 <= e < self.keys().len() implies (
                #[trigger] self.keys()[e]).key_bytes().len() < 0x1_0000_0000
                    && self.values()[e].len() < 0x1_0000_0000 by {
                    assert(file.keys@[e]@ == self.keys()[e].key_bytes());
                }
            }
        }
        file.write()
    }

    /// Opens the table that a file holds. Fails unless the bytes are the
    /// file of a table that `create` makes.
    pub fn from_bytes(bytes: &[u8]) -> (r: OperationResult<Self>)
        ensures
            r matches Ok(table) ==> table.is_standard() && table.fits_file() && table.file()
                == bytes@,
            r.is_err() ==> forall|table: MmapHashMap<K>|
                table.is_standard() && table.fits_file() ==> #[trigger] table.file() != bytes@,
    {
        let file = match TableFile::read(bytes) {
            Some(file) => file,
            None => {
                proof {
                    assert forall|table: MmapHashMap<K>|
                        table.is_standard() && table.fits_file() implies #[trigger] table.file()
                        != bytes@ by {
                        table.lemma_file_is_read_back();
                    }
                }
                return Err(OperationError::corruption("table file is cut short or overlong"));
            },
        };
        let ghost raw = file@;
        proof {
            lemma_file_read_then_written(bytes@);
            assert forall|table: MmapHashMap<K>|
                table.is_standard() && table.fits_file() && #[trigger] table.file()
                    == bytes@ implies table.raw_file() == raw by {
                table.lemma_file_is_read_back();
            }
        }
        let n: usize = file.keys.len();
        if file.seed != HASH_SEED || n > (usize::MAX - 1) / 2 || file.buckets.len() != 2 * n + 1 {
            proof {
                assert forall|table: MmapHashMap<K>|
                    table.is_standard() && table.fits_file() implies #[trigger] table.file()
                    != bytes@ by {
                    if table.file() == bytes@ {
                        assert(table.raw_file() == raw);
                        assert(table.raw_file().0.len() == table.keys().len());
                        assert(table.raw_file().1.len() == table.buckets().len());
                    }
                }
            }
            return Err(OperationError::corruption("table file has the wrong seed or size"));
        }
        let offsets = match entry_offsets(&file.keys, &file.ids) {
            Some(offsets) => offsets,
            None => {
                proof {
                    lemma_entries_read_then_written(
                        bytes@,
                        (24 + word_at(bytes@, 8, 8) * 8) as int,
                        word_at(bytes@, 0, 8),
                    );
                    assert(file.entries() =~= Seq::new(
                        file.keys@.len(),
                        |e: int| (file.keys@[e]@, raw_ids(file.ids@[e]@)),
                    ));
                    assert(usize::MAX <= 0xffff_ffff_ffff_ffff) by {
                        vstd::layout::unsigned_int_max_values();
                    }
                }
                return Err(OperationError::corruption("table file is too long"));
            },
        };
        let mut keys: Vec<K> = Vec::new();
        let mut values: Vec<Vec<PointOffsetType>> = Vec::new();
        let mut e: usize = 0;
        while e < n
            invariant
                e <= n,
                n == file.keys@.len(),
                n == file.ids@.len(),
                raw == file@,
                keys@.len() == e,
                values@.len() == e,
                forall|j: int|
                    0 <= j < e ==> (#[trigger] keys@[j]).key_bytes() == file.keys@[j]@ && values@[j]@
                        == file.ids@[j]@,
                forall|table: MmapHashMap<K>|
                    table.is_standard() && table.fits_file() && #[trigger] table.file()
                        == bytes@ ==> table.raw_file() == raw,
            decreases n - e,
        {
            let mut key_bytes: Vec<u8> = Vec::new();
            append(&mut key_bytes, &file.keys[e]);
            assert(key_bytes@ =~= file.keys@[e as int]@);
            let key = match K::from_key_bytes(key_bytes) {
                Some(key) => key,
                None => {
                    proof {
                        assert forall|table: MmapHashMap<K>|
                            table.is_standard() && table.fits_file() implies #[trigger] table.file()
                            != bytes@ by {
                            if table.file() == bytes@ {
                                assert(table.raw_file() == raw);
                                assert(raw.0[e as int].0 == file.keys@[e as int]@);
                                assert(table.raw_file().0[e as int].0
                                    == table.keys()[e as int].key_bytes());
                                table.keys()[e as int].lemma_key_bytes_spell_a_key();
                            }
                        }
                    }
                    return Err(OperationError::corruption("table file holds bytes that are no key"));
                },
            };
            let list = &file.ids[e];
            let mut copy: Vec<u32> = Vec::new();
            let mut k: usize = 0;
            while k < list.len()
                invariant
                    k <= list.len(),
                    copy@ == list@.take(k as int),
                decreases list.len() - k,
            {
                copy.push(list[k]);
                assert(copy@ =~= list@.take(k + 1));
                k = k + 1;
            }
            assert(list@.take(list.len() as int) =~= list@);
            let ghost keys_before = keys@;
            let ghost values_before = values@;
            keys.push(key);
            values.push(copy);
            proof {
                assert forall|j: int| 0 <= j < e + 1 implies (#[trigger] keys@[j]).key_bytes()
                    == file.keys@[j]@ && values@[j]@ == file.ids@[j]@ by {
                    if j < e {
                        assert(keys@[j] == keys_before[j]);
                        assert(values@[j] == values_before[j]);
                    }
                }
            }
            e = e + 1;
        }
        let ghost parsed_keys = keys@;
        let ghost parsed_values = id_lists(values@);
        let table = match MmapHashMap::create(keys, values) {
            Ok(table) => table,
            Err(e) => {
                proof {
                    assert forall|other: MmapHashMap<K>|
                        other.is_standard() && other.fits_file() implies #[trigger] other.file()
                        != bytes@ by {
                        if other.file() == bytes@ {
                            other.lemma_wf();
                            assert(other.raw_file() == raw);
                            assert forall|i: int, j: int|
                                0 <= i < j < parsed_keys.len() implies (
                            #[trigger] parsed_keys[i]).key_bytes() != (
                            #[trigger] parsed_keys[j]).key_bytes() by {
                                assert(raw.0[i].0 == other.keys()[i].key_bytes());
                                assert(raw.0[j].0 == other.keys()[j].key_bytes());
                                assert(raw.0[i].0 == file.keys@[i]@);
                                assert(raw.0[j].0 == file.keys@[j]@);
                            }
                        }
                    }
                }
                return Err(e);
            },
        };
        let ghost entries = table_entries(table.keys(), table.values());
        proof {
            table.lemma_wf();
            assert(entries =~= raw.0) by {
                assert forall|j: int| 0 <= j < n implies entries[j] == raw.0[j] by {
                    assert(parsed_keys[j].key_bytes() == file.keys@[j]@);
                    assert(parsed_values[j] == file.ids@[j]@);
                }
            }
            assert(file.entries() =~= Seq::new(
                file.keys@.len(),
                |e: int| (file.keys@[e]@, raw_ids(file.ids@[e]@)),
            ));
        }
        let m: usize = table.buckets_count();
        let mut b: usize = 0;
        while b < m
            invariant
                b <= m,
                m == table.buckets().len(),
                m == file.buckets@.len(),
                table.wf(),
                n == table.keys().len(),
                raw == file@,
                entries == raw.0,
                entries == table_entries(table.keys(), table.values()),
                offsets@.len() == n + 1,
                forall|e: int|
                    0 <= e <= n ==> #[trigger] offsets@[e] as nat == offset_of(entries, e),
                forall|i: int|
                    0 <= i < b ==> #[trigger] file.buckets@[i] as nat == table_words(
                        entries,
                        table.buckets(),
                    )[i],
                table.keys() == parsed_keys,
                table.seed() == HASH_SEED,
                table.buckets() == crate::mmap_hashmap::build_buckets(
                    parsed_keys,
                    HASH_SEED,
                    (2 * n + 1) as nat,
                ),
                forall|j: int|
                    0 <= j < n ==> (#[trigger] parsed_keys[j]).key_bytes() == file.keys@[j]@,
                forall|other: MmapHashMap<K>|
                    other.is_standard() && other.fits_file() && #[trigger] other.file()
                        == bytes@ ==> other.raw_file() == raw,
            decreases m - b,
        {
            let entry: usize = table.bucket(b);
            let word: u64 = if entry == EMPTY_BUCKET {
                EMPTY_WORD
            } else {
                offsets[entry]
            };
            if file.buckets[b] != word {
                proof {
                    assert forall|other: MmapHashMap<K>|
                        other.is_standard() && other.fits_file() implies #[trigger] other.file()
                        != bytes@ by {
                        if other.file() == bytes@ {
                            other.lemma_wf();
                            assert(other.raw_file() == raw);
                            assert(other.keys().len() == n);
                            assert forall|j: int| 0 <= j < n implies (
                            #[trigger] other.keys()[j]).key_bytes()
                                == parsed_keys[j].key_bytes() by {
                                assert(raw.0[j].0 == other.keys()[j].key_bytes());
                                assert(raw.0[j].0 == file.keys@[j]@);
                            }
                            crate::mmap_hashmap::lemma_build_by_bytes(
                                other.keys(),
                                parsed_keys,
                                HASH_SEED,
                                (2 * n + 1) as nat,
                            );
                            assert(other.buckets() == table.buckets());
                            assert(raw.1[b as int] == table_words(raw.0, other.buckets())[b as int]);
                        }
                    }
                }
                return Err(OperationError::corruption("table file has a bucket out of place"));
            }
            b = b + 1;
        }
        proof {
            assert(raw.1 =~= table_words(entries, table.buckets()));
            assert(table.raw_file() == raw);
            lemma_entries_read_then_written(
                bytes@,
                (24 + word_at(bytes@, 8, 8) * 8) as int,
                word_at(bytes@, 0, 8),
            );
            assert forall|e: int| 0 <= e < table.keys().len() implies (
            #[trigger] table.keys()[e]).key_bytes().len() < 0x1_0000_0000 && table.values()[e].len()
                < 0x1_0000_0000 by {
                assert(parsed_keys[e].key_bytes() == file.keys@[e]@);
                assert(file.keys@[e]@.len() < 0x1_0000_0000);
                assert(table.values()[e] == file.ids@[e]@);
            }
        }
        Ok(table)
    }
}

/// The bytes of the file of the table that `create` makes of keys and
/// their id lists.
pub open spec fn table_file_of<K: MapIndexKey>(
    keys: Seq<K>,
    values: Seq<Seq<PointOffsetType>>,
) -> Seq<u8> {
    file_bytes(
        (
            table_entries(keys, values),
            table_words(
                table_entries(keys, values),
                crate::mmap_hashmap::build_buckets(keys, HASH_SEED, 2 * keys.len() + 1),
            ),
            HASH_SEED as nat,
        ),
    )
}

/// Whether bytes are the file of a table that `create` makes.
pub open spec fn is_table_file<K: MapIndexKey>(bytes: Seq<u8>) -> bool {
    exists|table: MmapHashMap<K>|
        table.is_standard() && table.fits_file() && #[trigger] table.file() == bytes
}

/// Id lists that the file holds alike are alike.
pub proof fn lemma_raw_ids_injective(a: Seq<PointOffsetType>, b: Seq<PointOffsetType>)
    requires
        raw_ids(a) == raw_ids(b),
    ensures
        a == b,
{
    assert(raw_ids(a).len() == a.len());
    assert(raw_ids(b).len() == b.len());
    assert forall|i: int| 0 <= i < a.len() implies a[i] == b[i] by {
        assert(raw_ids(a)[i] == a[i] as nat);
        assert(raw_ids(b)[i] == b[i] as nat);
    }
    assert(a =~= b);
}

/// Two tables with the same file map the same keys to the same ids.
pub proof fn lemma_same_file_same_map<K: MapIndexKey>(a: MmapHashMap<K>, b: MmapHashMap<K>)
    requires
        a.is_standard(),
        a.fits_file(),
        b.is_standard(),
        b.fits_file(),
        a.file() == b.file(),
    ensures
        a@ == b@,
        a.values() == b.values(),
        a.keys().len() == b.keys().len(),
        forall|e: int|
            0 <= e < a.keys().len() ==> (#[trigger] a.keys()[e]).key_bytes()
                == b.keys()[e].key_bytes(),
{
    let ea = table_entries(a.keys(), a.values());
    let eb = table_entries(b.keys(), b.values());
    assert(ea == eb) by {
        a.lemma_file_is_read_back();
        b.lemma_file_is_read_back();
    }
    assert(a.keys().len() == a.values().len() && b.keys().len() == b.values().len()
        && keys_distinct_of(a) && keys_distinct_of(b)) by {
        a.lemma_wf();
        b.lemma_wf();
    }
    assert(ea.len() == a.keys().len());
    assert(eb.len() == b.keys().len());
    assert forall|e: int| 0 <= e < a.keys().len() implies (#[trigger] a.keys()[e]).key_bytes()
        == b.keys()[e].key_bytes() && a.values()[e] == b.values()[e] by {
        assert(ea[e] == eb[e]);
        lemma_raw_ids_injective(a.values()[e], b.values()[e]);
    }
    assert forall|e: int| 0 <= e < a.values().len() implies #[trigger] a.values()[e]
        == b.values()[e] by {
        assert(a.keys()[e].key_bytes() == b.keys()[e].key_bytes());
    }
    assert(a.values() =~= b.values());
    crate::mmap_hashmap::lemma_map_by_bytes(a.keys(), b.keys(), a.values());
}

/// Whether no two keys of a table have the same bytes.
pub open spec fn keys_distinct_of<K: MapIndexKey>(table: MmapHashMap<K>) -> bool {
    crate::mmap_hashmap::keys_distinct(table.keys())
}

/// The file of a table is the file of its keys and id lists.
pub proof fn lemma_file_of_standard<K: MapIndexKey>(table: MmapHashMap<K>)
    requires
        table.is_standard(),
    ensures
        table.file() == table_file_of(table.keys(), table.values()),
{
    table.lemma_wf();
}

/// What the file of keys and their id lists holds can be written.
pub proof fn lemma_written_file_fits<K: MapIndexKey>(
    keys: Seq<K>,
    values: Seq<Seq<PointOffsetType>>,
)
    requires
        keys.len() == values.len(),
        2 * keys.len() + 1 <= usize::MAX,
        forall|e: int|
            0 <= e < keys.len() ==> (#[trigger] keys[e]).key_bytes().len() < 0x1_0000_0000
                && values[e].len() < 0x1_0000_0000,
        payload_bytes(table_entries(keys, values)).len() < EMPTY_WORD,
    ensures
        file_fits(
            (
                table_entries(keys, values),
                table_words(
                    table_entries(keys, values),
                    crate::mmap_hashmap::build_buckets(keys, HASH_SEED, 2 * keys.len() + 1),
                ),
                HASH_SEED as nat,
            ),
        ),
{
    let entries = table_entries(keys, values);
    let buckets = crate::mmap_hashmap::build_buckets(keys, HASH_SEED, 2 * keys.len() + 1);
    let words = table_words(entries, buckets);
    crate::mmap_hashmap::lemma_build_holds(keys, HASH_SEED, 2 * keys.len() + 1);
    lemma_pow256_values();
    assert(usize::MAX <= 0xffff_ffff_ffff_ffff) by {
        vstd::layout::unsigned_int_max_values();
    }
    assert(entries.take(entries.len() as int) =~= entries);
    assert forall|b: int| 0 <= b < words.len() implies #[trigger] words[b] < pow256(8) by {
        assert(buckets[b] == EMPTY_BUCKET || buckets[b] < keys.len());
        if buckets[b] != EMPTY_BUCKET {
            lemma_offset_grows(entries, buckets[b] as int, entries.len() as int);
        }
    }
    assert forall|e: int| 0 <= e < entries.len() implies entry_fits(#[trigger] entries[e]) by {
        assert(keys[e].key_bytes().len() < 0x1_0000_0000);
        assert forall|i: int| 0 <= i < entries[e].1.len() implies #[trigger] entries[e].1[i]
            < pow256(4) by {}
    }
}

/// A table opened over the file of keys and their id lists holds keys
/// with the same bytes, in the same order, with the same id lists.
pub proof fn lemma_table_of_written_file<K: MapIndexKey>(
    table: MmapHashMap<K>,
    keys: Seq<K>,
    values: Seq<Seq<PointOffsetType>>,
)
    requires
        table.is_standard(),
        table.fits_file(),
        table.file() == table_file_of(keys, values),
        keys.len() == values.len(),
        crate::mmap_hashmap::keys_distinct(keys),
        2 * keys.len() + 1 <= usize::MAX,
        forall|e: int|
            0 <= e < keys.len() ==> (#[trigger] keys[e]).key_bytes().len() < 0x1_0000_0000
                && values[e].len() < 0x1_0000_0000,
        payload_bytes(table_entries(keys, values)).len() < EMPTY_WORD,
    ensures
        table.keys().len() == keys.len(),
        forall|e: int|
            0 <= e < keys.len() ==> (#[trigger] table.keys()[e]).key_bytes() == keys[e].key_bytes(),
        table.values() == values,
        table@ == crate::mmap_hashmap::map_of(keys, values),
{
    let written = (
        table_entries(keys, values),
        table_words(
            table_entries(keys, values),
            crate::mmap_hashmap::build_buckets(keys, HASH_SEED, 2 * keys.len() + 1),
        ),
        HASH_SEED as nat,
    );
    assert(table.raw_file() == written) by {
        lemma_written_file_fits(keys, values);
        lemma_file_written_then_read(written);
        table.lemma_file_is_read_back();
    }
    let ea = table_entries(table.keys(), table.values());
    let eb = table_entries(keys, values);
    assert(ea == eb);
    assert(table.keys().len() == table.values().len()) by {
        table.lemma_wf();
    }
    assert(ea.len() == table.keys().len());
    assert(eb.len() == keys.len());
    assert forall|e: int| 0 <= e < keys.len() implies (#[trigger] table.keys()[e]).key_bytes()
        == keys[e].key_bytes() && table.values()[e] == values[e] by {
        assert(ea[e] == eb[e]);
        lemma_raw_ids_injective(table.values()[e], values[e]);
    }
    assert forall|e: int| 0 <= e < values.len() implies #[trigger] table.values()[e]
        == values[e] by {
        assert(table.keys()[e].key_bytes() == keys[e].key_bytes());
    }
    assert(table.values() =~= values);
    assert forall|e: int| 0 <= e < keys.len() implies (#[trigger] keys[e]).key_bytes()
        == table.keys()[e].key_bytes() by {}
    crate::mmap_hashmap::lemma_map_by_bytes(keys, table.keys(), values);
}

/// Keys with the same bytes and the same id lists give the same file,
/// byte for byte.
pub proof fn lemma_table_file_by_bytes<K: MapIndexKey>(
    a: Seq<K>,
    b: Seq<K>,
    values: Seq<Seq<PointOffsetType>>,
)
    requires
        a.len() == b.len(),
        forall|e: int| 0 <= e < a.len() ==> (#[trigger] a[e]).key_bytes() == b[e].key_bytes(),
    ensures
        table_file_of(a, values) == table_file_of(b, values),
{
    crate::mmap_hashmap::lemma_build_by_bytes(a, b, HASH_SEED, 2 * a.len() + 1);
    assert(table_entries(a, values) =~= table_entries(b, values));
}

} // verus!
