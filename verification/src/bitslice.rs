//! The tombstone bitmap: a bit array over bytes, and a wrapper that buffers
//! writes until they are flushed.
//!
//! Bit `i` lives in byte `i / 8`, at weight `2^(i % 8)`.

use vstd::prelude::*;

verus! {

/// Bytes in a machine word; the bitmap file is a whole number of words.
pub const WORD_BYTES: usize = 8;

pub open spec fn byte_bit(b: u8, k: u8) -> bool {
    (b >> k) & 1u8 == 1u8
}

/// Bit `i` of a byte array.
pub open spec fn bit_at(bytes: Seq<u8>, i: int) -> bool {
    byte_bit(bytes[i / 8], (i % 8) as u8)
}

/// The bits of a byte array, lowest index first.
pub open spec fn bits_of(bytes: Seq<u8>) -> Seq<bool> {
    Seq::new(bytes.len() * 8, |i: int| bit_at(bytes, i))
}

/// How many of the bits are set.
pub open spec fn count_true(bits: Seq<bool>) -> nat
    decreases bits.len(),
{
    if bits.len() == 0 {
        0
    } else {
        count_true(bits.drop_last()) + if bits.last() {
            1nat
        } else {
            0nat
        }
    }
}

pub proof fn lemma_count_true_bound(bits: Seq<bool>)
    ensures
        count_true(bits) <= bits.len(),
    decreases bits.len(),
{
    if bits.len() > 0 {
        lemma_count_true_bound(bits.drop_last());
    }
}

/// Flipping one bit moves the count by one.
pub proof fn lemma_count_true_update(bits: Seq<bool>, i: int, value: bool)
    requires
        0 <= i < bits.len(),
    ensures
        count_true(bits.update(i, value)) == count_true(bits) + (if value {
            1int
        } else {
            0int
        }) - (if bits[i] {
            1int
        } else {
            0int
        }),
    decreases bits.len(),
{
    let after = bits.update(i, value);
    if i == bits.len() - 1 {
        assert(after.drop_last() =~= bits.drop_last());
    } else {
        lemma_count_true_update(bits.drop_last(), i, value);
        assert(after.drop_last() =~= bits.drop_last().update(i, value));
    }
}

pub proof fn lemma_count_true_all_false(bits: Seq<bool>)
    requires
        forall|i: int| 0 <= i < bits.len() ==> !bits[i],
    ensures
        count_true(bits) == 0,
    decreases bits.len(),
{
    if bits.len() > 0 {
        lemma_count_true_all_false(bits.drop_last());
    }
}

proof fn lemma_test_bit(b: u8, k: u8)
    requires
        k < 8,
    ensures
        (b & (1u8 << k) != 0u8) == byte_bit(b, k),
{
    assert((b & (1u8 << k) != 0u8) == ((b >> k) & 1u8 == 1u8)) by (bit_vector)
        requires
            k < 8,
    ;
}

proof fn lemma_set_bit(b: u8, k: u8, j: u8)
    requires
        k < 8,
        j < 8,
    ensures
        byte_bit(b | (1u8 << k), j) == (j == k || byte_bit(b, j)),
        byte_bit(b & !(1u8 << k), j) == (j != k && byte_bit(b, j)),
{
    assert((((b | (1u8 << k)) >> j) & 1u8 == 1u8) == (j == k || ((b >> j) & 1u8 == 1u8)))
        by (bit_vector)
        requires
            k < 8,
            j < 8,
    ;
    assert((((b & !(1u8 << k)) >> j) & 1u8 == 1u8) == (j != k && ((b >> j) & 1u8 == 1u8)))
        by (bit_vector)
        requires
            k < 8,
            j < 8,
    ;
}

proof fn lemma_zero_byte(j: u8)
    requires
        j < 8,
    ensures
        !byte_bit(0u8, j),
{
    assert(!((0u8 >> j) & 1u8 == 1u8)) by (bit_vector)
        requires
            j < 8,
    ;
}

/// The length in bytes of a bitmap file for `bits` points: one bit each,
/// rounded up to whole bytes and then to whole machine words.
pub open spec fn bitmap_file_len(bits: nat) -> nat {
    (((bits + 7) / 8 + 7) / 8) * 8
}

pub fn deleted_file_len(bits: usize) -> (len: usize)
    requires
        bits <= usize::MAX - 63,
    ensures
        len == bitmap_file_len(bits as nat),
        bits <= len * 8 <= usize::MAX,
        len % WORD_BYTES == 0,
{
    let bytes: usize = (bits + 7) / 8;
    let words: usize = (bytes + 7) / 8;
    words * 8
}

/// A bit array laid over bytes.
pub struct MmapBitSlice {
    bytes: Vec<u8>,
}

impl MmapBitSlice {
    /// The bits, lowest index first.
    pub closed spec fn view(&self) -> Seq<bool> {
        bits_of(self.bytes@)
    }

    /// The bytes that back the bits.
    pub closed spec fn bytes(&self) -> Seq<u8> {
        self.bytes@
    }

    pub closed spec fn wf(&self) -> bool {
        self.bytes@.len() * 8 <= usize::MAX
    }

    pub proof fn lemma_view(&self)
        ensures
            self@ == bits_of(self.bytes()),
            self@.len() == self.bytes().len() * 8,
    {
    }

    /// Lays a bit array over `bytes`; `None` if the bits cannot be counted
    /// in a machine word.
    pub fn from_bytes(bytes: Vec<u8>) -> (r: Option<Self>)
        ensures
            r.is_some() <==> bytes@.len() * 8 <= usize::MAX,
            r matches Some(s) ==> s.wf() && s.bytes() == bytes@ && s@ == bits_of(bytes@),
    {
        if bytes.len() <= usize::MAX / 8 {
            Some(MmapBitSlice { bytes })
        } else {
            None
        }
    }

    /// A bit array of `bitmap_file_len(bits)` bytes with no bit set.
    pub fn zeroed(bits: usize) -> (s: Self)
        requires
            bits <= usize::MAX - 63,
        ensures
            s.wf(),
            s.bytes().len() == bitmap_file_len(bits as nat),
            s@.len() >= bits,
            forall|i: int| 0 <= i < s@.len() ==> !s@[i],
    {
        let len: usize = deleted_file_len(bits);
        let mut bytes: Vec<u8> = Vec::new();
        let mut k: usize = 0;
        while k < len
            invariant
                k <= len,
                bytes@.len() == k,
                forall|j: int| 0 <= j < k ==> bytes@[j] == 0u8,
            decreases len - k,
        {
            bytes.push(0u8);
            k = k + 1;
        }
        let s = MmapBitSlice { bytes };
        assert forall|i: int| 0 <= i < s@.len() implies !s@[i] by {
            lemma_zero_byte((i % 8) as u8);
        }
        s
    }

    pub fn into_bytes(self) -> (bytes: Vec<u8>)
        ensures
            bytes@ == self.bytes(),
    {
        self.bytes
    }

    pub fn as_bytes(&self) -> (bytes: &Vec<u8>)
        ensures
            bytes@ == self.bytes(),
    {
        &self.bytes
    }

    pub fn len(&self) -> (n: usize)
        requires
            self.wf(),
        ensures
            n == self@.len(),
    {
        self.bytes.len() * 8
    }

    pub fn get(&self, index: usize) -> (r: Option<bool>)
        requires
            self.wf(),
        ensures
            r == if index < self@.len() {
                Some(self@[index as int])
            } else {
                None
            },
    {
        if index / 8 < self.bytes.len() {
            let byte: u8 = self.bytes[index / 8];
            let k: u8 = (index % 8) as u8;
            proof {
                lemma_test_bit(byte, k);
            }
            Some(byte & (1u8 << k) != 0u8)
        } else {
            None
        }
    }

    pub fn set(&mut self, index: usize, value: bool)
        requires
            old(self).wf(),
            index < old(self)@.len(),
        ensures
            final(self).wf(),
            final(self)@ == old(self)@.update(index as int, value),
            final(self).bytes().len() == old(self).bytes().len(),
    {
        let at: usize = index / 8;
        let byte: u8 = self.bytes[at];
        let k: u8 = (index % 8) as u8;
        let next: u8 = if value {
            byte | (1u8 << k)
        } else {
            byte & !(1u8 << k)
        };
        self.bytes.set(at, next);
        assert(self@ =~= old(self)@.update(index as int, value)) by {
            assert forall|i: int| 0 <= i < self@.len() implies self@[i] == old(self)@.update(
                index as int,
                value,
            )[i] by {
                if i / 8 == at as int {
                    lemma_set_bit(byte, k, (i % 8) as u8);
                }
            }
        }
    }

    /// The number of set bits.
    pub fn count_ones(&self) -> (n: usize)
        requires
            self.wf(),
        ensures
            n == count_true(self@),
    {
        let len: usize = self.len();
        let mut n: usize = 0;
        let mut i: usize = 0;
        while i < len
            invariant
                i <= len,
                len == self@.len(),
                self.wf(),
                n == count_true(self@.take(i as int)),
                n <= i,
            decreases len - i,
        {
            let bit = self.get(i);
            proof {
                assert(self@.take(i + 1).drop_last() =~= self@.take(i as int));
            }
            if bit == Some(true) {
                n = n + 1;
            }
            i = i + 1;
        }
        assert(self@.take(len as int) =~= self@);
        n
    }
}

/// The value most recently written to bit `index` among pending updates.
pub open spec fn pending_value(updates: Seq<(usize, bool)>, index: int) -> Option<bool>
    decreases updates.len(),
{
    if updates.len() == 0 {
        None
    } else if updates.last().0 == index {
        Some(updates.last().1)
    } else {
        pending_value(updates.drop_last(), index)
    }
}

/// Whether pending updates are in ascending order of their bits, one
/// update per bit.
pub open spec fn is_ascending(updates: Seq<(usize, bool)>) -> bool {
    forall|a: int, b: int| 0 <= a < b < updates.len() ==> updates[a].0 < updates[b].0
}

/// The bits as readers see them: a pending update wins over the backing
/// bit.
pub open spec fn overlaid(bits: Seq<bool>, updates: Seq<(usize, bool)>) -> Seq<bool> {
    Seq::new(
        bits.len(),
        |i: int|
            match pending_value(updates, i) {
                Some(v) => v,
                None => bits[i],
            },
    )
}

/// Among updates with one update per bit, the pending value of a bit is
/// the value of its update, if it has one.
proof fn lemma_pending_of_ascending(updates: Seq<(usize, bool)>, index: int)
    requires
        is_ascending(updates),
    ensures
        forall|k: int|
            0 <= k < updates.len() && (#[trigger] updates[k]).0 == index ==> pending_value(
                updates,
                index,
            ) == Some(updates[k].1),
        (forall|k: int| 0 <= k < updates.len() ==> (#[trigger] updates[k]).0 != index)
            ==> pending_value(updates, index).is_none(),
    decreases updates.len(),
{
    if updates.len() > 0 {
        let rest = updates.drop_last();
        assert(is_ascending(rest)) by {
            assert forall|a: int, b: int| 0 <= a < b < rest.len() implies rest[a].0
                < rest[b].0 by {
                assert(rest[a] == updates[a] && rest[b] == updates[b]);
            }
        }
        lemma_pending_of_ascending(rest, index);
        assert forall|k: int|
            0 <= k < updates.len() && (#[trigger] updates[k]).0 == index implies pending_value(
            updates,
            index,
        ) == Some(updates[k].1) by {
            if k < updates.len() - 1 {
                assert(updates[k].0 < updates[updates.len() - 1].0);
                assert(rest[k] == updates[k]);
            }
        }
        if forall|k: int| 0 <= k < updates.len() ==> (#[trigger] updates[k]).0 != index {
            assert forall|k: int| 0 <= k < rest.len() implies (#[trigger] rest[k]).0 != index by {
                assert(rest[k] == updates[k]);
            }
            assert(updates[updates.len() - 1].0 != index);
        }
    }
}

/// Dropping the first update changes what is pending for a bit only if
/// that update was the only one for it.
proof fn lemma_pending_drop_first(updates: Seq<(usize, bool)>, index: int)
    requires
        updates.len() > 0,
    ensures
        pending_value(updates, index) == match pending_value(updates.drop_first(), index) {
            Some(v) => Some(v),
            None => if updates[0].0 == index {
                Some(updates[0].1)
            } else {
                None
            },
        },
    decreases updates.len(),
{
    if updates.len() == 1 {
        assert(updates.drop_first() =~= Seq::<(usize, bool)>::empty());
        assert(updates.drop_last() =~= Seq::<(usize, bool)>::empty());
    } else {
        let rest = updates.drop_first();
        assert(rest.last() == updates.last());
        assert(rest.drop_last() =~= updates.drop_last().drop_first());
        if updates.last().0 != index {
            lemma_pending_drop_first(updates.drop_last(), index);
        }
    }
}

/// A bit array whose writes are buffered until flushed. Readers see
/// pending writes at once. Pending writes are kept in ascending order of
/// their bits, one per bit, and are flushed in that order.
pub struct MmapBitSliceBufferedUpdateWrapper {
    bitslice: MmapBitSlice,
    pending_updates: Vec<(usize, bool)>,
}

impl MmapBitSliceBufferedUpdateWrapper {
    /// The bits as readers see them.
    pub closed spec fn view(&self) -> Seq<bool> {
        overlaid(self.bitslice@, self.pending_updates@)
    }

    /// The bytes last flushed.
    pub closed spec fn flushed_bytes(&self) -> Seq<u8> {
        self.bitslice.bytes()
    }

    /// The writes not yet flushed, in ascending order of their bits.
    pub closed spec fn pending(&self) -> Seq<(usize, bool)> {
        self.pending_updates@
    }

    pub closed spec fn wf(&self) -> bool {
        &&& self.bitslice.wf()
        &&& is_ascending(self.pending_updates@)
        &&& forall|k: int|
            0 <= k < self.pending_updates@.len() ==> (#[trigger] self.pending_updates@[k]).0
                < self.bitslice@.len()
    }

    pub proof fn lemma_view(&self)
        ensures
            self@ == overlaid(bits_of(self.flushed_bytes()), self.pending()),
            self@.len() == self.flushed_bytes().len() * 8,
            self.wf() ==> is_ascending(self.pending()),
    {
    }

    pub fn new(bitslice: MmapBitSlice) -> (w: Self)
        requires
            bitslice.wf(),
        ensures
            w.wf(),
            w@ == bitslice@,
            w.flushed_bytes() == bitslice.bytes(),
            w.pending() == Seq::<(usize, bool)>::empty(),
    {
        let w = MmapBitSliceBufferedUpdateWrapper { bitslice, pending_updates: Vec::new() };
        assert(w@ =~= bitslice@);
        w
    }

    pub fn len(&self) -> (n: usize)
        requires
            self.wf(),
        ensures
            n == self@.len(),
    {
        self.bitslice.len()
    }

    /// The number of pending updates that come before bit `index`.
    fn position(&self, index: usize) -> (at: usize)
        requires
            self.wf(),
        ensures
            at <= self.pending_updates@.len(),
            forall|k: int| 0 <= k < at ==> (#[trigger] self.pending_updates@[k]).0 < index,
            forall|k: int|
                at <= k < self.pending_updates@.len() ==> (#[trigger] self.pending_updates@[k]).0
                    >= index,
    {
        let mut lo: usize = 0;
        let mut hi: usize = self.pending_updates.len();
        while lo < hi
            invariant
                lo <= hi <= self.pending_updates@.len(),
                is_ascending(self.pending_updates@),
                forall|k: int| 0 <= k < lo ==> (#[trigger] self.pending_updates@[k]).0 < index,
                forall|k: int|
                    hi <= k < self.pending_updates@.len() ==> (
                    #[trigger] self.pending_updates@[k]).0 >= index,
            decreases hi - lo,
        {
            let mid: usize = lo + (hi - lo) / 2;
            if self.pending_updates[mid].0 < index {
                assert forall|k: int| 0 <= k < mid + 1 implies (
                #[trigger] self.pending_updates@[k]).0 < index by {
                    if k < mid {
                        assert(self.pending_updates@[k].0 < self.pending_updates@[mid as int].0);
                    }
                }
                lo = mid + 1;
            } else {
                assert forall|k: int| mid <= k < self.pending_updates@.len() implies (
                #[trigger] self.pending_updates@[k]).0 >= index by {
                    if k > mid {
                        assert(self.pending_updates@[mid as int].0 < self.pending_updates@[k].0);
                    }
                }
                hi = mid;
            }
        }
        lo
    }

    /// Reads a bit: a pending write first, else the backing bit. `None`
    /// past the end.
    pub fn get(&self, index: usize) -> (r: Option<bool>)
        requires
            self.wf(),
        ensures
            r == if index < self@.len() {
                Some(self@[index as int])
            } else {
                None
            },
    {
        if index >= self.bitslice.len() {
            return None;
        }
        let at: usize = self.position(index);
        proof {
            lemma_pending_of_ascending(self.pending_updates@, index as int);
        }
        if at < self.pending_updates.len() && self.pending_updates[at].0 == index {
            Some(self.pending_updates[at].1)
        } else {
            assert forall|k: int| 0 <= k < self.pending_updates@.len() implies (
            #[trigger] self.pending_updates@[k]).0 != index by {
                if k > at {
                    assert(self.pending_updates@[at as int].0 < self.pending_updates@[k].0);
                }
            }
            self.bitslice.get(index)
        }
    }

    /// Buffers a write, in place of any pending write to the same bit.
    pub fn set(&mut self, index: usize, value: bool)
        requires
            old(self).wf(),
            index < old(self)@.len(),
        ensures
            final(self).wf(),
            final(self)@ == old(self)@.update(index as int, value),
            final(self).flushed_bytes() == old(self).flushed_bytes(),
    {
        let at: usize = self.position(index);
        let ghost before = self.pending_updates@;
        if at < self.pending_updates.len() && self.pending_updates[at].0 == index {
            self.pending_updates.set(at, (index, value));
        } else {
            self.pending_updates.insert(at, (index, value));
        }
        proof {
            let after = self.pending_updates@;
            assert(is_ascending(after)) by {
                assert forall|a: int, b: int| 0 <= a < b < after.len() implies after[a].0
                    < after[b].0 by {
                    if after.len() == before.len() {
                        assert(after[a].0 == before[a].0 && after[b].0 == before[b].0);
                    } else {
                        let pa = if a < at { a } else { a - 1 };
                        let pb = if b < at { b } else { b - 1 };
                        if a != at && b != at {
                            assert(after[a] == before[pa] && after[b] == before[pb]);
                        } else if a == at {
                            assert(after[b] == before[pb]);
                            if pb > at {
                                assert(before[at as int].0 < before[pb].0);
                            }
                        } else {
                            assert(after[a] == before[pa]);
                        }
                    }
                }
            }
            assert forall|i: int| 0 <= i < self@.len() implies self@[i] == old(self)@.update(
                index as int,
                value,
            )[i] by {
                lemma_pending_of_ascending(before, i);
                lemma_pending_of_ascending(after, i);
                if i == index {
                    assert(after[at as int] == (index, value));
                } else {
                    if exists|k: int| 0 <= k < before.len() && (#[trigger] before[k]).0 == i {
                        let k = choose|k: int| 0 <= k < before.len() && (#[trigger] before[k]).0
                            == i;
                        let moved = if after.len() == before.len() || k < at {
                            k
                        } else {
                            k + 1
                        };
                        assert(after[moved] == before[k]);
                    } else {
                        assert forall|k: int| 0 <= k < after.len() implies (
                        #[trigger] after[k]).0 != i by {
                            if k != at {
                                let from = if after.len() == before.len() || k < at {
                                    k
                                } else {
                                    k - 1
                                };
                                assert(after[k] == before[from]);
                            }
                        }
                    }
                }
            }
            assert(self@ =~= old(self)@.update(index as int, value));
        }
    }

    /// Writes every pending update through to the backing bits, in
    /// ascending order of the bits. What readers see does not change.
    pub fn flush(&mut self)
        requires
            old(self).wf(),
        ensures
            final(self).wf(),
            final(self)@ == old(self)@,
            final(self).pending() == Seq::<(usize, bool)>::empty(),
            bits_of(final(self).flushed_bytes()) == old(self)@,
    {
        let n: usize = self.pending_updates.len();
        let mut k: usize = 0;
        assert(self.pending_updates@.subrange(0, n as int) =~= self.pending_updates@);
        while k < n
            invariant
                k <= n,
                n == self.pending_updates@.len(),
                self.wf(),
                self.pending_updates@ == old(self).pending_updates@,
                overlaid(self.bitslice@, self.pending_updates@.subrange(k as int, n as int)) == old(
                    self,
                )@,
            decreases n - k,
        {
            let entry = self.pending_updates[k];
            let ghost before = self.bitslice@;
            let ghost rest = self.pending_updates@.subrange(k as int, n as int);
            self.bitslice.set(entry.0, entry.1);
            proof {
                let after = self.bitslice@;
                let tail = self.pending_updates@.subrange(k + 1, n as int);
                assert(rest.drop_first() =~= tail);
                assert forall|i: int| 0 <= i < before.len() implies overlaid(after, tail)[i]
                    == overlaid(before, rest)[i] by {
                    lemma_pending_drop_first(rest, i);
                }
                assert(overlaid(after, tail) =~= overlaid(before, rest));
            }
            k = k + 1;
        }
        self.pending_updates = Vec::new();
        proof {
            assert(old(self).pending_updates@.subrange(n as int, n as int) =~= Seq::<
                (usize, bool),
            >::empty());
            assert(self@ =~= old(self)@);
            assert(self.bitslice@ =~= old(self)@);
        }
    }

    /// The bytes last flushed, as they go to disk.
    pub fn as_bytes(&self) -> (bytes: &Vec<u8>)
        ensures
            bytes@ == self.flushed_bytes(),
    {
        self.bitslice.as_bytes()
    }

    /// The number of bits that readers see set.
    pub fn count_ones(&self) -> (n: usize)
        requires
            self.wf(),
        ensures
            n == count_true(self@),
    {
        let len: usize = self.len();
        let mut n: usize = 0;
        let mut i: usize = 0;
        while i < len
            invariant
                i <= len,
                len == self@.len(),
                self.wf(),
                n == count_true(self@.take(i as int)),
                n <= i,
            decreases len - i,
        {
            let bit = self.get(i);
            proof {
                assert(self@.take(i + 1).drop_last() =~= self@.take(i as int));
            }
            if bit == Some(true) {
                n = n + 1;
            }
            i = i + 1;
        }
        assert(self@.take(len as int) =~= self@);
        n
    }
}

} // verus!
