//! Accounting of the bytes an index reads and writes on behalf of a
//! request.

use vstd::prelude::*;

verus! {

/// Cost charged for finding one entry of the value-to-points table: one
/// bucket and one entry header, a machine word each.
pub const READ_ENTRY_OVERHEAD: usize = 16;

/// `a + b`, stopping at the largest machine word.
pub open spec fn saturating_sum(a: usize, b: usize) -> usize {
    if a + b > usize::MAX {
        usize::MAX
    } else {
        (a + b) as usize
    }
}

/// The number of doublings needed to reach `n` from one: the least `k`
/// with `2^k >= n`, and zero for `n < 2`.
pub open spec fn ceil_log2(n: nat) -> nat
    decreases n,
{
    if n <= 1 {
        0
    } else {
        1 + ceil_log2((n + 1) / 2)
    }
}

pub proof fn lemma_ceil_log2_bound(n: nat)
    requires
        n <= usize::MAX,
    ensures
        ceil_log2(n) <= 64,
{
    assert(usize::MAX <= 0xffff_ffff_ffff_ffff) by {
        vstd::layout::unsigned_int_max_values();
    }
    vstd::arithmetic::power2::lemma2_to64();
    lemma_ceil_log2_steps(n, 64);
}

proof fn lemma_ceil_log2_steps(n: nat, k: nat)
    requires
        n <= vstd::arithmetic::power2::pow2(k),
    ensures
        ceil_log2(n) <= k,
    decreases k,
{
    vstd::arithmetic::power2::lemma2_to64();
    if n > 1 {
        if k == 0 {
            assert(vstd::arithmetic::power2::pow2(0) == 1);
        } else {
            vstd::arithmetic::power2::lemma_pow2_unfold(k);
            lemma_ceil_log2_steps((n + 1) / 2, (k - 1) as nat);
        }
    }
}

pub fn compute_ceil_log2(n: usize) -> (k: usize)
    ensures
        k == ceil_log2(n as nat),
        k <= 64,
{
    proof {
        lemma_ceil_log2_bound(n as nat);
    }
    let mut rest: usize = n;
    let mut k: usize = 0;
    while rest > 1
        invariant
            k + ceil_log2(rest as nat) == ceil_log2(n as nat),
            ceil_log2(n as nat) <= 64,
        decreases rest,
    {
        rest = rest / 2 + rest % 2;
        k = k + 1;
    }
    k
}

/// The bytes of `count` point ids, four each, stopping at the largest
/// machine word.
pub fn id_bytes(count: usize) -> (bytes: usize)
    ensures
        bytes == if 4 * count > usize::MAX {
            usize::MAX as int
        } else {
            4 * count
        },
{
    if count > usize::MAX / 4 {
        usize::MAX
    } else {
        count * 4
    }
}

/// Counters of payload-index traffic, in bytes.
#[derive(Clone, Copy, Debug, PartialEq, Eq, Structural)]
pub struct HardwareCounterCell {
    pub payload_index_io_read: usize,
    pub payload_index_io_write: usize,
}

impl HardwareCounterCell {
    pub fn new() -> (c: Self)
        ensures
            c.payload_index_io_read == 0,
            c.payload_index_io_write == 0,
    {
        HardwareCounterCell { payload_index_io_read: 0, payload_index_io_write: 0 }
    }

    /// The counter after `delta` more bytes were read.
    pub open spec fn read_more(self, delta: usize) -> Self {
        HardwareCounterCell {
            payload_index_io_read: saturating_sum(self.payload_index_io_read, delta),
            payload_index_io_write: self.payload_index_io_write,
        }
    }

    /// The counter after `delta` more bytes were written.
    pub open spec fn written_more(self, delta: usize) -> Self {
        HardwareCounterCell {
            payload_index_io_read: self.payload_index_io_read,
            payload_index_io_write: saturating_sum(self.payload_index_io_write, delta),
        }
    }

    /// The counter after a read of `delta` bytes that is charged only if
    /// `charged` holds.
    pub open spec fn read_more_if(self, charged: bool, delta: usize) -> Self {
        if charged {
            self.read_more(delta)
        } else {
            self
        }
    }

    pub fn incr_read(&mut self, delta: usize)
        ensures
            *final(self) == old(self).read_more(delta),
    {
        self.payload_index_io_read = self.payload_index_io_read.saturating_add(delta);
    }

    pub fn incr_write(&mut self, delta: usize)
        ensures
            *final(self) == old(self).written_more(delta),
    {
        self.payload_index_io_write = self.payload_index_io_write.saturating_add(delta);
    }

    /// Charges a read only where the index lives on disk.
    pub fn incr_read_if(&mut self, charged: bool, delta: usize)
        ensures
            *final(self) == old(self).read_more_if(charged, delta),
    {
        if charged {
            self.incr_read(delta);
        }
    }
}

} // verus!
