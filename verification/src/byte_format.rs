//! Runs of fixed-width big-endian numbers, as the files of an index hold
//! them, and length-prefixed records built from them.

use vstd::prelude::*;
use crate::key_encoding::be_bytes;
use crate::key_encoding::be_value;
use crate::key_encoding::lemma_be_bytes_len;
use crate::key_encoding::lemma_be_bytes_of_value;
use crate::key_encoding::lemma_be_value_bound;
use crate::key_encoding::lemma_be_value_of_bytes;
use crate::key_encoding::pow256;
use crate::key_encoding::push_be;
use crate::key_encoding::read_be;

verus! {

/// The bytes of a run of numbers, each `width` bytes wide.
pub open spec fn words_bytes(words: Seq<nat>, width: nat) -> Seq<u8>
    decreases words.len(),
{
    if words.len() == 0 {
        Seq::empty()
    } else {
        words_bytes(words.drop_last(), width) + be_bytes(words.last(), width)
    }
}

/// The number spelled by the `width` bytes at `at`.
pub open spec fn word_at(bytes: Seq<u8>, at: int, width: nat) -> nat {
    be_value(bytes.subrange(at, at + width))
}

/// The run of `count` numbers that starts at `at`.
pub open spec fn words_at(bytes: Seq<u8>, at: int, count: nat, width: nat) -> Seq<nat> {
    Seq::new(count, |i: int| word_at(bytes, at + i * width, width))
}

/// Whether every number of a run fits its width.
pub open spec fn words_fit(words: Seq<nat>, width: nat) -> bool {
    forall|i: int| 0 <= i < words.len() ==> #[trigger] words[i] < pow256(width)
}

pub proof fn lemma_words_bytes_len(words: Seq<nat>, width: nat)
    ensures
        words_bytes(words, width).len() == words.len() * width,
    decreases words.len(),
{
    if words.len() > 0 {
        lemma_words_bytes_len(words.drop_last(), width);
        lemma_be_bytes_len(words.last(), width);
        assert((words.len() - 1) * width + width == words.len() * width) by (nonlinear_arith);
    } else {
        assert(0 * width == 0);
    }
}

/// Writing the numbers read from a stretch of bytes gives the stretch
/// back.
pub proof fn lemma_words_read_then_written(bytes: Seq<u8>, at: int, count: nat, width: nat)
    requires
        0 <= at,
        at + count * width <= bytes.len(),
    ensures
        words_bytes(words_at(bytes, at, count, width), width) == bytes.subrange(
            at,
            at + count * width,
        ),
        words_fit(words_at(bytes, at, count, width), width),
    decreases count,
{
    let words = words_at(bytes, at, count, width);
    if count == 0 {
        assert(0 * width == 0);
        assert(bytes.subrange(at, at + 0) =~= Seq::<u8>::empty());
    } else {
        let n = (count - 1) as nat;
        assert(n * width + width == count * width) by (nonlinear_arith)
            requires
                n + 1 == count,
        ;
        assert(n * width >= 0) by (nonlinear_arith)
            requires
                n >= 0,
                width >= 0,
        ;
        lemma_words_read_then_written(bytes, at, n, width);
        assert(words.drop_last() =~= words_at(bytes, at, n, width));
        let last = bytes.subrange(at + n * width, at + n * width + width);
        lemma_be_bytes_of_value(last);
        lemma_be_value_bound(last);
        assert(words.last() == be_value(last));
        assert(bytes.subrange(at, at + count * width) =~= bytes.subrange(at, at + n * width)
            + last);
        assert forall|i: int| 0 <= i < words.len() implies #[trigger] words[i] < pow256(width) by {
            if i < n {
                assert(words[i] == words_at(bytes, at, n, width)[i]);
            }
        }
    }
}

/// Reading where a run of numbers was written gives the numbers back.
pub proof fn lemma_words_written_then_read(
    before: Seq<u8>,
    words: Seq<nat>,
    after: Seq<u8>,
    width: nat,
)
    requires
        words_fit(words, width),
    ensures
        words_at(before + words_bytes(words, width) + after, before.len() as int, words.len(), width)
            == words,
    decreases words.len(),
{
    let bytes = before + words_bytes(words, width) + after;
    let at = before.len() as int;
    lemma_words_bytes_len(words, width);
    assert forall|i: int| 0 <= i < words.len() implies words_at(bytes, at, words.len(), width)[i]
        == words[i] by {
        lemma_word_in_run(before, words, after, width, i);
    }
    assert(words_at(bytes, at, words.len(), width) =~= words);
}

/// The `i`-th number of a run lies `i` widths into the run.
pub proof fn lemma_word_in_run(
    before: Seq<u8>,
    words: Seq<nat>,
    after: Seq<u8>,
    width: nat,
    i: int,
)
    requires
        words_fit(words, width),
        0 <= i < words.len(),
    ensures
        word_at(
            before + words_bytes(words, width) + after,
            before.len() + i * width,
            width,
        ) == words[i],
    decreases words.len(),
{
    let run = words_bytes(words, width);
    let bytes = before + run + after;
    let rest = words.drop_last();
    lemma_words_bytes_len(words, width);
    lemma_words_bytes_len(rest, width);
    lemma_be_bytes_len(words.last(), width);
    assert(i * width >= 0 && i * width + width <= words.len() * width) by (nonlinear_arith)
        requires
            0 <= i < words.len(),
            width >= 0,
    ;
    if i == words.len() - 1 {
        assert(bytes.subrange(before.len() + i * width, before.len() + i * width + width)
            =~= be_bytes(words.last(), width));
        lemma_be_value_of_bytes(words.last(), width);
    } else {
        assert(words_fit(rest, width)) by {
            assert forall|j: int| 0 <= j < rest.len() implies #[trigger] rest[j] < pow256(
                width,
            ) by {
                assert(rest[j] == words[j]);
            }
        }
        lemma_word_in_run(before, rest, be_bytes(words.last(), width) + after, width, i);
        assert(bytes =~= before + words_bytes(rest, width) + (be_bytes(words.last(), width)
            + after));
    }
}

/// Appends a run of 32-bit numbers.
pub fn push_u32s(out: &mut Vec<u8>, words: &Vec<u32>)
    ensures
        final(out)@ == old(out)@ + words_bytes(words@.map_values(|w: u32| w as nat), 4),
{
    let ghost all = words@.map_values(|w: u32| w as nat);
    let mut k: usize = 0;
    assert(old(out)@ + words_bytes(all.take(0), 4) =~= old(out)@);
    while k < words.len()
        invariant
            k <= words.len(),
            all == words@.map_values(|w: u32| w as nat),
            out@ == old(out)@ + words_bytes(all.take(k as int), 4),
        decreases words.len() - k,
    {
        push_be(out, words[k] as u128, 4);
        proof {
            assert(all.take(k + 1).drop_last() =~= all.take(k as int));
            assert(all.take(k + 1).last() == words@[k as int] as nat);
            assert(out@ =~= old(out)@ + words_bytes(all.take(k + 1), 4));
        }
        k = k + 1;
    }
    assert(all.take(words.len() as int) =~= all);
}

/// Reads a run of `count` 32-bit numbers at `at`.
pub fn read_u32s(bytes: &[u8], at: usize, count: usize) -> (words: Vec<u32>)
    requires
        at + count * 4 <= bytes@.len(),
    ensures
        words@.map_values(|w: u32| w as nat) == words_at(bytes@, at as int, count as nat, 4),
        words@.len() == count,
{
    let mut words: Vec<u32> = Vec::new();
    let mut k: usize = 0;
    while k < count
        invariant
            k <= count,
            at + count * 4 <= bytes@.len(),
            bytes@.len() == bytes.len(),
            words@.len() == k,
            forall|i: int|
                0 <= i < k ==> #[trigger] words@[i] as nat == word_at(bytes@, at + i * 4, 4),
        decreases count - k,
    {
        let word: u128 = read_be(bytes, at + k * 4, 4);
        proof {
            lemma_be_value_bound(bytes@.subrange(at + k * 4, at + k * 4 + 4));
            crate::key_encoding::lemma_pow256_values();
        }
        words.push(word as u32);
        k = k + 1;
    }
    assert(words@.map_values(|w: u32| w as nat) =~= words_at(bytes@, at as int, count as nat, 4));
    words
}

} // verus!
