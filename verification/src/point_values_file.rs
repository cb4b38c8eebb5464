//! The files of the point-to-values map.
//!
//! The values file holds the values of all points, point after point.
//! A value of a type whose values all have one width is held as its
//! bytes; any other value is held as its length, a 32-bit number, and its
//! bytes. The offsets file holds two 64-bit numbers for every point:
//! where its values start in the values file, and how many there are.
//! All numbers are big-endian.

use vstd::prelude::*;
use crate::byte_format::lemma_words_bytes_len;
use crate::byte_format::lemma_words_read_then_written;
use crate::byte_format::lemma_words_written_then_read;
use crate::byte_format::word_at;
use crate::byte_format::words_at;
use crate::byte_format::words_bytes;
use crate::byte_format::words_fit;
use crate::key_encoding::be_bytes;
use crate::key_encoding::lemma_be_bytes_len;
use crate::key_encoding::lemma_be_bytes_of_value;
use crate::key_encoding::lemma_be_value_bound;
use crate::key_encoding::lemma_be_value_of_bytes;
use crate::key_encoding::lemma_pow256_values;
use crate::key_encoding::pow256;

verus! {

/// The values of one point, each by its bytes.
pub type RawList = Seq<Seq<u8>>;

pub open spec fn record_fits(width: Option<nat>, value: Seq<u8>) -> bool {
    match width {
        Some(w) => value.len() == w,
        None => value.len() < 0x1_0000_0000,
    }
}

pub open spec fn list_fits(width: Option<nat>, list: RawList) -> bool {
    forall|k: int| 0 <= k < list.len() ==> record_fits(width, #[trigger] list[k])
}

/// The bytes of one value in the values file.
pub open spec fn record_bytes(width: Option<nat>, value: Seq<u8>) -> Seq<u8> {
    match width {
        Some(_) => value,
        None => be_bytes(value.len(), 4) + value,
    }
}

/// The value that starts at `at`, and where it ends.
pub open spec fn parse_record(width: Option<nat>, bytes: Seq<u8>, at: int) -> Option<
    (Seq<u8>, int),
> {
    if at < 0 {
        None
    } else {
        match width {
            Some(w) => if at + w > bytes.len() {
                None
            } else {
                Some((bytes.subrange(at, at + w), at + w))
            },
            None => if at + 4 > bytes.len() {
                None
            } else {
                let len = word_at(bytes, at, 4);
                if at + 4 + len > bytes.len() {
                    None
                } else {
                    Some((bytes.subrange(at + 4, at + 4 + len), at + 4 + len))
                }
            },
        }
    }
}

/// The bytes of the values of one point.
pub open spec fn list_bytes(width: Option<nat>, list: RawList) -> Seq<u8>
    decreases list.len(),
{
    if list.len() == 0 {
        Seq::empty()
    } else {
        list_bytes(width, list.drop_last()) + record_bytes(width, list.last())
    }
}

/// The `count` values that start at `at`, and where they end.
pub open spec fn parse_list(width: Option<nat>, bytes: Seq<u8>, at: int, count: nat) -> Option<
    (RawList, int),
>
    decreases count,
{
    if count == 0 {
        Some((Seq::empty(), at))
    } else {
        match parse_list(width, bytes, at, (count - 1) as nat) {
            None => None,
            Some((list, next)) => match parse_record(width, bytes, next) {
                None => None,
                Some((value, end)) => Some((list.push(value), end)),
            },
        }
    }
}

/// The bytes of the values file.
pub open spec fn region_bytes(width: Option<nat>, lists: Seq<RawList>) -> Seq<u8>
    decreases lists.len(),
{
    if lists.len() == 0 {
        Seq::empty()
    } else {
        region_bytes(width, lists.drop_last()) + list_bytes(width, lists.last())
    }
}

/// Where the values of point `i` start in the values file.
pub open spec fn start_of(width: Option<nat>, lists: Seq<RawList>, i: int) -> nat {
    region_bytes(width, lists.take(i)).len()
}

/// The numbers of the offsets file: for every point, where its values
/// start and how many there are.
pub open spec fn offsets_words(width: Option<nat>, lists: Seq<RawList>) -> Seq<nat> {
    Seq::new(
        2 * lists.len(),
        |j: int|
            if j % 2 == 0 {
                start_of(width, lists, j / 2)
            } else {
                lists[j / 2].len()
            },
    )
}

/// The values of the first `count` points, as the offsets say, and where
/// they end. The values of a point start where those of the point before
/// end.
pub open spec fn parse_points(width: Option<nat>, words: Seq<nat>, region: Seq<u8>, count: nat)
    -> Option<(Seq<RawList>, int)>
    decreases count,
{
    if count == 0 {
        Some((Seq::empty(), 0))
    } else {
        match parse_points(width, words, region, (count - 1) as nat) {
            None => None,
            Some((lists, end)) => if words[2 * (count - 1)] != end {
                None
            } else {
                match parse_list(width, region, end, words[2 * (count - 1) + 1]) {
                    None => None,
                    Some((list, next)) => Some((lists.push(list), next)),
                }
            },
        }
    }
}

/// The values that the two files hold; `None` if they are not the files
/// of a map.
pub open spec fn parse_files(width: Option<nat>, offsets: Seq<u8>, region: Seq<u8>) -> Option<
    Seq<RawList>,
> {
    if offsets.len() % 16 != 0 {
        None
    } else {
        let count = offsets.len() / 16;
        match parse_points(width, words_at(offsets, 0, 2 * count, 8), region, count) {
            Some((lists, end)) => if end == region.len() {
                Some(lists)
            } else {
                None
            },
            None => None,
        }
    }
}

/// Whether values can be written: every value fits, and the values file
/// is no longer than an offset can say.
pub open spec fn lists_fit(width: Option<nat>, lists: Seq<RawList>) -> bool {
    &&& forall|i: int| 0 <= i < lists.len() ==> list_fits(width, #[trigger] lists[i])
    &&& region_bytes(width, lists).len() < 0x1_0000_0000_0000_0000
    &&& forall|i: int| 0 <= i < lists.len() ==> (#[trigger] lists[i]).len() < 0x1_0000_0000_0000_0000
}

pub proof fn lemma_record_len(width: Option<nat>, value: Seq<u8>)
    ensures
        record_bytes(width, value).len() == match width {
            Some(_) => value.len(),
            None => 4 + value.len(),
        },
{
    lemma_be_bytes_len(value.len(), 4);
}

/// A value that was written is read back as it was.
pub proof fn lemma_record_written_then_read(
    width: Option<nat>,
    before: Seq<u8>,
    value: Seq<u8>,
    after: Seq<u8>,
)
    requires
        record_fits(width, value),
    ensures
        parse_record(width, before + record_bytes(width, value) + after, before.len() as int)
            == Some((value, (before.len() + record_bytes(width, value).len()) as int)),
{
    let bytes = before + record_bytes(width, value) + after;
    let at = before.len() as int;
    lemma_record_len(width, value);
    lemma_pow256_values();
    match width {
        Some(w) => {
            assert(bytes.subrange(at, at + w) =~= value);
        },
        None => {
            lemma_be_bytes_len(value.len(), 4);
            lemma_be_value_of_bytes(value.len(), 4);
            assert(bytes.subrange(at, at + 4) =~= be_bytes(value.len(), 4));
            assert(bytes.subrange(at + 4, at + 4 + value.len()) =~= value);
        },
    }
}

/// A value that was read is written back as the bytes it was read from.
pub proof fn lemma_record_read_then_written(width: Option<nat>, bytes: Seq<u8>, at: int)
    requires
        parse_record(width, bytes, at).is_some(),
    ensures
        at <= parse_record(width, bytes, at).unwrap().1 <= bytes.len(),
        bytes.subrange(at, parse_record(width, bytes, at).unwrap().1) == record_bytes(
            width,
            parse_record(width, bytes, at).unwrap().0,
        ),
        record_fits(width, parse_record(width, bytes, at).unwrap().0),
{
    let (value, end) = parse_record(width, bytes, at).unwrap();
    lemma_pow256_values();
    match width {
        Some(w) => {},
        None => {
            lemma_be_bytes_of_value(bytes.subrange(at, at + 4));
            lemma_be_value_bound(bytes.subrange(at, at + 4));
            assert(bytes.subrange(at, end) =~= bytes.subrange(at, at + 4) + bytes.subrange(
                at + 4,
                end,
            ));
        },
    }
}

/// Values that were written are read back as they were.
pub proof fn lemma_list_written_then_read(
    width: Option<nat>,
    before: Seq<u8>,
    list: RawList,
    after: Seq<u8>,
)
    requires
        list_fits(width, list),
    ensures
        parse_list(width, before + list_bytes(width, list) + after, before.len() as int, list.len())
            == Some((list, (before.len() + list_bytes(width, list).len()) as int)),
    decreases list.len(),
{
    let bytes = before + list_bytes(width, list) + after;
    let at = before.len() as int;
    if list.len() > 0 {
        let rest = list.drop_last();
        let last = list.last();
        let count = (list.len() - 1) as nat;
        let next = (before.len() + list_bytes(width, rest).len()) as int;
        let end = (before.len() + list_bytes(width, list).len()) as int;
        assert(record_fits(width, last));
        assert(parse_list(width, bytes, at, count) == Some((rest, next))) by {
            assert(list_fits(width, rest)) by {
                assert forall|k: int| 0 <= k < rest.len() implies record_fits(
                    width,
                    #[trigger] rest[k],
                ) by {
                    assert(rest[k] == list[k]);
                }
            }
            lemma_list_written_then_read(width, before, rest, record_bytes(width, last) + after);
            assert(bytes =~= before + list_bytes(width, rest) + (record_bytes(width, last)
                + after));
        }
        assert(parse_record(width, bytes, next) == Some((last, end))) by {
            lemma_record_written_then_read(width, before + list_bytes(width, rest), last, after);
            assert(bytes =~= (before + list_bytes(width, rest)) + record_bytes(width, last)
                + after);
        }
        assert(rest.push(last) =~= list);
    }
}

/// Values that were read are written back as the bytes they were read
/// from.
pub proof fn lemma_list_read_then_written(width: Option<nat>, bytes: Seq<u8>, at: int, count: nat)
    requires
        0 <= at <= bytes.len(),
        parse_list(width, bytes, at, count).is_some(),
    ensures
        parse_list(width, bytes, at, count).unwrap().0.len() == count,
        at <= parse_list(width, bytes, at, count).unwrap().1 <= bytes.len(),
        bytes.subrange(at, parse_list(width, bytes, at, count).unwrap().1) == list_bytes(
            width,
            parse_list(width, bytes, at, count).unwrap().0,
        ),
        list_fits(width, parse_list(width, bytes, at, count).unwrap().0),
    decreases count,
{
    if count == 0 {
        assert(bytes.subrange(at, at) =~= Seq::<u8>::empty());
    } else {
        let (rest, next) = parse_list(width, bytes, at, (count - 1) as nat).unwrap();
        lemma_list_read_then_written(width, bytes, at, (count - 1) as nat);
        lemma_record_read_then_written(width, bytes, next);
        let (value, end) = parse_record(width, bytes, next).unwrap();
        let all = rest.push(value);
        assert(all.drop_last() =~= rest);
        assert(bytes.subrange(at, end) =~= bytes.subrange(at, next) + bytes.subrange(next, end));
        assert forall|k: int| 0 <= k < count implies record_fits(width, #[trigger] all[k]) by {
            if k < count - 1 {
                assert(all[k] == rest[k]);
            }
        }
    }
}

/// Values that cannot be read cannot be read with more values after
/// them.
pub proof fn lemma_list_fails_for_more(
    width: Option<nat>,
    bytes: Seq<u8>,
    at: int,
    fewer: nat,
    count: nat,
)
    requires
        fewer <= count,
        parse_list(width, bytes, at, fewer).is_none(),
    ensures
        parse_list(width, bytes, at, count).is_none(),
    decreases count,
{
    if count > fewer {
        lemma_list_fails_for_more(width, bytes, at, fewer, (count - 1) as nat);
    }
}

pub proof fn lemma_start_step(width: Option<nat>, lists: Seq<RawList>, i: int)
    requires
        0 <= i < lists.len(),
    ensures
        start_of(width, lists, i + 1) == start_of(width, lists, i) + list_bytes(
            width,
            lists[i],
        ).len(),
        start_of(width, lists, 0) == 0,
        region_bytes(width, lists.take(i + 1)) == region_bytes(width, lists.take(i)) + list_bytes(
            width,
            lists[i],
        ),
{
    assert(lists.take(i + 1).drop_last() =~= lists.take(i));
    assert(lists.take(i + 1).last() == lists[i]);
    assert(lists.take(0) =~= Seq::<RawList>::empty());
}

pub proof fn lemma_start_grows(width: Option<nat>, lists: Seq<RawList>, i: int, later: int)
    requires
        0 <= i <= later <= lists.len(),
    ensures
        start_of(width, lists, i) <= start_of(width, lists, later),
        region_bytes(width, lists.take(later)).subrange(0, start_of(width, lists, i) as int)
            == region_bytes(width, lists.take(i)),
    decreases later - i,
{
    if i < later {
        lemma_start_step(width, lists, later - 1);
        lemma_start_grows(width, lists, i, later - 1);
        let shorter = region_bytes(width, lists.take(later - 1));
        let longer = region_bytes(width, lists.take(later));
        assert(longer.subrange(0, start_of(width, lists, i) as int) =~= shorter.subrange(
            0,
            start_of(width, lists, i) as int,
        ));
    } else {
        assert(region_bytes(width, lists.take(i)).subrange(0, start_of(width, lists, i) as int)
            =~= region_bytes(width, lists.take(i)));
    }
}

/// The values of the first points that were written are read back as
/// they were.
pub proof fn lemma_points_written_then_read(width: Option<nat>, lists: Seq<RawList>, count: nat)
    requires
        count <= lists.len(),
        forall|i: int| 0 <= i < lists.len() ==> list_fits(width, #[trigger] lists[i]),
    ensures
        parse_points(width, offsets_words(width, lists), region_bytes(width, lists), count)
            == Some((lists.take(count as int), start_of(width, lists, count as int) as int)),
    decreases count,
{
    let words = offsets_words(width, lists);
    let region = region_bytes(width, lists);
    if count == 0 {
        assert(lists.take(0) =~= Seq::<RawList>::empty());
    } else {
        let i = (count - 1) as int;
        lemma_points_written_then_read(width, lists, (count - 1) as nat);
        lemma_start_step(width, lists, i);
        let before = region_bytes(width, lists.take(i));
        let full = lists.len() as int;
        assert(lists.take(full) =~= lists);
        lemma_start_grows(width, lists, i + 1, full);
        let upto = region_bytes(width, lists.take(i + 1));
        let after = region.subrange(upto.len() as int, region.len() as int);
        assert(region =~= region.subrange(0, upto.len() as int) + after);
        assert(region =~= before + list_bytes(width, lists[i]) + after);
        lemma_list_written_then_read(width, before, lists[i], after);
        assert(words[2 * i] == start_of(width, lists, i));
        assert(words[2 * i + 1] == lists[i].len());
        assert(lists.take(i).push(lists[i]) =~= lists.take(count as int));
    }
}

/// The values of the first points that were read are written back as the
/// bytes they were read from, and the offsets say where they start.
pub proof fn lemma_points_read_then_written(
    width: Option<nat>,
    words: Seq<nat>,
    region: Seq<u8>,
    count: nat,
)
    requires
        parse_points(width, words, region, count).is_some(),
    ensures
        ({
            let (lists, end) = parse_points(width, words, region, count).unwrap();
            &&& lists.len() == count
            &&& 0 <= end <= region.len()
            &&& region.subrange(0, end) == region_bytes(width, lists)
            &&& forall|i: int| 0 <= i < count ==> list_fits(width, #[trigger] lists[i])
            &&& forall|i: int|
                0 <= i < count ==> #[trigger] words[2 * i] == start_of(width, lists, i)
            &&& forall|i: int| 0 <= i < count ==> #[trigger] words[2 * i + 1] == lists[i].len()
        }),
    decreases count,
{
    if count == 0 {
        assert(region.subrange(0, 0) =~= Seq::<u8>::empty());
    } else {
        let i = (count - 1) as int;
        let (rest, end) = parse_points(width, words, region, (count - 1) as nat).unwrap();
        lemma_points_read_then_written(width, words, region, (count - 1) as nat);
        lemma_list_read_then_written(width, region, end, words[2 * i + 1]);
        let (list, next) = parse_list(width, region, end, words[2 * i + 1]).unwrap();
        let lists = rest.push(list);
        assert(lists.drop_last() =~= rest);
        assert(region.subrange(0, next) =~= region.subrange(0, end) + region.subrange(end, next));
        assert forall|j: int| 0 <= j < count implies #[trigger] words[2 * j] == start_of(
            width,
            lists,
            j,
        ) by {
            assert(lists.take(j) =~= rest.take(j));
            if j == i {
                assert(rest.take(i) =~= rest);
            }
        }
        assert forall|j: int| 0 <= j < count implies #[trigger] words[2 * j + 1]
            == lists[j].len() by {
            if j < i {
                assert(lists[j] == rest[j]);
            }
        }
        assert forall|j: int| 0 <= j < count implies list_fits(width, #[trigger] lists[j]) by {
            if j < i {
                assert(lists[j] == rest[j]);
            }
        }
    }
}

/// Points that cannot be read cannot be read with more points after
/// them.
pub proof fn lemma_points_fail_for_more(
    width: Option<nat>,
    words: Seq<nat>,
    region: Seq<u8>,
    fewer: nat,
    count: nat,
)
    requires
        fewer <= count,
        parse_points(width, words, region, fewer).is_none(),
    ensures
        parse_points(width, words, region, count).is_none(),
    decreases count,
{
    if count > fewer {
        lemma_points_fail_for_more(width, words, region, fewer, (count - 1) as nat);
    }
}

/// Files that were written are read back as the values they were written
/// from.
pub proof fn lemma_files_written_then_read(width: Option<nat>, lists: Seq<RawList>)
    requires
        lists_fit(width, lists),
    ensures
        parse_files(
            width,
            words_bytes(offsets_words(width, lists), 8),
            region_bytes(width, lists),
        ) == Some(lists),
{
    let words = offsets_words(width, lists);
    let offsets = words_bytes(words, 8);
    lemma_words_bytes_len(words, 8);
    lemma_pow256_values();
    assert(lists.take(lists.len() as int) =~= lists);
    assert(words_fit(words, 8)) by {
        assert forall|j: int| 0 <= j < words.len() implies #[trigger] words[j] < pow256(8) by {
            if j % 2 == 0 {
                lemma_start_grows(width, lists, j / 2, lists.len() as int);
            } else {
                assert(lists[j / 2].len() < 0x1_0000_0000_0000_0000);
            }
        }
    }
    lemma_words_written_then_read(Seq::empty(), words, Seq::empty(), 8);
    assert(Seq::<u8>::empty() + offsets + Seq::<u8>::empty() =~= offsets);
    lemma_points_written_then_read(width, lists, lists.len());
}

/// Files that were read are written back as the bytes they were read
/// from.
pub proof fn lemma_files_read_then_written(width: Option<nat>, offsets: Seq<u8>, region: Seq<u8>)
    requires
        parse_files(width, offsets, region).is_some(),
        region.len() < 0x1_0000_0000_0000_0000,
    ensures
        words_bytes(offsets_words(width, parse_files(width, offsets, region).unwrap()), 8)
            == offsets,
        region_bytes(width, parse_files(width, offsets, region).unwrap()) == region,
        lists_fit(width, parse_files(width, offsets, region).unwrap()),
{
    let lists = parse_files(width, offsets, region).unwrap();
    let count = offsets.len() / 16;
    let words = words_at(offsets, 0, 2 * count, 8);
    lemma_pow256_values();
    lemma_points_read_then_written(width, words, region, count);
    lemma_words_read_then_written(offsets, 0, 2 * count, 8);
    assert(region.subrange(0, region.len() as int) =~= region);
    assert(offsets.subrange(0, offsets.len() as int) =~= offsets);
    assert(offsets_words(width, lists) =~= words) by {
        assert forall|j: int| 0 <= j < words.len() implies offsets_words(width, lists)[j]
            == words[j] by {
            if j % 2 == 0 {
                assert(words[2 * (j / 2)] == start_of(width, lists, j / 2));
            } else {
                assert(words[2 * (j / 2) + 1] == lists[j / 2].len());
            }
        }
    }
    assert forall|i: int| 0 <= i < lists.len() implies (#[trigger] lists[i]).len()
        < 0x1_0000_0000_0000_0000 by {
        assert(words[2 * i + 1] == lists[i].len());
    }
}

/// The values of every point, each by its bytes.
pub open spec fn raw_lists(lists: Seq<Vec<Vec<u8>>>) -> Seq<RawList> {
    Seq::new(lists.len(), |i: int| Seq::new(lists[i]@.len(), |k: int| lists[i]@[k]@))
}

pub open spec fn width_of(width: Option<usize>) -> Option<nat> {
    match width {
        Some(w) => Some(w as nat),
        None => None,
    }
}

fn append_slice(out: &mut Vec<u8>, src: &[u8], from: usize, to: usize)
    requires
        from <= to <= src@.len(),
    ensures
        final(out)@ == old(out)@ + src@.subrange(from as int, to as int),
{
    let mut k: usize = from;
    assert(out@ =~= old(out)@ + src@.subrange(from as int, from as int));
    while k < to
        invariant
            from <= k <= to <= src@.len(),
            out@ == old(out)@ + src@.subrange(from as int, k as int),
        decreases to - k,
    {
        out.push(src[k]);
        assert(out@ =~= old(out)@ + src@.subrange(from as int, k + 1));
        k = k + 1;
    }
}

/// The offsets file and the values file of the values of every point;
/// `None` if a value does not fit.
pub fn write_values(width: Option<usize>, lists: &Vec<Vec<Vec<u8>>>) -> (r: Option<
    (Vec<u8>, Vec<u8>),
>)
    ensures
        r.is_some() <==> forall|i: int|
            0 <= i < lists@.len() ==> list_fits(width_of(width), #[trigger] raw_lists(lists@)[i]),
        r matches Some((offsets, region)) ==> {
            &&& offsets@ == words_bytes(offsets_words(width_of(width), raw_lists(lists@)), 8)
            &&& region@ == region_bytes(width_of(width), raw_lists(lists@))
            &&& lists_fit(width_of(width), raw_lists(lists@))
        },
{
    let ghost w = width_of(width);
    let ghost raw = raw_lists(lists@);
    let mut offsets: Vec<u8> = Vec::new();
    let mut region: Vec<u8> = Vec::new();
    let mut i: usize = 0;
    proof {
        assert(raw.take(0) =~= Seq::<RawList>::empty());
        assert(Seq::new(0, |j: int| offsets_words(w, raw)[j]) =~= Seq::<nat>::empty());
    }
    while i < lists.len()
        invariant
            i <= lists@.len(),
            w == width_of(width),
            raw == raw_lists(lists@),
            region@ == region_bytes(w, raw.take(i as int)),
            offsets@ == words_bytes(Seq::new(2 * i as nat, |j: int| offsets_words(w, raw)[j]), 8),
            forall|j: int| 0 <= j < i ==> list_fits(w, #[trigger] raw[j]),
        decreases lists.len() - i,
    {
        let list = &lists[i];
        let start: usize = region.len();
        let ghost before = region@;
        let mut k: usize = 0;
        proof {
            assert(raw[i as int].take(0) =~= Seq::<Seq<u8>>::empty());
            assert(before + list_bytes(w, raw[i as int].take(0)) =~= before);
        }
        while k < list.len()
            invariant
                k <= list@.len(),
                i < lists@.len(),
                list == &lists@[i as int],
                w == width_of(width),
                raw == raw_lists(lists@),
                region@ == before + list_bytes(w, raw[i as int].take(k as int)),
                forall|j: int| 0 <= j < k ==> record_fits(w, #[trigger] raw[i as int][j]),
            decreases list.len() - k,
        {
            let value = &list[k];
            let ghost list_before = region@;
            assert(raw[i as int][k as int] == value@);
            match width {
                Some(width) => {
                    if value.len() != width {
                        assert(!list_fits(w, raw[i as int]));
                        return None;
                    }
                },
                None => {
                    if value.len() > 0xffff_ffff {
                        assert(!list_fits(w, raw[i as int]));
                        return None;
                    }
                    crate::key_encoding::push_be(&mut region, value.len() as u128, 4);
                },
            }
            append_slice(&mut region, value.as_slice(), 0, value.len());
            proof {
                assert(value@.subrange(0, value@.len() as int) =~= value@);
                assert(raw[i as int].take(k + 1).drop_last() =~= raw[i as int].take(k as int));
                assert(raw[i as int].take(k + 1).last() == value@);
                assert(region@ =~= list_before + record_bytes(w, value@));
                assert(region@ =~= before + list_bytes(w, raw[i as int].take(k + 1)));
            }
            k = k + 1;
        }
        let ghost offsets_before = offsets@;
        crate::key_encoding::push_be(&mut offsets, start as u128, 8);
        crate::key_encoding::push_be(&mut offsets, list.len() as u128, 8);
        proof {
            assert(raw[i as int].take(list@.len() as int) =~= raw[i as int]);
            lemma_start_step(w, raw, i as int);
            let words_before = Seq::new(2 * i as nat, |j: int| offsets_words(w, raw)[j]);
            let words_after = Seq::new(2 * (i + 1) as nat, |j: int| offsets_words(w, raw)[j]);
            let words_middle = words_after.drop_last();
            assert(words_middle.drop_last() =~= words_before);
            assert((2 * i + 1) % 2 == 1 && (2 * i + 1) / 2 == i);
            assert((2 * i) % 2 == 0 && (2 * i) / 2 == i);
            assert(words_after.last() == offsets_words(w, raw)[2 * i + 1]);
            assert(words_after.last() == list@.len());
            assert(words_middle.last() == offsets_words(w, raw)[2 * i]);
            assert(words_middle.last() == start);
            assert(words_bytes(words_middle, 8) == words_bytes(words_before, 8) + be_bytes(
                start as nat,
                8,
            ));
            assert(words_bytes(words_after, 8) == words_bytes(words_middle, 8) + be_bytes(
                list@.len() as nat,
                8,
            ));
            assert(offsets@ =~= offsets_before + be_bytes(start as nat, 8) + be_bytes(
                list@.len() as nat,
                8,
            ));
        }
        assert(region@ == region_bytes(w, raw.take(i + 1)));
        i = i + 1;
    }
    proof {
        assert(raw.take(lists@.len() as int) =~= raw);
        assert(Seq::new(2 * lists@.len(), |j: int| offsets_words(w, raw)[j]) =~= offsets_words(
            w,
            raw,
        ));
        assert(usize::MAX <= 0xffff_ffff_ffff_ffff) by {
            vstd::layout::unsigned_int_max_values();
        }
        assert forall|j: int| 0 <= j < raw.len() implies (#[trigger] raw[j]).len()
            < 0x1_0000_0000_0000_0000 by {
            assert(raw[j].len() == lists@[j].len());
        }
    }
    let total: usize = region.len();
    assert(offsets@ == words_bytes(offsets_words(w, raw), 8));
    assert(region@ == region_bytes(w, raw));
    assert(region_bytes(w, raw).len() < 0x1_0000_0000_0000_0000);
    assert(lists_fit(w, raw));
    Some((offsets, region))
}

/// The values that the two files hold; `None` if they are not the files
/// of a map.
pub fn read_values(width: Option<usize>, offsets: &[u8], region: &[u8]) -> (r: Option<
    Vec<Vec<Vec<u8>>>,
>)
    ensures
        r.is_some() <==> parse_files(width_of(width), offsets@, region@).is_some(),
        r matches Some(lists) ==> raw_lists(lists@) == parse_files(
            width_of(width),
            offsets@,
            region@,
        ).unwrap(),
{
    let ghost w = width_of(width);
    if offsets.len() % 16 != 0 {
        return None;
    }
    let count: usize = offsets.len() / 16;
    let ghost words = words_at(offsets@, 0, (2 * count) as nat, 8);
    let len: usize = region.len();
    let mut lists: Vec<Vec<Vec<u8>>> = Vec::new();
    let mut at: usize = 0;
    let mut i: usize = 0;
    let ghost mut parsed: Seq<RawList> = Seq::empty();
    while i < count
        invariant
            i <= count,
            count == offsets@.len() / 16,
            offsets@.len() % 16 == 0,
            offsets@.len() == offsets.len(),
            len == region@.len(),
            len == region.len(),
            at <= len,
            w == width_of(width),
            words == words_at(offsets@, 0, (2 * count) as nat, 8),
            parse_points(w, words, region@, i as nat) == Some((parsed, at as int)),
            lists@.len() == i,
            raw_lists(lists@) == parsed,
        decreases count - i,
    {
        let start: u128 = crate::key_encoding::read_be(offsets, i * 16, 8);
        let values: u128 = crate::key_encoding::read_be(offsets, i * 16 + 8, 8);
        proof {
            lemma_pow256_values();
            assert(words[2 * i] == word_at(offsets@, 0 + (2 * i) * 8, 8));
            assert(words[2 * i + 1] == word_at(offsets@, 0 + (2 * i + 1) * 8, 8));
        }
        if start != at as u128 {
            proof {
                assert(parse_points(w, words, region@, (i + 1) as nat).is_none());
                lemma_points_fail_for_more(w, words, region@, (i + 1) as nat, count as nat);
            }
            return None;
        }
        let mut list: Vec<Vec<u8>> = Vec::new();
        let mut k: u128 = 0;
        let mut cursor: usize = at;
        let ghost mut parsed_list: RawList = Seq::empty();
        let ghost list_start = at as int;
        while k < values
            invariant
                k <= values,
                i < count,
                count == offsets@.len() / 16,
                offsets@.len() % 16 == 0,
                len == region@.len(),
                len == region.len(),
                list_start <= cursor <= len,
                list_start == at,
                w == width_of(width),
                words == words_at(offsets@, 0, (2 * count) as nat, 8),
                values as nat == words[2 * i + 1],
                words[2 * i] == at,
                parse_points(w, words, region@, i as nat) == Some((parsed, at as int)),
                parse_list(w, region@, list_start, k as nat) == Some((parsed_list, cursor as int)),
                list@.len() == k,
                parsed_list.len() == k,
                forall|j: int| 0 <= j < k ==> (#[trigger] list@[j])@ == parsed_list[j],
            decreases values - k,
        {
            proof {
                lemma_pow256_values();
            }
            let (from, to) = match width {
                Some(width) => {
                    if width > len - cursor {
                        proof {
                            assert(parse_record(w, region@, cursor as int).is_none());
                            assert(parse_list(w, region@, list_start, (k + 1) as nat).is_none());
                            lemma_list_fails_for_more(
                                w,
                                region@,
                                list_start,
                                (k + 1) as nat,
                                values as nat,
                            );
                            assert(parse_points(w, words, region@, (i + 1) as nat).is_none());
                            lemma_points_fail_for_more(
                                w,
                                words,
                                region@,
                                (i + 1) as nat,
                                count as nat,
                            );
                        }
                        return None;
                    }
                    (cursor, cursor + width)
                },
                None => {
                    if len - cursor < 4 {
                        proof {
                            assert(parse_record(w, region@, cursor as int).is_none());
                            assert(parse_list(w, region@, list_start, (k + 1) as nat).is_none());
                            lemma_list_fails_for_more(
                                w,
                                region@,
                                list_start,
                                (k + 1) as nat,
                                values as nat,
                            );
                            assert(parse_points(w, words, region@, (i + 1) as nat).is_none());
                            lemma_points_fail_for_more(
                                w,
                                words,
                                region@,
                                (i + 1) as nat,
                                count as nat,
                            );
                        }
                        return None;
                    }
                    let value_len: u128 = crate::key_encoding::read_be(region, cursor, 4);
                    proof {
                        lemma_be_value_bound(region@.subrange(cursor as int, cursor + 4));
                    }
                    if value_len > (len - cursor - 4) as u128 {
                        proof {
                            assert(parse_record(w, region@, cursor as int).is_none());
                            assert(parse_list(w, region@, list_start, (k + 1) as nat).is_none());
                            lemma_list_fails_for_more(
                                w,
                                region@,
                                list_start,
                                (k + 1) as nat,
                                values as nat,
                            );
                            assert(parse_points(w, words, region@, (i + 1) as nat).is_none());
                            lemma_points_fail_for_more(
                                w,
                                words,
                                region@,
                                (i + 1) as nat,
                                count as nat,
                            );
                        }
                        return None;
                    }
                    (cursor + 4, cursor + 4 + value_len as usize)
                },
            };
            let mut value: Vec<u8> = Vec::new();
            append_slice(&mut value, region, from, to);
            proof {
                assert(value@ =~= region@.subrange(from as int, to as int));
                assert(parse_record(w, region@, cursor as int) == Some((value@, to as int)));
                parsed_list = parsed_list.push(value@);
            }
            list.push(value);
            cursor = to;
            k = k + 1;
        }
        proof {
            parsed = parsed.push(parsed_list);
            assert(raw_lists(lists@.push(list)) =~= parsed) by {
                assert forall|j: int| 0 <= j < parsed.len() implies raw_lists(
                    lists@.push(list),
                )[j] =~= parsed[j] by {
                    if j < i {
                        assert(raw_lists(lists@)[j] == parsed.drop_last()[j]);
                    }
                }
            }
        }
        lists.push(list);
        at = cursor;
        i = i + 1;
    }
    if at != len {
        return None;
    }
    Some(lists)
}

} // verus!
