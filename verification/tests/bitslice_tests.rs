use field_index::bitslice::deleted_file_len;
use field_index::bitslice::MmapBitSlice;
use field_index::bitslice::MmapBitSliceBufferedUpdateWrapper;
use field_index::counter::compute_ceil_log2;
use field_index::counter::id_bytes;
use field_index::counter::HardwareCounterCell;

#[test]
fn bit_lies_in_its_byte_at_its_weight() {
    let mut bits = MmapBitSlice::from_bytes(vec![0u8; 3]).unwrap();
    assert_eq!(bits.len(), 24);
    bits.set(0, true);
    bits.set(9, true);
    bits.set(23, true);
    assert_eq!(bits.as_bytes(), &vec![0b0000_0001, 0b0000_0010, 0b1000_0000]);
    assert_eq!(bits.get(0), Some(true));
    assert_eq!(bits.get(1), Some(false));
    assert_eq!(bits.get(9), Some(true));
    assert_eq!(bits.get(23), Some(true));
    assert_eq!(bits.get(24), None);
    assert_eq!(bits.count_ones(), 3);
    bits.set(9, false);
    bits.set(9, false);
    assert_eq!(bits.as_bytes(), &vec![1, 0, 0x80]);
    assert_eq!(bits.count_ones(), 2);
    assert_eq!(bits.into_bytes(), vec![1, 0, 0x80]);
}

#[test]
fn zeroed_bitmap_is_whole_words() {
    for (bits, bytes) in [(0usize, 0usize), (1, 8), (8, 8), (63, 8), (64, 8), (65, 16), (1000, 128)] {
        assert_eq!(deleted_file_len(bits), bytes);
        let bitmap = MmapBitSlice::zeroed(bits);
        assert_eq!(bitmap.as_bytes().len(), bytes);
        assert_eq!(bitmap.count_ones(), 0);
        assert!(bitmap.len() >= bits);
    }
}

#[test]
fn pending_write_is_seen_before_it_is_flushed() {
    let backing = MmapBitSlice::from_bytes(vec![0b0000_0100, 0]).unwrap();
    let mut bits = MmapBitSliceBufferedUpdateWrapper::new(backing);
    assert_eq!(bits.len(), 16);
    assert_eq!(bits.get(2), Some(true));
    bits.set(5, true);
    bits.set(2, false);
    bits.set(12, true);
    assert_eq!(bits.get(5), Some(true));
    assert_eq!(bits.get(2), Some(false));
    assert_eq!(bits.get(12), Some(true));
    assert_eq!(bits.get(3), Some(false));
    assert_eq!(bits.get(16), None);
    assert_eq!(bits.count_ones(), 2);
    // nothing has reached the bytes yet
    assert_eq!(bits.as_bytes(), &vec![0b0000_0100, 0]);
    bits.flush();
    assert_eq!(bits.as_bytes(), &vec![0b0010_0000, 0b0001_0000]);
    assert_eq!(bits.get(5), Some(true));
    assert_eq!(bits.get(2), Some(false));
    assert_eq!(bits.count_ones(), 2);
}

#[test]
fn last_pending_write_to_a_bit_wins() {
    let backing = MmapBitSlice::from_bytes(vec![0u8; 8]).unwrap();
    let mut bits = MmapBitSliceBufferedUpdateWrapper::new(backing);
    for index in [40usize, 3, 17, 3, 63, 0, 17] {
        bits.set(index, true);
    }
    bits.set(17, false);
    bits.set(3, false);
    bits.set(3, true);
    let set: Vec<usize> = (0..64).filter(|i| bits.get(*i) == Some(true)).collect();
    assert_eq!(set, vec![0, 3, 40, 63]);
    bits.flush();
    let set: Vec<usize> = (0..64).filter(|i| bits.get(*i) == Some(true)).collect();
    assert_eq!(set, vec![0, 3, 40, 63]);
    assert_eq!(bits.as_bytes(), &vec![0b0000_1001, 0, 0, 0, 0, 1, 0, 0x80]);
    // flushing again changes nothing
    bits.flush();
    assert_eq!(bits.count_ones(), 4);
}

#[test]
fn counter_adds_and_saturates() {
    let mut hw = HardwareCounterCell::new();
    hw.incr_read(5);
    hw.incr_write(7);
    hw.incr_read_if(false, 100);
    hw.incr_read_if(true, 1);
    assert_eq!(hw.payload_index_io_read, 6);
    assert_eq!(hw.payload_index_io_write, 7);
    hw.incr_read(usize::MAX);
    assert_eq!(hw.payload_index_io_read, usize::MAX);
    assert_eq!(id_bytes(0), 0);
    assert_eq!(id_bytes(3), 12);
    assert_eq!(id_bytes(usize::MAX), usize::MAX);
}

#[test]
fn doublings_needed_to_reach_a_number() {
    let expected = [
        (0usize, 0usize),
        (1, 0),
        (2, 1),
        (3, 2),
        (4, 2),
        (5, 3),
        (8, 3),
        (9, 4),
        (1024, 10),
        (1025, 11),
        ((1 << 24) + 1, 25),
        (usize::MAX, usize::BITS as usize),
    ];
    for (n, k) in expected {
        assert_eq!(compute_ceil_log2(n), k, "{}", n);
    }
}
