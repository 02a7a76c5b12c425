use kernel_ds::bitmap::{
    bitmap_check, bitmap_clear, bitmap_clear_range, bitmap_set, bitmap_set_range, bitmap_size,
    BitMap,
};
use kernel_ds::buddy::{buddy_idx, Buddy};

fn fresh(bits: usize) -> BitMap {
    BitMap { map: vec![0u32; bitmap_size(bits) / 4], max_idx: bits - 1 }
}

#[test]
fn size_rounds_up_to_whole_words() {
    assert_eq!(bitmap_size(0), 0);
    assert_eq!(bitmap_size(1), 4);
    assert_eq!(bitmap_size(32), 4);
    assert_eq!(bitmap_size(33), 8);
    assert_eq!(bitmap_size(64), 8);
    assert_eq!(bitmap_size(100), 16);
    assert_eq!(bitmap_size(usize::MAX), (usize::MAX / 32 + 1) * 4);
}

#[test]
fn set_then_check_is_nonzero_and_clear_then_check_is_zero() {
    let mut bm = fresh(100);
    for i in [0usize, 1, 31, 32, 33, 63, 64, 99] {
        assert_eq!(bitmap_check(&bm, i), 0);
        bitmap_set(&mut bm, i);
        assert_ne!(bitmap_check(&bm, i), 0);
        assert_eq!(bitmap_check(&bm, i), 1);
    }
    assert_eq!(bm.map[0], 0x8000_0003);
    assert_eq!(bm.map[1], 0x8000_0003);
    assert_eq!(bitmap_check(&bm, 2), 0);
    for i in [0usize, 31, 33, 99] {
        bitmap_clear(&mut bm, i);
        assert_eq!(bitmap_check(&bm, i), 0);
    }
    assert_ne!(bitmap_check(&bm, 1), 0);
    assert_ne!(bitmap_check(&bm, 32), 0);
    assert_eq!(bm.map[0], 0x0000_0002);
}

#[test]
fn set_range_sets_exactly_the_range() {
    for (a, b) in [(0usize, 0usize), (3, 5), (3, 31), (3, 32), (0, 31), (0, 63), (5, 70), (32, 95), (31, 96), (10, 159), (159, 159)] {
        let mut bm = fresh(160);
        bitmap_set_range(&mut bm, a, b);
        for i in 0..160 {
            let want = a <= i && i <= b;
            assert_eq!(bitmap_check(&bm, i) != 0, want, "range {a}..={b}, bit {i}");
        }
    }
}

#[test]
fn clear_range_clears_exactly_the_range() {
    for (a, b) in [(0usize, 0usize), (3, 5), (3, 32), (0, 63), (5, 70), (31, 96), (10, 159)] {
        let mut bm = fresh(160);
        bitmap_set_range(&mut bm, 0, 159);
        bitmap_clear_range(&mut bm, a, b);
        for i in 0..160 {
            let want = !(a <= i && i <= b);
            assert_eq!(bitmap_check(&bm, i) != 0, want, "range {a}..={b}, bit {i}");
        }
    }
}

#[test]
fn interior_words_are_filled_whole() {
    let mut bm = fresh(128);
    bitmap_set_range(&mut bm, 4, 100);
    assert_eq!(bm.map, vec![0xFFFF_FFF0, 0xFFFF_FFFF, 0xFFFF_FFFF, 0x0000_001F]);
    bitmap_clear_range(&mut bm, 40, 90);
    assert_eq!(bm.map, vec![0xFFFF_FFF0, 0x0000_00FF, 0xF800_0000, 0x0000_001F]);
}

#[test]
fn empty_range_changes_nothing() {
    let mut bm = fresh(64);
    bitmap_set(&mut bm, 7);
    bitmap_set_range(&mut bm, 9, 8);
    bitmap_clear_range(&mut bm, 40, 3);
    assert_eq!(bm.map, vec![0x0000_0080, 0]);
    assert_eq!(bm.max_idx, 63);
}

#[test]
fn buddy_index_flips_the_lowest_bit() {
    assert_eq!(buddy_idx(0), 1);
    assert_eq!(buddy_idx(1), 0);
    assert_eq!(buddy_idx(6), 7);
    assert_eq!(buddy_idx(7), 6);
    assert_eq!(buddy_idx(usize::MAX), usize::MAX - 1);
    for i in 0..64usize {
        assert_eq!(buddy_idx(buddy_idx(i)), i);
        assert_eq!(buddy_idx(i), i ^ 1);
    }
}

#[test]
fn buddy_descriptor_tracks_occupancy_in_its_bitmap() {
    let mut buddy = Buddy { first_free_idx: 0, usable: 64, bitmap: fresh(64) };
    bitmap_set(&mut buddy.bitmap, buddy_idx(4));
    assert_ne!(bitmap_check(&buddy.bitmap, 5), 0);
    assert_eq!(bitmap_check(&buddy.bitmap, 4), 0);
    let copy = buddy.clone();
    assert_eq!(copy.usable, 64);
    assert_eq!(copy.first_free_idx, 0);
    assert_eq!(copy.bitmap.map, buddy.bitmap.map);
}
