use cwago_utility::layout::{pow2_ceil_checked, region_layout};
use cwago_utility::pool::Pool;

#[test]
fn test_pool() {
    // A pool of zero-sized slots is refused.
    assert!(Pool::new(0, 1).is_none(), "a slot size of 0 did not fail");

    // A pool of no slots is refused.
    assert!(Pool::new(1, 0).is_none(), "a slot count of 0 did not fail");

    const SIZE_MAX: usize = 256;
    const COUNT_MAX: usize = 256;

    let mut ptrs = [0usize; 256];

    for size in 1..SIZE_MAX {
        for count in 1..COUNT_MAX {
            let mut pool = if let Some(pool) = Pool::new(size, count) {
                pool
            } else {
                panic!("size:{} count:{} could not be made", size, count)
            };

            // The pool can be drained and refilled again and again.
            for _lap in 0..3usize {
                for i in 0..count {
                    let got = pool.acquire();
                    assert_ne!(got, None, "acquisition {} failed", i);
                    ptrs[i] = got.unwrap();
                }
                let ptr_min = ptrs[0];
                let ptr_max = ptrs[count - 1];
                let ptr_less = ptr_min.wrapping_sub(1);
                let ptr_over = ptr_max + 1;
                assert!(pool.is_manage(ptr_min), "the first slot was refused");
                assert!(pool.is_manage(ptr_max), "the last slot was refused");
                assert!(!pool.is_manage(ptr_less), "the byte before a slot was accepted");
                assert!(!pool.is_manage(ptr_over), "the byte after a slot start was accepted");

                // No two slots overlap.
                for i in 0..count {
                    assert!(pool.write_bytes(ptrs[i], &[i as u8]));
                }
                for i in 0..count {
                    assert_eq!(
                        pool.read_byte(ptrs[i], 0),
                        Some(i as u8),
                        "slot {} held {:?}",
                        i,
                        pool.read_byte(ptrs[i], 0)
                    );
                }

                for i in 0..count {
                    assert!(pool.dealloc(ptrs[i]), "slot {} could not be released", i);
                }
            }
        }
    }
}

#[test]
fn eight_by_four_cycles() {
    let mut pool = Pool::new(8, 4).unwrap();
    for _lap in 0..3usize {
        let mut slots: Vec<usize> = Vec::new();
        for _ in 0..4 {
            let a = pool.acquire().unwrap();
            assert!(pool.is_manage(a));
            assert!(!slots.contains(&a));
            slots.push(a);
        }
        assert_eq!(pool.acquire(), None);
        for (i, a) in slots.iter().enumerate() {
            assert!(pool.write_bytes(*a, &[i as u8]));
        }
        for (i, a) in slots.iter().enumerate() {
            assert_eq!(pool.read_byte(*a, 0), Some(i as u8));
        }
        for a in slots.iter() {
            assert!(pool.dealloc(*a));
        }
        assert_eq!(pool.available(), 4);
    }
}

#[test]
fn zero_size_or_count_is_refused() {
    assert!(Pool::new(0, 1).is_none());
    assert!(Pool::new(1, 0).is_none());
    assert!(Pool::new(0, 0).is_none());
    assert!(region_layout(0, 5).is_none());
    assert!(region_layout(5, 0).is_none());
}

#[test]
fn largest_small_pool_is_made() {
    let pool = Pool::new(256, 256).unwrap();
    assert_eq!(pool.stride(), 256);
    assert_eq!(pool.capacity(), 256);
    assert_eq!(pool.available(), 256);
    assert_eq!(pool.align(), 65536);
}

#[test]
fn stride_is_word_then_power_of_two() {
    assert_eq!(Pool::new(1, 1).unwrap().stride(), 8);
    assert_eq!(Pool::new(8, 1).unwrap().stride(), 8);
    assert_eq!(Pool::new(9, 1).unwrap().stride(), 16);
    assert_eq!(Pool::new(100, 1).unwrap().stride(), 128);
    assert_eq!(Pool::new(129, 1).unwrap().stride(), 256);
}

#[test]
fn region_alignment_covers_region() {
    assert_eq!(Pool::new(8, 3).unwrap().align(), 32);
    assert_eq!(Pool::new(100, 5).unwrap().align(), 1024);
    assert_eq!(Pool::new(16, 4).unwrap().align(), 64);
    let l = region_layout(3, 5).unwrap();
    assert_eq!((l.stride, l.count, l.size, l.align), (8, 5, 40, 64));
}

#[test]
fn power_of_two_rounding() {
    assert_eq!(pow2_ceil_checked(0), Some(1));
    assert_eq!(pow2_ceil_checked(1), Some(1));
    assert_eq!(pow2_ceil_checked(5), Some(8));
    assert_eq!(pow2_ceil_checked(8), Some(8));
    assert_eq!(pow2_ceil_checked(1000), Some(1024));
    assert_eq!(pow2_ceil_checked(usize::MAX), None);
    assert_eq!(pow2_ceil_checked(usize::MAX / 2 + 2), None);
}

#[test]
fn oversized_layouts_are_refused() {
    assert!(Pool::new(usize::MAX, 1).is_none());
    assert!(Pool::new(1, usize::MAX).is_none());
    assert!(region_layout(1 << 40, 1 << 30).is_none());
}

#[test]
fn unreservable_region_is_refused() {
    // A valid layout far larger than any machine's memory.
    assert!(region_layout(1 << 61, 1).is_some());
    assert!(Pool::new(1 << 61, 1).is_none());
}

#[test]
fn first_acquire_is_highest_slot() {
    let mut pool = Pool::new(8, 4).unwrap();
    assert_eq!(pool.acquire(), Some(24));
    assert_eq!(pool.acquire(), Some(16));
    assert_eq!(pool.acquire(), Some(8));
    assert_eq!(pool.acquire(), Some(0));
    assert_eq!(pool.acquire(), None);
}

#[test]
fn last_released_is_reused_first() {
    let mut pool = Pool::new(16, 3).unwrap();
    let a = pool.acquire().unwrap();
    let b = pool.acquire().unwrap();
    assert!(pool.dealloc(a));
    assert!(pool.dealloc(b));
    assert_eq!(pool.acquire(), Some(b));
    assert_eq!(pool.acquire(), Some(a));
}

#[test]
fn foreign_release_changes_nothing() {
    let mut pool = Pool::new(8, 4).unwrap();
    let a = pool.acquire().unwrap();
    assert_eq!(pool.available(), 3);
    assert!(!pool.dealloc(32));
    assert!(!pool.dealloc(a + 1));
    assert!(!pool.dealloc(3));
    assert!(!pool.dealloc(usize::MAX));
    assert_eq!(pool.available(), 3);
    assert!(pool.dealloc(a));
    assert_eq!(pool.available(), 4);
}

#[test]
fn interior_and_outside_addresses_are_not_slots() {
    let pool = Pool::new(10, 4).unwrap();
    assert!(pool.is_manage(0));
    assert!(pool.is_manage(48));
    assert!(!pool.is_manage(1));
    assert!(!pool.is_manage(15));
    assert!(!pool.is_manage(47));
    assert!(!pool.is_manage(49));
    assert!(!pool.is_manage(64));
}

#[test]
fn written_pattern_reads_back() {
    let mut pool = Pool::new(12, 2).unwrap();
    let a = pool.acquire().unwrap();
    let b = pool.acquire().unwrap();
    let pattern: Vec<u8> = (0..16u8).map(|x| x * 3 + 1).collect();
    assert!(pool.write_bytes(a, &pattern));
    assert!(pool.write_bytes(b, &[9, 9]));
    for (i, v) in pattern.iter().enumerate() {
        assert_eq!(pool.read_byte(a, i), Some(*v));
    }
    assert_eq!(pool.read_byte(b, 0), Some(9));
    assert_eq!(pool.read_byte(b, 1), Some(9));
}

#[test]
fn out_of_slot_access_is_refused() {
    let mut pool = Pool::new(8, 2).unwrap();
    let a = pool.acquire().unwrap();
    assert!(!pool.write_bytes(a, &[0u8; 9]));
    assert!(!pool.write_bytes(a + 1, &[1]));
    assert!(!pool.write_bytes(16, &[1]));
    assert_eq!(pool.read_byte(a, 8), None);
    assert_eq!(pool.read_byte(a + 2, 0), None);
    assert_eq!(pool.read_byte(16, 0), None);
}

#[test]
fn single_slot_pool() {
    let mut pool = Pool::new(1, 1).unwrap();
    assert_eq!(pool.acquire(), Some(0));
    assert_eq!(pool.acquire(), None);
    assert!(!pool.is_manage(usize::MAX));
    assert!(!pool.is_manage(1));
    assert!(pool.dealloc(0));
    assert_eq!(pool.available(), 1);
}
