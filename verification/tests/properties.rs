use rangetree::{One, RType, RangeTree, Zero};

/// The values that the listed ranges hold.
fn values(ranges: &[[i32; 2]]) -> Vec<i32> {
    let mut out = Vec::new();
    for r in ranges {
        assert!(r[0] <= r[1]);
        for v in r[0]..=r[1] {
            out.push(v);
        }
    }
    out
}

/// No two neighbors among the listed ranges overlap or touch.
fn spaced(ranges: &[[i32; 2]]) -> bool {
    ranges.windows(2).all(|w| w[0][1] + 1 < w[1][0])
}

fn check_partition(r: &RangeTree<i32>, lo: i32, hi: i32) {
    let taken = r.ranges_taken_as_vec();
    let free = r.ranges_untaken_as_vec();
    assert!(spaced(&taken));
    assert!(spaced(&free));
    let mut all = values(&taken);
    all.extend(values(&free));
    all.sort();
    let domain: Vec<i32> = (lo..=hi).collect();
    assert_eq!(all, domain);
    for v in lo..=hi {
        assert_eq!(r.has(v), values(&free).contains(&v));
    }
    assert_eq!(r.is_empty(), taken.is_empty());
    assert_eq!(r.is_full(), free.is_empty());
}

#[test]
fn new_not_full() {
    let r: RangeTree<i32> = RangeTree::new([3, 9], false);
    assert!(r.is_empty());
    assert!(!r.is_full());
    assert_eq!(r.ranges_untaken_as_vec(), vec![[3, 9]]);
    assert_eq!(r.ranges_taken_as_vec(), Vec::<[i32; 2]>::new());
}

#[test]
fn new_full() {
    let mut r: RangeTree<i32> = RangeTree::new([3, 9], true);
    assert!(!r.is_empty());
    assert!(r.is_full());
    assert_eq!(r.ranges_untaken_as_vec(), Vec::<[i32; 2]>::new());
    assert_eq!(r.ranges_taken_as_vec(), vec![[3, 9]]);
    assert_eq!(r.take_any(), None);
    assert!(!r.has(3));
    assert!(!r.retake(5));
}

#[test]
fn domain_of_one_value() {
    let mut r: RangeTree<i32> = RangeTree::new([4, 4], false);
    assert!(r.is_empty());
    assert_eq!(r.take_any(), Some(4));
    assert!(r.is_full());
    assert_eq!(r.take_any(), None);
    r.release(4);
    assert!(r.is_empty());
}

#[test]
fn has_outside_the_domain_is_true() {
    let mut r: RangeTree<i32> = RangeTree::new([0, 10], true);
    assert!(r.has(-1));
    assert!(r.has(11));
    assert!(!r.has(0));
    assert!(!r.has(10));
    r.release(10);
    assert!(r.has(10));
    assert!(r.has(1000));
}

#[test]
fn take_the_four_cases() {
    let mut r: RangeTree<i32> = RangeTree::new([0, 9], false);
    // the least value of a range
    r.take(0);
    assert_eq!(r.ranges_untaken_as_vec(), vec![[1, 9]]);
    // the greatest value of a range
    r.take(9);
    assert_eq!(r.ranges_untaken_as_vec(), vec![[1, 8]]);
    // a value within a range
    r.take(4);
    assert_eq!(r.ranges_untaken_as_vec(), vec![[1, 3], [5, 8]]);
    r.take(2);
    assert_eq!(r.ranges_untaken_as_vec(), vec![[1, 1], [3, 3], [5, 8]]);
    // the only value of a range
    r.take(3);
    assert_eq!(r.ranges_untaken_as_vec(), vec![[1, 1], [5, 8]]);
    assert_eq!(r.ranges_taken_as_vec(), vec![[0, 0], [2, 4], [9, 9]]);
}

#[test]
fn release_the_four_cases() {
    let mut r: RangeTree<i32> = RangeTree::new([0, 9], true);
    // a value that touches no free range, into the empty list
    r.release(5);
    assert_eq!(r.ranges_untaken_as_vec(), vec![[5, 5]]);
    // before the first range
    r.release(1);
    assert_eq!(r.ranges_untaken_as_vec(), vec![[1, 1], [5, 5]]);
    // behind the last range
    r.release(9);
    assert_eq!(r.ranges_untaken_as_vec(), vec![[1, 1], [5, 5], [9, 9]]);
    // between two ranges
    r.release(7);
    assert_eq!(r.ranges_untaken_as_vec(), vec![[1, 1], [5, 5], [7, 7], [9, 9]]);
    // just above a range
    r.release(2);
    assert_eq!(r.ranges_untaken_as_vec(), vec![[1, 2], [5, 5], [7, 7], [9, 9]]);
    // just below a range
    r.release(4);
    assert_eq!(r.ranges_untaken_as_vec(), vec![[1, 2], [4, 5], [7, 7], [9, 9]]);
    // the one value between two ranges
    r.release(3);
    assert_eq!(r.ranges_untaken_as_vec(), vec![[1, 5], [7, 7], [9, 9]]);
    r.release(8);
    assert_eq!(r.ranges_untaken_as_vec(), vec![[1, 5], [7, 9]]);
    r.release(6);
    assert_eq!(r.ranges_untaken_as_vec(), vec![[1, 9]]);
    r.release(0);
    assert!(r.is_empty());
}

#[test]
fn take_any_gives_the_least_free_value() {
    let mut r: RangeTree<i32> = RangeTree::new([-3, 3], false);
    r.take(-3);
    r.take(-2);
    r.take(0);
    assert_eq!(r.take_any(), Some(-1));
    assert_eq!(r.take_any(), Some(1));
    assert_eq!(r.take_any(), Some(2));
    assert_eq!(r.take_any(), Some(3));
    assert_eq!(r.take_any(), None);
    assert!(r.is_full());
}

#[test]
fn retake_says_whether_the_value_was_free() {
    let mut r: RangeTree<i32> = RangeTree::new([0, 5], false);
    assert!(r.retake(3));
    assert!(!r.retake(3));
    assert_eq!(r.ranges_taken_as_vec(), vec![[3, 3]]);
    assert!(r.retake(4));
    assert_eq!(r.ranges_taken_as_vec(), vec![[3, 4]]);
    assert!(!r.retake(4));
    assert_eq!(r.ranges_untaken_as_vec(), vec![[0, 2], [5, 5]]);
}

#[test]
fn take_then_release_leaves_the_state_as_it_was() {
    let mut r: RangeTree<i32> = RangeTree::new([-20, 20], false);
    for v in [-20, -11, -10, -9, 0, 5, 7, 19, 20] {
        r.take(v);
    }
    let taken = r.ranges_taken_as_vec();
    let free = r.ranges_untaken_as_vec();
    for v in -20..=20 {
        if r.has(v) {
            r.take(v);
            assert!(!r.has(v));
            r.release(v);
            assert_eq!(r.ranges_taken_as_vec(), taken);
            assert_eq!(r.ranges_untaken_as_vec(), free);
        }
    }
}

#[test]
fn taken_and_free_part_the_domain() {
    let mut r: RangeTree<i32> = RangeTree::new([-16, 15], false);
    check_partition(&r, -16, 15);
    let mut x: i32 = 5;
    for step in 0..400 {
        x = (x * 21 + 13) % 32;
        let v = x - 16;
        if r.has(v) {
            r.take(v);
        } else {
            r.release(v);
        }
        if step % 7 == 0 {
            let _ = r.take_any();
        }
        check_partition(&r, -16, 15);
    }
}

#[test]
fn is_empty_and_is_full_go_with_the_ranges() {
    let mut r: RangeTree<i32> = RangeTree::new([0, 2], false);
    assert!(r.is_empty() && r.ranges_taken_as_vec().is_empty());
    assert!(!r.is_full() && !r.ranges_untaken_as_vec().is_empty());
    r.take(1);
    assert!(!r.is_empty() && !r.ranges_taken_as_vec().is_empty());
    assert!(!r.is_full() && !r.ranges_untaken_as_vec().is_empty());
    r.take(0);
    r.take(2);
    assert!(!r.is_empty() && !r.ranges_taken_as_vec().is_empty());
    assert!(r.is_full() && r.ranges_untaken_as_vec().is_empty());
}

#[test]
fn clear_resets() {
    let mut r: RangeTree<i32> = RangeTree::new([0, 9], false);
    for v in [1, 3, 5, 7] {
        r.take(v);
    }
    r.clear(false);
    assert!(r.is_empty());
    assert_eq!(r.ranges_untaken_as_vec(), vec![[0, 9]]);
    r.take(4);
    r.clear(true);
    assert!(r.is_full());
    assert_eq!(r.ranges_taken_as_vec(), vec![[0, 9]]);
    r.release(4);
    assert_eq!(r.ranges_untaken_as_vec(), vec![[4, 4]]);
}

#[test]
fn whole_type_as_domain() {
    let mut r: RangeTree<i8> = RangeTree::new([-128, 127], false);
    r.take(-128);
    r.take(127);
    assert_eq!(r.ranges_taken_as_vec(), vec![[-128, -128], [127, 127]]);
    assert_eq!(r.ranges_untaken_as_vec(), vec![[-127, 126]]);
    r.release(127);
    r.release(-128);
    assert!(r.is_empty());

    let mut r: RangeTree<u8> = RangeTree::new([0, 255], true);
    r.release(255);
    r.release(0);
    assert_eq!(r.ranges_untaken_as_vec(), vec![[0, 0], [255, 255]]);
    assert_eq!(r.ranges_taken_as_vec(), vec![[1, 254]]);
}

#[test]
fn many_ranges_through_more_than_one_chunk() {
    // every second value of 4000 is free: 2000 nodes
    let mut r: RangeTree<u32> = RangeTree::new([0, 3999], false);
    for i in 0..2000u32 {
        r.take(i * 2 + 1);
    }
    let free = r.ranges_untaken_as_vec();
    assert_eq!(free.len(), 2000);
    for i in 0..2000u32 {
        assert_eq!(free[i as usize], [i * 2, i * 2]);
        assert!(r.has(i * 2));
        assert!(!r.has(i * 2 + 1));
    }
    for i in (0..2000u32).rev() {
        r.release(i * 2 + 1);
    }
    assert!(r.is_empty());
}

#[test]
fn zero_and_one_of_the_integer_types() {
    assert_eq!(<u8 as Zero>::zero(), 0u8);
    assert_eq!(<u8 as One>::one(), 1u8);
    assert_eq!(<i64 as Zero>::zero(), 0i64);
    assert_eq!(<i64 as One>::one(), 1i64);
    assert_eq!(<usize as Zero>::zero(), 0usize);
    assert_eq!(<isize as One>::one(), 1isize);
}

#[test]
fn ordinal_operations_of_the_integer_types() {
    assert!(RType::less(&-3i16, &2i16));
    assert!(!RType::less(&2i16, &2i16));
    assert!(RType::same(&7u64, &7u64));
    assert!(!RType::same(&7u64, &8u64));
    assert_eq!(RType::plus(254u8, 1u8), 255u8);
    assert_eq!(RType::minus(-127i8, 1i8), -128i8);
    assert_eq!(RType::plus(40i32, 2i32), 42i32);
    assert_eq!(RType::minus(40u32, 2u32), 38u32);
}

#[test]
fn take_any_twice_release_the_first_take_any_again() {
    let mut r: RangeTree<i32> = RangeTree::new([0, 10], false);
    assert_eq!(r.take_any(), Some(0));
    assert_eq!(r.take_any(), Some(1));
    r.release(0);
    assert_eq!(r.take_any(), Some(0));
    assert_eq!(r.ranges_taken_as_vec(), vec![[0, 1]]);
    assert_eq!(r.ranges_untaken_as_vec(), vec![[2, 10]]);
}

#[test]
fn take_all_of_a_byte_in_order_and_release_all() {
    let mut r: RangeTree<u8> = RangeTree::new([0, 255], false);
    assert!(r.is_empty());
    for i in 0..=255u8 {
        assert_eq!(r.take_any(), Some(i));
    }
    assert!(r.is_full());
    assert_eq!(r.take_any(), None);
    assert_eq!(r.ranges_taken_as_vec(), vec![[0, 255]]);
    for i in 0..=255u8 {
        r.release(i);
    }
    assert!(r.is_empty());
    assert!(!r.is_full());
}

#[test]
fn retake_after_every_even_value_was_taken() {
    let mut r: RangeTree<u8> = RangeTree::new([0, 32], false);
    for i in 0..16 {
        r.take(i * 2);
    }
    let mut free_before = 0;
    let mut taken_before = 0;
    for v in 0..32u8 {
        if r.retake(v) {
            assert_eq!(v % 2, 1);
            free_before += 1;
        } else {
            assert_eq!(v % 2, 0);
            taken_before += 1;
        }
    }
    assert_eq!(free_before, 16);
    assert_eq!(taken_before, 16);
    // 32 is the one value left
    assert_eq!(r.ranges_untaken_as_vec(), vec![[32, 32]]);
}

#[test]
fn take_and_release_around_zero() {
    let mut r: RangeTree<i32> = RangeTree::new([-10, 11], false);
    for v in [-10, 10, 11] {
        r.take(v);
    }
    assert_eq!(r.ranges_taken_as_vec(), vec![[-10, -10], [10, 11]]);
    for v in [-8, -7, 8] {
        r.take(v);
    }
    assert_eq!(r.ranges_taken_as_vec(), vec![[-10, -10], [-8, -7], [8, 8], [10, 11]]);
    for v in [-9, 9] {
        r.take(v);
    }
    assert_eq!(r.ranges_taken_as_vec(), vec![[-10, -7], [8, 11]]);
    assert_eq!(r.ranges_untaken_as_vec(), vec![[-6, 7]]);
    for v in [-9, 9] {
        r.release(v);
    }
    assert_eq!(r.ranges_taken_as_vec(), vec![[-10, -10], [-8, -7], [8, 8], [10, 11]]);
    for v in [-10, -8, -7, 8, 10, 11] {
        r.release(v);
    }
    assert!(r.is_empty());
}
