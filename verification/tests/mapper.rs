use max_subarray::lcg::lcg_next;
use max_subarray::mapper::{map_i128, map_i32};

#[test]
fn maps_by_remainder_and_offset() {
    // 25 mod 21 is 4
    assert_eq!(map_i128(25, -10, 10), -6);
    assert_eq!(map_i32(25, -10, 10), -6);
    // 1083814273 mod 21 is 10
    assert_eq!(map_i128(1083814273, -10, 10), 0);
    assert_eq!(map_i32(1083814273, -10, 10), 0);
    assert_eq!(map_i128(0, -10, 10), -10);
    assert_eq!(map_i32(0, -10, 10), -10);
    assert_eq!(map_i128(20, -10, 10), 10);
    assert_eq!(map_i32(20, -10, 10), 10);
    assert_eq!(map_i128(21, -10, 10), -10);
    assert_eq!(map_i32(21, -10, 10), -10);
}

#[test]
fn keeps_the_modulo_bias() {
    // 2^32 - 1 mod 21 is 3: the words do not spread evenly over 21 values
    assert_eq!(map_i128(u32::MAX, -10, 10), -7);
    assert_eq!(map_i32(u32::MAX, -10, 10), -7);
}

#[test]
fn range_of_one_value_maps_everything_to_it() {
    for v in [0u32, 1, 25, 1083814273, u32::MAX] {
        assert_eq!(map_i128(v, -3, -3), -3);
        assert_eq!(map_i32(v, -3, -3), -3);
        assert_eq!(map_i128(v, i128::MAX, i128::MAX), i128::MAX);
        assert_eq!(map_i32(v, i32::MIN, i32::MIN), i32::MIN);
    }
}

#[test]
fn widest_ranges_do_not_overflow() {
    assert_eq!(map_i32(1083814273, 0, i32::MAX), 1083814273);
    assert_eq!(map_i32(u32::MAX, 0, i32::MAX), i32::MAX);
    assert_eq!(map_i32(1083814273, i32::MIN, -1), -1063669375);
    assert_eq!(map_i32(u32::MAX, i32::MIN, -1), -1);
    assert_eq!(map_i128(1083814273, 0, i128::MAX), 1083814273);
    assert_eq!(map_i128(u32::MAX, 0, i128::MAX), 4294967295);
    assert_eq!(
        map_i128(1083814273, i128::MIN, -1),
        -170141183460469231731687303714800291455
    );
    assert_eq!(map_i128(0, i128::MIN, -1), i128::MIN);
}

#[test]
fn mapped_values_stay_in_the_range() {
    let ranges: [(i32, i32); 6] =
        [(-10, 10), (0, 0), (-1, 1), (5, 104), (-1000, -990), (i32::MIN, -1)];
    let mut state: u32 = 42;
    for _ in 0..2000 {
        let v = lcg_next(&mut state);
        for (lo, hi) in ranges {
            let x = map_i32(v, lo, hi);
            assert!(lo <= x && x <= hi);
            let y = map_i128(v, lo as i128, hi as i128);
            assert!(lo as i128 <= y && y <= hi as i128);
            assert_eq!(x as i128, y);
        }
    }
}

#[test]
fn first_mapped_values_from_seed_42() {
    let mut state: u32 = 42;
    let mut wide: Vec<i128> = Vec::new();
    let mut narrow: Vec<i32> = Vec::new();
    for _ in 0..8 {
        let v = lcg_next(&mut state);
        wide.push(map_i128(v, -10, 10));
        narrow.push(map_i32(v, -10, 10));
    }
    assert_eq!(wide, vec![0, 6, 7, 5, 2, 3, 10, 6]);
    assert_eq!(narrow, vec![0, 6, 7, 5, 2, 3, 10, 6]);
}
