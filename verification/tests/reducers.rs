use max_subarray::clamped;
use max_subarray::nonempty;

fn nonempty_best(values: &[i128]) -> i128 {
    let mut r = nonempty::Reducer::start(values[0]);
    for x in &values[1..] {
        r.push(*x);
    }
    r.max_so_far()
}

fn clamped_best(values: &[i32]) -> i64 {
    let mut r = clamped::Reducer::new();
    for v in values {
        r.push(*v);
    }
    r.max_sum()
}

fn largest_run_sum(values: &[i128], allow_empty: bool) -> i128 {
    let mut best: Option<i128> = if allow_empty { Some(0) } else { None };
    for i in 0..values.len() {
        let mut sum: i128 = 0;
        for j in i..values.len() {
            sum += values[j];
            if best.map_or(true, |b| sum > b) {
                best = Some(sum);
            }
        }
    }
    best.unwrap()
}

#[test]
fn nonempty_single_negative_value() {
    assert_eq!(nonempty_best(&[-3]), -3);
}

#[test]
fn nonempty_whole_stream_is_the_best_run() {
    assert_eq!(nonempty_best(&[5, -2, 3]), 6);
}

#[test]
fn nonempty_all_negative_gives_the_largest_value() {
    assert_eq!(nonempty_best(&[-5, -2, -9, -4]), -2);
    assert_eq!(nonempty_best(&[-1, -1, -1]), -1);
}

#[test]
fn nonempty_restarts_after_a_deep_dip() {
    assert_eq!(nonempty_best(&[4, -10, 3, 2, -1, 5]), 9);
    assert_eq!(nonempty_best(&[-2, 1, -3, 4, -1, 2, 1, -5, 4]), 6);
    assert_eq!(nonempty_best(&[0, 0, 0]), 0);
}

#[test]
fn nonempty_state_after_each_value() {
    let mut r = nonempty::Reducer::start(5);
    assert_eq!((r.max_so_far(), r.current_max()), (5, 5));
    r.push(-2);
    assert_eq!((r.max_so_far(), r.current_max()), (5, 3));
    r.push(3);
    assert_eq!((r.max_so_far(), r.current_max()), (6, 6));
    r.push(-10);
    assert_eq!((r.max_so_far(), r.current_max()), (6, -4));
    r.push(-1);
    assert_eq!((r.max_so_far(), r.current_max()), (6, -1));
    r.push(7);
    assert_eq!((r.max_so_far(), r.current_max()), (7, 7));
}

#[test]
fn nonempty_works_at_the_edges_of_the_value_type() {
    assert_eq!(nonempty_best(&[i128::MIN]), i128::MIN);
    assert_eq!(nonempty_best(&[i128::MIN, i128::MIN]), i128::MIN);
    assert_eq!(nonempty_best(&[i128::MIN, i128::MAX]), i128::MAX);
    assert_eq!(nonempty_best(&[i128::MAX, i128::MIN, 7]), i128::MAX);
}

#[test]
fn clamped_single_negative_value_gives_zero() {
    assert_eq!(clamped_best(&[-3]), 0);
}

#[test]
fn clamped_empty_stream_gives_zero() {
    assert_eq!(clamped_best(&[]), 0);
    let r = clamped::Reducer::new();
    assert_eq!((r.max_sum(), r.cur_sum()), (0, 0));
}

#[test]
fn clamped_whole_stream_is_the_best_run() {
    assert_eq!(clamped_best(&[5, -2, 3]), 6);
}

#[test]
fn clamped_all_negative_gives_zero() {
    assert_eq!(clamped_best(&[-5, -2, -9, -4]), 0);
}

#[test]
fn clamped_restarts_after_a_deep_dip() {
    assert_eq!(clamped_best(&[4, -10, 3, 2, -1, 5]), 9);
    assert_eq!(clamped_best(&[-2, 1, -3, 4, -1, 2, 1, -5, 4]), 6);
}

#[test]
fn clamped_state_after_each_value() {
    let mut r = clamped::Reducer::new();
    r.push(5);
    assert_eq!((r.max_sum(), r.cur_sum()), (5, 5));
    r.push(-2);
    assert_eq!((r.max_sum(), r.cur_sum()), (5, 3));
    r.push(3);
    assert_eq!((r.max_sum(), r.cur_sum()), (6, 6));
    r.push(-10);
    assert_eq!((r.max_sum(), r.cur_sum()), (6, 0));
    r.push(-1);
    assert_eq!((r.max_sum(), r.cur_sum()), (6, 0));
    r.push(7);
    assert_eq!((r.max_sum(), r.cur_sum()), (7, 7));
}

#[test]
fn clamped_sums_exceed_the_value_type() {
    assert_eq!(clamped_best(&[i32::MAX, i32::MAX, i32::MAX]), 3 * (i32::MAX as i64));
    assert_eq!(clamped_best(&[i32::MIN, i32::MIN]), 0);
    assert_eq!(clamped_best(&[i32::MAX, i32::MIN, i32::MAX]), i32::MAX as i64);
}

#[test]
fn both_reducers_agree_with_a_search_over_all_runs() {
    let streams: [&[i32]; 7] = [
        &[1],
        &[-1],
        &[3, -4, 5, -1, 2, -8, 6],
        &[-3, -1, -2],
        &[0, -1, 0],
        &[2, 2, -5, 2, 2, 2, -1],
        &[-23, -36, -21, -22, 37, 28, 35, -10, -23, -28],
    ];
    for s in streams {
        let wide: Vec<i128> = s.iter().map(|v| *v as i128).collect();
        assert_eq!(nonempty_best(&wide), largest_run_sum(&wide, false));
        assert_eq!(clamped_best(s) as i128, largest_run_sum(&wide, true));
    }
}

#[test]
fn the_reducers_differ_only_where_every_run_is_negative() {
    let streams: [&[i32]; 5] = [&[-3], &[-3, -1, -2], &[-1, 0], &[4, -9], &[-2, 7, -1]];
    for s in streams {
        let wide: Vec<i128> = s.iter().map(|v| *v as i128).collect();
        let strict = nonempty_best(&wide);
        let lenient = clamped_best(s) as i128;
        assert_eq!(lenient, if strict < 0 { 0 } else { strict });
    }
}
