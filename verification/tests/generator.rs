use max_subarray::lcg::{lcg_next, Lcg, INCREMENT, MULTIPLIER};

#[test]
fn constants_are_the_numerical_recipes_pair() {
    assert_eq!(MULTIPLIER, 1664525);
    assert_eq!(INCREMENT, 1013904223);
}

#[test]
fn first_draws_from_seed_42() {
    let mut state: u32 = 42;
    assert_eq!(lcg_next(&mut state), 1083814273);
    assert_eq!(state, 1083814273);
    assert_eq!(lcg_next(&mut state), 378494188);
    assert_eq!(state, 378494188);
    assert_eq!(lcg_next(&mut state), 2479403867);
    assert_eq!(lcg_next(&mut state), 955863294);
    assert_eq!(lcg_next(&mut state), 1613448261);
    assert_eq!(state, 1613448261);
}

#[test]
fn first_draw_is_not_the_seed() {
    let mut state: u32 = 42;
    let first = lcg_next(&mut state);
    assert_ne!(first, 42);
    // 42 * 1664525 + 1013904223 does not reach 2^32
    assert_eq!(first as u64, 42u64 * 1664525 + 1013904223);
}

#[test]
fn seed_zero_yields_the_increment() {
    let mut state: u32 = 0;
    assert_eq!(lcg_next(&mut state), 1013904223);
    let mut g = Lcg::new(0);
    assert_eq!(g.next(), Some(1013904223));
}

#[test]
fn largest_seed_wraps_around() {
    let mut state: u32 = u32::MAX;
    assert_eq!(lcg_next(&mut state), 1012239698);
    let mut g = Lcg::new(u32::MAX);
    assert_eq!(g.next(), Some(1012239698));
}

#[test]
fn every_step_matches_the_recurrence_modulo_two_to_the_32() {
    let mut state: u32 = 123456789;
    for _ in 0..1000 {
        let before = state as u64;
        let drawn = lcg_next(&mut state);
        assert_eq!(drawn as u64, (before * 1664525 + 1013904223) % (1u64 << 32));
        assert_eq!(state, drawn);
    }
}

#[test]
fn generator_value_draws_the_same_words_as_the_free_function() {
    let mut state: u32 = 42;
    let mut g = Lcg::new(42);
    for _ in 0..100 {
        assert_eq!(g.next(), Some(lcg_next(&mut state)));
    }
}

#[test]
fn generator_value_first_draws_from_seed_42() {
    let mut g = Lcg::new(42);
    assert_eq!(g.next(), Some(1083814273));
    assert_eq!(g.next(), Some(378494188));
    assert_eq!(g.next(), Some(2479403867));
}

#[test]
fn same_seed_and_count_give_the_same_sequence() {
    let mut a = Lcg::new(2024);
    let mut b = Lcg::new(2024);
    let mut first: Vec<u32> = Vec::new();
    let mut second: Vec<u32> = Vec::new();
    for _ in 0..500 {
        first.push(a.next().unwrap());
    }
    for _ in 0..500 {
        second.push(b.next().unwrap());
    }
    assert_eq!(first, second);
}

#[test]
fn resuming_from_a_drawn_word_continues_the_sequence() {
    let mut whole = Lcg::new(42);
    for _ in 0..3 {
        whole.next();
    }
    let mut resumed = Lcg::new(2479403867);
    for _ in 0..50 {
        assert_eq!(whole.next(), resumed.next());
    }
}
