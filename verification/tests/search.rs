use search_sort::search::binary;
use search_sort::search::binary_first;
use search_sort::search::floor_sqrt;
use search_sort::search::jump;
use search_sort::search::jump_step;
use search_sort::search::linear;
use search_sort::sort::quick;

#[test]
fn linear_test() {
    assert_eq!(linear(&[0, 5, -7, 100, 67, -23], &-7), Some(2));
    assert_eq!(linear(&[11, -25, 12, 85, -8], &6), None)
}

#[test]
fn binary_test() {
    let fib = [1, 1, 2, 3, 5, 8, 13, 21];
    assert_eq!(binary(&fib, &5), Some(4));
    assert_eq!(binary(&fib, &21), Some(7));

    let primes = [1, 2, 3, 5, 7, 11, 13, 17];
    assert_eq!(binary(&primes, &8), None);
    assert_eq!(binary(&primes, &0), None);
    assert_eq!(binary(&primes, &18), None);
}

#[test]
fn binary_first_test() {
    assert_eq!(binary(&[1, 1, 2, 3], &1), Some(1));
    assert_eq!(binary_first(&[1, 1, 2, 3], &1), Some(0));
}

#[test]
fn linear_finds_and_misses() {
    let slice = [1, 85, 23, -4, 8];
    assert_eq!(linear(&slice, &23), Some(2));
    assert_eq!(linear(&slice, &-77), None);
}

#[test]
fn linear_returns_the_first_of_equal_elements() {
    assert_eq!(linear(&[4, 9, 4, 9, 9], &9), Some(1));
    assert_eq!(linear(&[4, 9, 4, 9, 9], &4), Some(0));
}

#[test]
fn linear_works_without_an_order() {
    let words = ["pear", "fig", "plum"];
    assert_eq!(linear(&words, &"plum"), Some(2));
    assert_eq!(linear(&words, &"kiwi"), None);
}

#[test]
fn searches_find_nothing_in_an_empty_slice() {
    let empty: [i32; 0] = [];
    assert_eq!(linear(&empty, &1), None);
    assert_eq!(binary(&empty, &1), None);
    assert_eq!(binary_first(&empty, &1), None);
    assert_eq!(jump(&empty, &1), None);
    assert_eq!(jump_step(&empty, &1, 0), None);
    assert_eq!(jump_step(&empty, &1, 1), None);
    assert_eq!(jump_step(&empty, &1, 2), None);
    assert_eq!(jump_step(&empty, &1, 7), None);
}

#[test]
fn binary_on_one_element() {
    assert_eq!(binary(&[7], &7), Some(0));
    assert_eq!(binary(&[7], &6), None);
    assert_eq!(binary(&[7], &8), None);
}

#[test]
fn binary_probes_the_middle_first() {
    let slice = [1, 2, 4, 8, 16, 32];
    assert_eq!(binary(&slice, &8), Some(3));
    assert_eq!(binary(&slice, &3), None);
    // of five equal elements the one in the middle is met first
    assert_eq!(binary(&[6, 6, 6, 6, 6], &6), Some(2));
    // the half after the middle is searched from its own middle
    assert_eq!(binary(&[1, 2, 3, 4, 4, 4, 4], &4), Some(3));
    assert_eq!(binary(&[1, 2, 3, 3, 4, 4, 4], &4), Some(5));
}

#[test]
fn binary_finds_every_element_of_a_sorted_slice() {
    let slice = [-9, -4, -4, 0, 3, 3, 3, 8, 12, 40, 41];
    for v in -12..45 {
        let expected = linear(&slice, &v).is_some();
        match binary(&slice, &v) {
            Some(i) => {
                assert!(expected);
                assert_eq!(slice[i], v);
            }
            None => assert!(!expected),
        }
    }
}

#[test]
fn binary_first_returns_the_smallest_position() {
    let slice = [-9, -4, -4, 0, 3, 3, 3, 8, 12, 40, 41];
    for v in -12..45 {
        assert_eq!(binary_first(&slice, &v), linear(&slice, &v));
    }
    assert_eq!(binary_first(&[6, 6, 6, 6, 6], &6), Some(0));
    assert_eq!(binary_first(&[1, 6, 6, 6, 6], &6), Some(1));
    assert_eq!(binary_first(&[1, 2, 3], &4), None);
}

#[test]
fn binary_first_after_quick() {
    let mut slice = [5, 1, 91, -45, 11, 5];
    quick(&mut slice);
    assert_eq!(slice, [-45, 1, 5, 5, 11, 91]);

    assert_eq!(Some(2), binary_first(&slice, &5));
    assert_eq!(None, binary_first(&slice, &42));
}

#[test]
fn jump_finds_fifteen() {
    let slice = [1, 5, 7, 15, 31, 32, 45];
    assert_eq!(jump(&slice, &15), Some(3));
}

#[test]
fn jump_agrees_with_linear_on_presence() {
    let slices: [&[i32]; 8] = [
        &[],
        &[3],
        &[3, 3],
        &[1, 2, 3],
        &[1, 5, 7, 15],
        &[1, 5, 7, 15, 31, 32, 45],
        &[0, 0, 1, 1, 1, 2, 4, 4, 9],
        &[-7, -7, -3, 0, 2, 2, 2, 2, 5, 6, 6, 8, 13, 13, 21, 34, 34],
    ];
    for slice in slices {
        for v in -10..50 {
            let found = jump(slice, &v);
            assert_eq!(found.is_some(), linear(slice, &v).is_some());
            if let Some(i) = found {
                assert_eq!(slice[i], v);
            }
        }
    }
}

#[test]
fn jump_step_agrees_with_linear_for_steps_within_the_slice() {
    let slice = [-7, -7, -3, 0, 2, 2, 2, 2, 5, 6, 6, 8, 13, 13, 21, 34, 34];
    for step in 1..=slice.len() {
        for v in -10..40 {
            let found = jump_step(&slice, &v, step);
            assert_eq!(found.is_some(), linear(&slice, &v).is_some());
            if let Some(i) = found {
                assert_eq!(slice[i], v);
            }
        }
    }
}

#[test]
fn jump_step_of_one_is_linear() {
    let slice = [2, 4, 4, 4, 8];
    assert_eq!(jump_step(&slice, &4, 1), Some(1));
    assert_eq!(jump_step(&slice, &5, 1), None);
    // no order is needed for a step of one
    assert_eq!(jump_step(&[9, 1, 5], &5, 1), Some(2));
}

#[test]
fn jump_step_of_zero_looks_at_the_first_element_only() {
    assert_eq!(jump_step(&[2, 4, 8], &2, 0), Some(0));
    assert_eq!(jump_step(&[2, 4, 8], &4, 0), None);
    assert_eq!(jump_step(&[2, 4, 8], &1, 0), None);
}

#[test]
fn jump_step_answers_with_the_jump_that_lands_on_the_value() {
    // the second jump lands on position 2, although position 1 holds an equal element
    assert_eq!(jump_step(&[0, 1, 1, 1], &1, 2), Some(2));
    assert_eq!(jump_step(&[1, 1, 1, 1], &1, 2), Some(0));
}

#[test]
fn jump_step_searches_the_block_before_the_overshoot() {
    let slice = [1, 5, 7, 15, 31, 32, 45];
    assert_eq!(jump_step(&slice, &7, 3), Some(2));
    assert_eq!(jump_step(&slice, &5, 3), Some(1));
    assert_eq!(jump_step(&slice, &6, 3), None);
    assert_eq!(jump_step(&slice, &15, 3), Some(3));
}

#[test]
fn jump_step_searches_the_rest_after_the_last_jump() {
    let slice = [1, 5, 7, 15, 31, 32, 45];
    assert_eq!(jump_step(&slice, &45, 3), Some(6));
    assert_eq!(jump_step(&slice, &31, 3), Some(4));
    assert_eq!(jump_step(&slice, &46, 3), None);
    assert_eq!(jump_step(&slice, &45, 7), Some(6));
}

#[test]
fn jump_step_gives_up_below_the_first_element() {
    assert_eq!(jump_step(&[1, 5, 7, 15, 31, 32, 45], &0, 2), None);
    assert_eq!(jump_step(&[1, 5, 7, 15, 31, 32, 45], &-3, 7), None);
}

#[test]
fn jump_step_longer_than_the_slice_makes_no_jump() {
    // without a jump the first element is never looked at
    assert_eq!(jump_step(&[5], &5, 2), None);
    assert_eq!(jump_step(&[1, 5, 7], &1, 4), None);
    assert_eq!(jump_step(&[1, 5, 7], &5, 4), Some(1));
    assert_eq!(jump_step(&[1, 5, 7], &7, usize::MAX), Some(2));
}

#[test]
fn floor_sqrt_rounds_down() {
    assert_eq!(floor_sqrt(0), 0);
    assert_eq!(floor_sqrt(1), 1);
    assert_eq!(floor_sqrt(2), 1);
    assert_eq!(floor_sqrt(3), 1);
    assert_eq!(floor_sqrt(4), 2);
    assert_eq!(floor_sqrt(8), 2);
    assert_eq!(floor_sqrt(9), 3);
    assert_eq!(floor_sqrt(15), 3);
    assert_eq!(floor_sqrt(16), 4);
    assert_eq!(floor_sqrt(17), 4);
    assert_eq!(floor_sqrt(99), 9);
    assert_eq!(floor_sqrt(100), 10);
    assert_eq!(floor_sqrt(1_000_000), 1000);
    assert_eq!(floor_sqrt(999_999), 999);
}

#[test]
fn floor_sqrt_of_every_small_number() {
    for n in 0usize..5000 {
        let r = floor_sqrt(n);
        assert!(r * r <= n);
        assert!((r + 1) * (r + 1) > n);
    }
}

#[test]
fn floor_sqrt_of_the_greatest_number() {
    let r = floor_sqrt(usize::MAX) as u128;
    assert!(r * r <= usize::MAX as u128);
    assert!((r + 1) * (r + 1) > usize::MAX as u128);
}
