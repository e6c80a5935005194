use perfect_rand::bits::count_bits;
use perfect_rand::{PerfectRng, PerfectRngError, DEFAULT_ROUNDS};
use std::time::{Duration, Instant};

fn verify(range: u64, seed: u64, rounds: usize) {
    let randomizer = PerfectRng::new(range, seed, rounds).unwrap();
    println!("randomizer: {randomizer:?}");

    // make sure every number gets added exactly once
    let mut list = vec![0; range as usize];
    for i in 0..range {
        let x = randomizer.shuffle(i) as usize;
        list[x] += 1;
    }

    for (i, number) in list.into_iter().enumerate() {
        assert_eq!(number, 1, "Index: {i}, range: {range:?}");
    }
}

fn outputs(range: u64, seed: u64, rounds: usize, count: u64) -> Vec<u64> {
    let randomizer = PerfectRng::new(range, seed, rounds).unwrap();
    (0..count).map(|i| randomizer.shuffle(i)).collect()
}

#[test]
fn verify_ranges() {
    let mut range = 3015 * 3;

    for i in 0..5 {
        range += 11 + i;
        range *= 1 + i;

        verify(range, 0, 6);
    }

    verify(10, 0, 3);
    verify(100, 0, 3);
}

#[test]
fn dont_get_stuck() {
    for range in [10, 100] {
        for seed in 0..100 {
            let randomizer = PerfectRng::new(range, seed, 3).unwrap();

            for i in 0..range {
                let _ = randomizer.shuffle(i);
            }
        }
    }
}

#[test]
fn permutes_assorted_ranges() {
    for range in [1, 2, 3, 10, 100, 1000, 1023, 1024, 1025, 2048, 3001, 4095, 9045] {
        for rounds in [1, 2, 3, 4] {
            verify(range, 0x5eed, rounds);
        }
    }
}

#[test]
fn same_parameters_give_same_outputs() {
    let first = outputs(5000, 77, 4, 5000);
    let second = outputs(5000, 77, 4, 5000);
    assert_eq!(first, second);
    let randomizer = PerfectRng::new(5000, 77, 4).unwrap();
    for i in 0..5000 {
        assert_eq!(randomizer.shuffle(i), randomizer.shuffle(i));
    }
}

#[test]
fn outputs_stay_below_range() {
    for range in [7, 129, 1000, 65_537] {
        let randomizer = PerfectRng::new(range, 3, 3).unwrap();
        for i in 0..range {
            assert!(randomizer.shuffle(i) < range);
        }
    }
}

#[test]
fn distinct_seeds_give_distinct_permutations() {
    let first = outputs(10_000, 1, 4, 10_000);
    let second = outputs(10_000, 2, 4, 10_000);
    let differing = first.iter().zip(second.iter()).filter(|(x, y)| x != y).count();
    assert!(differing > 5_000, "only {differing} inputs differ");
}

#[test]
fn cycle_walk_stays_cheap() {
    let start = Instant::now();
    for range in (1..=200u64).map(|k| k * 997 + 3) {
        let randomizer = PerfectRng::new(range, range, 4).unwrap();
        for i in 0..range.min(500) {
            assert!(randomizer.shuffle(i) < range);
        }
    }
    assert!(start.elapsed() < Duration::from_secs(10));
}

#[test]
fn sweep_is_not_monotonic() {
    let randomizer = PerfectRng::new(65_536, 0, 4).unwrap();
    let mut previous = randomizer.shuffle(0);
    let mut up: i64 = 0;
    let mut down: i64 = 0;
    for i in 1..65_536 {
        let current = randomizer.shuffle(i);
        if current > previous {
            up += 1;
        } else if current < previous {
            down += 1;
        }
        previous = current;
    }
    assert!((up - down).abs() < 400, "up {up}, down {down}");
}

#[test]
fn single_element_range() {
    let randomizer = PerfectRng::new(1, 12345, 3).unwrap();
    assert_eq!(randomizer.shuffle(0), 0);
    let randomizer = PerfectRng::new(1, 0, 4).unwrap();
    assert_eq!(randomizer.shuffle(0), 0);
}

#[test]
fn ten_elements_four_rounds() {
    let mut seen = outputs(10, 0, 4, 10);
    seen.sort();
    assert_eq!(seen, (0..10).collect::<Vec<u64>>());
}

#[test]
fn hundred_elements_four_rounds() {
    let mut seen = outputs(100, 0, 4, 100);
    seen.sort();
    assert_eq!(seen, (0..100).collect::<Vec<u64>>());
}

#[test]
fn ipv4_sized_range() {
    for seed in [0, 1, 0xdead_beef] {
        let randomizer = PerfectRng::new(1 << 32, seed, 3).unwrap();
        let first = randomizer.shuffle(0);
        let second = randomizer.shuffle(1);
        assert_ne!(first, second);
        assert!(first < 1 << 32);
        assert!(second < 1 << 32);
    }
}

#[test]
fn empty_range_is_refused() {
    assert_eq!(PerfectRng::new(0, 0, 3).unwrap_err(), PerfectRngError::EmptyRange);
    assert_eq!(PerfectRng::from_range(0).unwrap_err(), PerfectRngError::EmptyRange);
}

#[test]
fn exact_outputs_even_rounds() {
    assert_eq!(outputs(10, 0, 4, 10), vec![2, 0, 4, 1, 6, 9, 8, 5, 3, 7]);
    assert_eq!(outputs(100, 0, 4, 10), vec![83, 75, 33, 50, 17, 40, 56, 52, 54, 59]);
    assert_eq!(outputs(1 << 32, 12345, 4, 3), vec![1644909758, 4162725470, 3108252150]);
}

#[test]
fn exact_outputs_odd_rounds() {
    assert_eq!(outputs(10, 0, 3, 10), vec![1, 4, 8, 0, 2, 5, 7, 6, 3, 9]);
    assert_eq!(outputs(1 << 32, 0, 3, 3), vec![3151023262, 2584378818, 847419307]);
}

#[test]
fn largest_range() {
    assert_eq!(
        outputs(u64::MAX, 7, 4, 3),
        vec![668775353649873300, 2932892062278000739, 1282607234893930534]
    );
}

#[test]
fn parameters_split_the_bits() {
    let randomizer = PerfectRng::new(10, 0, 4).unwrap();
    assert_eq!(
        format!("{randomizer:?}"),
        "PerfectRng { range: 10, seed: 0, rounds: 4, a_bits: 2, b_bits: 2, a_mask: 3, b_mask: 3 }"
    );
    let randomizer = PerfectRng::new(100, 5, 3).unwrap();
    assert_eq!(
        format!("{randomizer:?}"),
        "PerfectRng { range: 100, seed: 5, rounds: 3, a_bits: 4, b_bits: 3, a_mask: 15, b_mask: 7 }"
    );
    let randomizer = PerfectRng::new(1, 5, 3).unwrap();
    assert_eq!(
        format!("{randomizer:?}"),
        "PerfectRng { range: 1, seed: 5, rounds: 3, a_bits: 0, b_bits: 0, a_mask: 0, b_mask: 0 }"
    );
}

#[test]
fn random_seed_generator_permutes() {
    let randomizer = PerfectRng::from_range(100).unwrap();
    let mut seen: Vec<u64> = (0..100).map(|i| randomizer.shuffle(i)).collect();
    seen.sort();
    assert_eq!(seen, (0..100).collect::<Vec<u64>>());
    assert_eq!(DEFAULT_ROUNDS, 3);
    assert!(format!("{randomizer:?}").contains("rounds: 3"));
}

#[test]
fn count_bits_gives_highest_bit_position() {
    assert_eq!(count_bits(0), 0);
    assert_eq!(count_bits(1), 0);
    assert_eq!(count_bits(2), 1);
    assert_eq!(count_bits(3), 1);
    assert_eq!(count_bits(4), 2);
    assert_eq!(count_bits(16), 4);
    assert_eq!(count_bits(1 << 63), 63);
    assert_eq!(count_bits(u64::MAX), 63);
}
