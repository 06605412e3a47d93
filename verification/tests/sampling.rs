use random_choice::{RandomChoice, SamplingError};
use std::collections::HashMap;

#[test]
fn test_random_choice_64() {
    let capacity: usize = 1000;
    let mut samples: Vec<usize> = Vec::with_capacity(capacity);
    let mut weights: Vec<u64> = Vec::with_capacity(capacity);

    for i in 0..capacity {
        samples.push(i + 1);
        weights.push((i + 1) as u64);
    }

    let choices = RandomChoice::random_choice(&samples, &weights, 4 as usize);
    assert_eq!(choices.len(), 4);

    let mut weight_counter: HashMap<&usize, usize> = HashMap::with_capacity(capacity);

    for choice in choices {
        let counter = weight_counter.entry(choice).or_insert(0);
        *counter += 1;
    }

    for key in weight_counter.keys() {
        println!("{}", key);
    }
}

#[test]
fn test_random_choice_in_place_64() {
    let mut samples = vec!["hi", "this", "is", "a", "test!"];
    let weights: Vec<u64> = vec![1, 1, 1, 1, 1];

    RandomChoice::random_choice_in_place(&mut samples, &weights);

    for sample in &samples {
        println!("{}, ", sample);
    }
    assert_eq!(samples, vec!["hi", "this", "is", "a", "test!"]);
}

#[test]
fn allocating_result_has_n_elements() {
    let samples: Vec<char> = vec!['a', 'b', 'c'];
    let weights: Vec<u64> = vec![2, 5, 3];
    for n in 1..40usize {
        assert_eq!(RandomChoice::random_choice(&samples, &weights, n).len(), n);
        for spin in 0..=10u64 {
            let choices = RandomChoice::random_choice_with_spin(&samples, &weights, n, spin);
            assert_eq!(choices.len(), n);
        }
    }
}

#[test]
fn in_place_keeps_the_length() {
    let weights: Vec<u64> = vec![2, 0, 5, 3, 1];
    for spin in 0..=11u64 {
        let mut samples: Vec<u32> = vec![10, 20, 30, 40, 50];
        RandomChoice::random_choice_in_place_with_spin(&mut samples, &weights, spin);
        assert_eq!(samples.len(), 5);
    }
    let mut samples: Vec<u32> = vec![10, 20, 30, 40, 50];
    RandomChoice::random_choice_in_place(&mut samples, &weights);
    assert_eq!(samples.len(), 5);
}

#[test]
fn choices_borrow_the_samples_themselves() {
    let samples: Vec<String> = vec!["x".to_string(), "x".to_string(), "x".to_string()];
    let weights: Vec<u64> = vec![3, 1, 4];
    // arcs end at 12, 16, 32 on the wheel scaled by 4; spokes stand at 5, 13, 21, 29
    let choices = RandomChoice::random_choice_with_spin(&samples, &weights, 4, 5);
    let expected: [usize; 4] = [0, 1, 2, 2];
    for k in 0..4usize {
        assert!(std::ptr::eq(choices[k], &samples[expected[k]]));
    }
    let drawn = RandomChoice::random_choice(&samples, &weights, 7);
    for choice in drawn {
        assert!(samples.iter().any(|sample| std::ptr::eq(choice, sample)));
    }
}

#[test]
fn exact_picks_for_given_spins() {
    let samples: Vec<usize> = vec![0, 1, 2];
    let weights: Vec<u64> = vec![3, 1, 4];
    let pick = |spin: u64| -> Vec<usize> {
        RandomChoice::random_choice_with_spin(&samples, &weights, 4, spin)
            .into_iter()
            .copied()
            .collect()
    };
    assert_eq!(pick(0), vec![0, 0, 1, 2]);
    assert_eq!(pick(4), vec![0, 0, 2, 2]);
    assert_eq!(pick(5), vec![0, 1, 2, 2]);
    assert_eq!(pick(8), vec![0, 1, 2, 2]);
}

#[test]
fn uniform_weights_converge_to_equal_shares() {
    let samples: Vec<usize> = vec![0, 1, 2, 3];
    let weights: Vec<u64> = vec![1, 1, 1, 1];
    let mut seen: [usize; 4] = [0; 4];
    let trials: usize = 8000;
    for _ in 0..trials {
        let choices = RandomChoice::random_choice(&samples, &weights, 1);
        seen[*choices[0]] += 1;
    }
    for count in seen {
        assert!(count > 1600 && count < 2400, "count {} is far from 2000", count);
    }
}

#[test]
fn heavy_item_is_selected_more_often() {
    let samples: Vec<usize> = vec![0, 1, 2, 3];
    let weights: Vec<u64> = vec![10, 1, 1, 1];
    let mut seen: [usize; 4] = [0; 4];
    for _ in 0..2600 {
        let choices = RandomChoice::random_choice(&samples, &weights, 1);
        seen[*choices[0]] += 1;
    }
    assert!(seen[0] > 1700 && seen[0] < 2300, "count {} is far from 2000", seen[0]);
    assert!(seen[0] > 3 * seen[1]);
    assert!(seen[0] > 3 * seen[2]);
    assert!(seen[0] > 3 * seen[3]);
}

#[test]
fn one_round_of_spokes_gives_exact_shares() {
    let samples: Vec<usize> = vec![0, 1, 2, 3];
    let weights: Vec<u64> = vec![10, 1, 1, 1];
    for _ in 0..50 {
        let choices = RandomChoice::random_choice(&samples, &weights, 13);
        let picked: Vec<usize> = choices.into_iter().copied().collect();
        assert_eq!(picked, vec![0, 0, 0, 0, 0, 0, 0, 0, 0, 0, 1, 2, 3]);
    }
}

#[test]
fn no_weights_give_no_choices() {
    let samples: Vec<char> = vec!['a', 'b', 'c'];
    let weights: Vec<u64> = Vec::new();
    assert!(RandomChoice::random_choice(&samples, &weights, 5).is_empty());
    assert!(RandomChoice::random_choice_with_spin(&samples, &weights, 5, 0).is_empty());
    assert_eq!(RandomChoice::try_random_choice(&samples, &weights, 5), Ok(Vec::new()));
}

#[test]
fn zero_count_gives_no_choices() {
    let samples: Vec<char> = vec!['a', 'b', 'c'];
    let weights: Vec<u64> = vec![1, 1, 1];
    assert!(RandomChoice::random_choice(&samples, &weights, 0).is_empty());
    assert!(RandomChoice::random_choice_with_spin(&samples, &weights, 0, 2).is_empty());
    assert_eq!(RandomChoice::try_random_choice(&samples, &weights, 0), Ok(Vec::new()));
}

#[test]
fn single_sample_is_left_alone_in_place() {
    let mut samples: Vec<char> = vec!['a'];
    let weights: Vec<u64> = vec![1];
    RandomChoice::random_choice_in_place(&mut samples, &weights);
    assert_eq!(samples, vec!['a']);
    RandomChoice::random_choice_in_place_with_spin(&mut samples, &weights, 1);
    assert_eq!(samples, vec!['a']);
    assert_eq!(RandomChoice::try_random_choice_in_place(&mut samples, &weights), Ok(()));
    assert_eq!(samples, vec!['a']);
    let mut nothing: Vec<char> = Vec::new();
    RandomChoice::random_choice_in_place(&mut nothing, &[]);
    assert!(nothing.is_empty());
}

#[test]
fn fixed_spin_gives_the_same_choices_again() {
    let samples: Vec<u32> = vec![7, 8, 9, 10, 11, 12];
    let weights: Vec<u64> = vec![5, 0, 2, 9, 1, 3];
    for spin in 0..=20u64 {
        let first = RandomChoice::random_choice_with_spin(&samples, &weights, 9, spin);
        let second = RandomChoice::random_choice_with_spin(&samples, &weights, 9, spin);
        assert_eq!(first, second);
        let mut one = samples.clone();
        let mut other = samples.clone();
        RandomChoice::random_choice_in_place_with_spin(&mut one, &weights, spin);
        RandomChoice::random_choice_in_place_with_spin(&mut other, &weights, spin);
        assert_eq!(one, other);
    }
}

#[test]
fn equal_weights_with_spin_zero() {
    let samples: Vec<u32> = vec![1, 2, 3, 4, 5];
    let weights: Vec<u64> = vec![1, 1, 1, 1, 1];
    // spokes at 0, 5, 10, 15, 20 on the scaled wheel; arcs end at 5, 10, 15, 20, 25
    let choices = RandomChoice::random_choice_with_spin(&samples, &weights, 5, 0);
    assert_eq!(choices, vec![&1, &1, &2, &3, &4]);
}

#[test]
fn equal_weights_select_each_item_once() {
    let samples: Vec<u32> = vec![1, 2, 3, 4, 5];
    let weights: Vec<u64> = vec![1, 1, 1, 1, 1];
    for spin in 1..=5u64 {
        let choices = RandomChoice::random_choice_with_spin(&samples, &weights, 5, spin);
        assert_eq!(choices, vec![&1, &2, &3, &4, &5]);
    }
    for _ in 0..20 {
        let choices = RandomChoice::random_choice(&samples, &weights, 5);
        assert_eq!(choices, vec![&1, &2, &3, &4, &5]);
    }
}

#[test]
fn in_place_all_weight_on_last() {
    let weights: Vec<u64> = vec![0, 0, 0, 1];
    for _ in 0..25 {
        let mut samples: Vec<&str> = vec!["a", "b", "c", "d"];
        RandomChoice::random_choice_in_place(&mut samples, &weights);
        assert_eq!(samples, vec!["d", "d", "d", "d"]);
    }
}

#[test]
fn in_place_reads_sources_before_they_are_overwritten() {
    let weights: Vec<u64> = vec![1, 1, 1, 1, 1];
    let mut samples: Vec<char> = vec!['a', 'b', 'c', 'd', 'e'];
    // picks 0, 0, 1, 2, 3: every source but the first lies behind its slot
    RandomChoice::random_choice_in_place_with_spin(&mut samples, &weights, 0);
    assert_eq!(samples, vec!['a', 'a', 'b', 'c', 'd']);

    let weights: Vec<u64> = vec![0, 3, 0, 1];
    let mut samples: Vec<char> = vec!['a', 'b', 'c', 'd'];
    // arcs end at 0, 12, 12, 16; spokes at 2, 6, 10, 14: picks 1, 1, 1, 3
    RandomChoice::random_choice_in_place_with_spin(&mut samples, &weights, 2);
    assert_eq!(samples, vec!['b', 'b', 'b', 'd']);

    let weights: Vec<u64> = vec![1, 0, 0, 0, 3, 0];
    let mut samples: Vec<char> = vec!['a', 'b', 'c', 'd', 'e', 'f'];
    // arcs end at 6, 6, 6, 6, 24, 24; spokes at 4, 8, 12, 16, 20, 24: picks 0, 4, 4, 4, 4, 4
    RandomChoice::random_choice_in_place_with_spin(&mut samples, &weights, 4);
    assert_eq!(samples, vec!['a', 'e', 'e', 'e', 'e', 'e']);
}

#[test]
fn in_place_matches_the_allocating_selection() {
    let weights: Vec<u64> = vec![4, 0, 7, 1, 0, 2, 9];
    let samples: Vec<u32> = vec![10, 11, 12, 13, 14, 15, 16];
    for spin in 0..=23u64 {
        let expected: Vec<u32> =
            RandomChoice::random_choice_with_spin(&samples, &weights, samples.len(), spin)
                .into_iter()
                .copied()
                .collect();
        let mut buffer = samples.clone();
        RandomChoice::random_choice_in_place_with_spin(&mut buffer, &weights, spin);
        assert_eq!(buffer, expected);
    }
}

#[test]
fn zero_weight_items_are_never_drawn() {
    let samples: Vec<usize> = vec![0, 1, 2, 3, 4];
    let weights: Vec<u64> = vec![0, 2, 0, 1, 0];
    for n in 1..12usize {
        for _ in 0..20 {
            for choice in RandomChoice::random_choice(&samples, &weights, n) {
                assert!(*choice == 1 || *choice == 3);
            }
        }
    }
}

#[test]
fn drawn_spin_stays_on_the_wheel() {
    let samples: Vec<char> = vec!['a'];
    let weights: Vec<u64> = vec![1];
    for _ in 0..100 {
        let choices = RandomChoice::random_choice(&samples, &weights, 3);
        assert_eq!(choices, vec![&'a', &'a', &'a']);
    }
    let samples: Vec<char> = vec!['a', 'b', 'c'];
    let weights: Vec<u64> = vec![1, 1, 1];
    for _ in 0..100 {
        let mut buffer = samples.clone();
        assert_eq!(RandomChoice::try_random_choice_in_place(&mut buffer, &weights), Ok(()));
        assert_eq!(buffer, samples);
    }
}

#[test]
fn checked_choice_rejects_too_many_weights() {
    let samples: Vec<char> = vec!['a', 'b'];
    let weights: Vec<u64> = vec![1, 1, 1];
    assert_eq!(
        RandomChoice::try_random_choice(&samples, &weights, 2),
        Err(SamplingError::InvalidInput)
    );
}

#[test]
fn checked_choice_rejects_overflowing_weights() {
    let samples: Vec<char> = vec!['a', 'b', 'c'];
    let weights: Vec<u64> = vec![u64::MAX, 1];
    assert_eq!(
        RandomChoice::try_random_choice(&samples, &weights, 2),
        Err(SamplingError::InvalidWeights)
    );
    let weights: Vec<u64> = vec![u64::MAX - 1, 1];
    let choices = RandomChoice::try_random_choice(&samples, &weights, 2);
    assert_eq!(choices, Ok(vec![&'a', &'a']));
}

#[test]
fn checked_choice_rejects_zero_total() {
    let samples: Vec<char> = vec!['a', 'b', 'c'];
    let weights: Vec<u64> = vec![0, 0, 0];
    assert_eq!(
        RandomChoice::try_random_choice(&samples, &weights, 2),
        Err(SamplingError::InvalidInput)
    );
}

#[test]
fn checked_choice_accepts_valid_input() {
    let samples: Vec<char> = vec!['a', 'b', 'c', 'd'];
    let weights: Vec<u64> = vec![0, 6, 0];
    assert_eq!(
        RandomChoice::try_random_choice(&samples, &weights, 3),
        Ok(vec![&'b', &'b', &'b'])
    );
}

#[test]
fn checked_in_place_rejects_and_leaves_the_buffer() {
    let mut samples: Vec<char> = vec!['a', 'b', 'c'];
    assert_eq!(
        RandomChoice::try_random_choice_in_place(&mut samples, &[1, 1]),
        Err(SamplingError::InvalidInput)
    );
    assert_eq!(
        RandomChoice::try_random_choice_in_place(&mut samples, &[1, 1, 1, 1]),
        Err(SamplingError::InvalidInput)
    );
    assert_eq!(
        RandomChoice::try_random_choice_in_place(&mut samples, &[0, 0, 0]),
        Err(SamplingError::InvalidInput)
    );
    assert_eq!(
        RandomChoice::try_random_choice_in_place(&mut samples, &[u64::MAX, 0, 1]),
        Err(SamplingError::InvalidWeights)
    );
    assert_eq!(samples, vec!['a', 'b', 'c']);
    assert_eq!(RandomChoice::try_random_choice_in_place(&mut samples, &[0, 0, 5]), Ok(()));
    assert_eq!(samples, vec!['c', 'c', 'c']);
}

#[test]
fn large_weights_and_counts_do_not_overflow() {
    let samples: Vec<u8> = vec![0, 1];
    let weights: Vec<u64> = vec![u64::MAX - 5, 5];
    let choices = RandomChoice::random_choice_with_spin(&samples, &weights, 3, u64::MAX);
    // arcs end at 3 * (MAX - 5) and 3 * MAX; spokes at MAX, 2 * MAX, 3 * MAX
    assert_eq!(choices, vec![&0, &0, &1]);
    let choices = RandomChoice::random_choice_with_spin(&samples, &weights, 3, u64::MAX - 15);
    assert_eq!(choices, vec![&0, &0, &0]);
}

#[test]
fn picks_per_item_stay_within_one_of_the_share() {
    let samples: Vec<usize> = vec![0, 1, 2];
    let weights: Vec<u64> = vec![3, 1, 4];
    // shares of 4 spokes: 1.5, 0.5 and 2
    for spin in 1..=8u64 {
        let mut seen: [usize; 3] = [0; 3];
        for choice in RandomChoice::random_choice_with_spin(&samples, &weights, 4, spin) {
            seen[*choice] += 1;
        }
        assert!(seen[0] == 1 || seen[0] == 2);
        assert!(seen[1] == 0 || seen[1] == 1);
        assert_eq!(seen[2], 2);
    }
    let weights: Vec<u64> = vec![7, 2, 5];
    for n in 1..30usize {
        for spin in 1..=14u64 {
            let mut seen: [u64; 3] = [0; 3];
            for choice in RandomChoice::random_choice_with_spin(&samples, &weights, n, spin) {
                seen[*choice] += 1;
            }
            for i in 0..3usize {
                let share: u64 = n as u64 * weights[i] / 14;
                assert!(seen[i] == share || seen[i] == share + 1);
                if n as u64 * weights[i] % 14 == 0 {
                    assert_eq!(seen[i], share);
                }
            }
        }
    }
}

#[test]
fn walk_over_the_wheel_agrees_with_the_selection() {
    let samples: Vec<usize> = vec![0, 1, 2, 3, 4];
    let weights: Vec<u64> = vec![2, 0, 5, 1, 3];
    let total: u64 = 11;
    for n in 1..9usize {
        let mut arc_ends: Vec<u64> = Vec::new();
        let mut through: u64 = 0;
        for weight in &weights {
            through += weight;
            arc_ends.push(n as u64 * through);
        }
        for spin in 0..=total {
            let spokes: Vec<u64> = (0..n as u64).map(|k| spin + k * total).collect();
            let walked = random_choice::walk::select_by_walk(&arc_ends, &spokes);
            let selected: Vec<usize> =
                RandomChoice::random_choice_with_spin(&samples, &weights, n, spin)
                    .into_iter()
                    .copied()
                    .collect();
            assert_eq!(walked, Ok(selected));
        }
    }
}
