use pmt_noise::tally::{count_true, samples_per_thread, total_overlaped, NUM_THREADS};

#[test]
fn each_worker_gets_a_twentieth() {
    assert_eq!(NUM_THREADS, 20);
    assert_eq!(samples_per_thread(10_000_000), 500_000);
    assert_eq!(samples_per_thread(20), 1);
    assert_eq!(samples_per_thread(0), 0);
    assert_eq!(samples_per_thread(i64::MAX), i64::MAX / 20);
}

#[test]
fn trials_beyond_a_multiple_of_twenty_are_dropped() {
    assert_eq!(samples_per_thread(39), 1);
    assert_eq!(samples_per_thread(19), 0);
    assert_eq!(samples_per_thread(41), 2);
}

#[test]
fn a_run_of_fewer_than_no_trials_gives_no_batches() {
    assert_eq!(samples_per_thread(-1), 0);
    assert_eq!(samples_per_thread(-40), 0);
    assert_eq!(samples_per_thread(i64::MIN), 0);
}

#[test]
fn successes_are_counted() {
    assert_eq!(count_true(&vec![]), 0);
    assert_eq!(count_true(&vec![false, false]), 0);
    assert_eq!(count_true(&vec![true, false, true, true, false]), 3);
}

#[test]
fn reports_are_added_up() {
    assert_eq!(total_overlaped(&vec![]), Some(0));
    assert_eq!(total_overlaped(&vec![3, 0, 4]), Some(7));
    assert_eq!(total_overlaped(&vec![u64::MAX - 1, 1]), Some(u64::MAX));
}

#[test]
fn a_total_beyond_64_bits_is_none() {
    assert_eq!(total_overlaped(&vec![u64::MAX, 1]), None);
    assert_eq!(total_overlaped(&vec![1, u64::MAX, 0]), None);
}

#[test]
fn the_total_does_not_depend_on_the_split() {
    let outcomes = vec![
        true, false, true, true, false, false, true, false, true, true, true, false,
    ];
    let all = count_true(&outcomes) as u64;
    assert_eq!(all, 7);
    for workers in [1usize, 2, 3, 4, 6, 12] {
        let per_worker = outcomes.len() / workers;
        let counts: Vec<u64> = outcomes
            .chunks(per_worker)
            .map(|batch| count_true(&batch.to_vec()) as u64)
            .collect();
        assert_eq!(counts.len(), workers);
        assert_eq!(total_overlaped(&counts), Some(all));
    }
}
