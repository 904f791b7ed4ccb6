use pmt_noise::pmt_noise2::{
    is_overlaped, is_pmt1_overlaped, local_overlapeds, nonparallel_simulater, simulater,
    InitialCondition, PMT,
};

/// Seconds as ticks of a millisecond.
fn ticks(seconds: f64) -> u64 {
    (seconds * 1000.0).round() as u64
}

fn train(palse_time: f64, rise_times: Vec<f64>) -> PMT {
    let mut pmt = PMT::new(rise_times.len() as i64, ticks(10.0), ticks(palse_time));
    pmt.rise_times = rise_times.into_iter().map(ticks).collect();
    pmt
}

#[test]
fn test_is_overlaped() {
    let time = ticks(10.0);
    let palse_time = ticks(0.5);
    let count = 5;

    let mut pmt_a = PMT::new(count, time, palse_time);
    let mut pmt_b = PMT::new(count, time, palse_time);

    pmt_a.rise_times = vec![1.0, 3.0, 5.0, 7.0, 9.0].into_iter().map(ticks).collect();
    pmt_b.rise_times = vec![2.0, 4.0, 6.0, 8.0, 9.2].into_iter().map(ticks).collect();

    let a_is_over = is_pmt1_overlaped(&pmt_a, &pmt_b);
    assert_eq!(a_is_over, true);

    let b_is_over = is_pmt1_overlaped(&pmt_b, &pmt_a);
    assert_eq!(b_is_over, false);

    let is_over = is_overlaped(&pmt_a, &pmt_b);
    assert_eq!(is_over, true);
}

#[test]
fn new_tube_has_no_pulses() {
    let pmt = PMT::new(7, 1000, 20);
    assert_eq!(pmt.count, 7);
    assert_eq!(pmt.time, 1000);
    assert_eq!(pmt.palse_time, 20);
    assert!(pmt.rise_times.is_empty());
}

#[test]
fn one_sided_detection_depends_on_the_order() {
    let a = train(0.5, vec![9.0]);
    let b = train(0.5, vec![9.2]);
    assert_eq!(is_pmt1_overlaped(&a, &b), true);
    assert_eq!(is_pmt1_overlaped(&b, &a), false);
    assert_eq!(is_overlaped(&a, &b), true);
    assert_eq!(is_overlaped(&b, &a), true);
}

#[test]
fn two_sided_detection_commutes() {
    let far_a = train(0.5, vec![1.0, 3.0, 5.0]);
    let far_b = train(0.5, vec![2.0, 4.0, 6.0]);
    assert_eq!(is_overlaped(&far_a, &far_b), false);
    assert_eq!(is_overlaped(&far_b, &far_a), false);

    let near_a = train(0.5, vec![1.0, 3.0, 5.0]);
    let near_b = train(0.1, vec![0.2, 2.8, 7.0]);
    assert_eq!(is_pmt1_overlaped(&near_a, &near_b), false);
    assert_eq!(is_pmt1_overlaped(&near_b, &near_a), false);
    let close_b = train(0.3, vec![0.2, 2.8, 7.0]);
    assert_eq!(is_pmt1_overlaped(&near_a, &close_b), false);
    assert_eq!(is_pmt1_overlaped(&close_b, &near_a), true);
    assert_eq!(is_overlaped(&near_a, &close_b), true);
    assert_eq!(is_overlaped(&close_b, &near_a), true);
}

#[test]
fn a_pulse_covers_both_its_ends() {
    let a = train(0.5, vec![2.0]);
    assert_eq!(is_pmt1_overlaped(&a, &train(0.5, vec![2.0])), true);
    assert_eq!(is_pmt1_overlaped(&a, &train(0.5, vec![2.5])), true);
    assert_eq!(is_pmt1_overlaped(&a, &train(0.5, vec![2.501])), false);
    assert_eq!(is_pmt1_overlaped(&a, &train(0.5, vec![1.999])), false);
}

#[test]
fn detection_looks_past_pulses_that_rise_too_early() {
    let a = train(0.5, vec![1.0, 4.0, 8.0]);
    let b = train(0.5, vec![0.1, 0.2, 2.0, 3.0, 8.4]);
    assert_eq!(is_pmt1_overlaped(&a, &b), true);
    let c = train(0.5, vec![0.1, 0.2, 2.0, 3.0, 8.6]);
    assert_eq!(is_pmt1_overlaped(&a, &c), false);
}

#[test]
fn detection_near_the_largest_instant_does_not_wrap() {
    let mut a = PMT::new(1, u64::MAX, u64::MAX);
    a.rise_times = vec![u64::MAX - 1];
    let mut b = PMT::new(1, u64::MAX, 1);
    b.rise_times = vec![u64::MAX];
    assert_eq!(is_pmt1_overlaped(&a, &b), true);
    assert_eq!(is_pmt1_overlaped(&b, &a), false);
}

#[test]
fn empty_trains_do_not_overlap() {
    let a = train(0.5, vec![]);
    let b = train(0.5, vec![1.0, 2.0]);
    assert_eq!(is_overlaped(&a, &b), false);
    assert_eq!(is_overlaped(&b, &a), false);
    assert_eq!(is_overlaped(&a, &a), false);
}

#[test]
fn generated_rise_times_are_sorted_and_inside_the_observation() {
    let mut pmt = PMT::new(1000, 5000, 20);
    pmt.generate_rise_times();
    assert_eq!(pmt.rise_times.len(), 1000);
    assert_eq!(pmt.count, 1000);
    assert_eq!(pmt.time, 5000);
    assert_eq!(pmt.palse_time, 20);
    assert!(pmt.rise_times.windows(2).all(|w| w[0] <= w[1]));
    assert!(pmt.rise_times.iter().all(|&t| t < 5000));
}

#[test]
fn generating_again_adds_to_the_train() {
    let mut pmt = PMT::new(3, 100, 1);
    pmt.rise_times = vec![500, 400];
    pmt.generate_rise_times();
    assert_eq!(pmt.rise_times.len(), 5);
    assert!(pmt.rise_times.windows(2).all(|w| w[0] <= w[1]));
    assert_eq!(pmt.rise_times[3..].to_vec(), vec![400, 500]);
    assert!(pmt.rise_times[..3].iter().all(|&t| t < 100));
}

#[test]
fn a_tube_without_pulses_generates_none() {
    let mut none = PMT::new(0, 100, 1);
    none.generate_rise_times();
    assert!(none.rise_times.is_empty());
    let mut fewer = PMT::new(-4, 0, 1);
    fewer.generate_rise_times();
    assert!(fewer.rise_times.is_empty());
}

#[test]
fn trials_without_pulses_never_succeed() {
    let some = InitialCondition { time: 100, palse_time: 50, count: 30 };
    let none = InitialCondition { time: 100, palse_time: 50, count: 0 };
    for _ in 0..50 {
        assert_eq!(simulater(some, none), false);
        assert_eq!(simulater(none, some), false);
    }
    assert_eq!(nonparallel_simulater(200, none, some), 0);
    assert_eq!(nonparallel_simulater(200, some, none), 0);
    assert_eq!(local_overlapeds(200, none, some), 0);
    assert_eq!(local_overlapeds(200, some, none), 0);
}

#[test]
fn pulses_as_long_as_the_observation_always_overlap() {
    let full = InitialCondition { time: 100, palse_time: 100, count: 1 };
    for _ in 0..50 {
        assert_eq!(simulater(full, full), true);
    }
    assert_eq!(nonparallel_simulater(300, full, full), 300);
    assert_eq!(local_overlapeds(300, full, full), 300);
}

#[test]
fn no_trials_give_no_successes() {
    let full = InitialCondition { time: 100, palse_time: 100, count: 1 };
    assert_eq!(nonparallel_simulater(0, full, full), 0);
    assert_eq!(nonparallel_simulater(-5, full, full), 0);
    assert_eq!(local_overlapeds(0, full, full), 0);
    assert_eq!(local_overlapeds(-5, full, full), 0);
}

#[test]
fn repeated_estimates_agree() {
    let a = InitialCondition { time: 10_000, palse_time: 20, count: 12 };
    let b = InitialCondition { time: 10_000, palse_time: 20, count: 9 };
    let samples: i64 = 20_000;
    let first = nonparallel_simulater(samples, a, b) as f64 / samples as f64;
    let second = local_overlapeds(samples, a, b) as f64 / samples as f64;
    assert!(0.0 < first && first < 1.0);
    assert!(0.0 < second && second < 1.0);
    assert!((first - second).abs() < 0.05);
}
