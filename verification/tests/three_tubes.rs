use pmt_noise::pmt_noise3::{
    is_all_overlaped, is_all_overlaped_pmt, local_overlapeds, overlaped_pmt, overlaped_pmt1,
    simulater,
    InitialCondition, Palse, PMT,
};

/// Seconds as ticks of a millisecond.
fn ms(seconds: f64) -> u64 {
    (seconds * 1000.0).round() as u64
}

fn palse(rise_time: f64, width: f64) -> Palse {
    Palse { rise_time: ms(rise_time), width: ms(width) }
}

fn pmt(palses: Vec<(u64, u64)>) -> PMT {
    PMT {
        palse_times: palses
            .into_iter()
            .map(|(rise_time, width)| Palse { rise_time, width })
            .collect(),
    }
}

fn pairs(pmt: &PMT) -> Vec<(u64, u64)> {
    pmt.palse_times.iter().map(|p| (p.rise_time, p.width)).collect()
}

#[test]
fn test_overlaped_pmt() {
    let pmt_a = PMT {
        palse_times: vec![palse(0.0, 2.0), palse(7.0, 1.0), palse(100.0, 1.0)],
    };

    let pmt_b = PMT {
        palse_times: vec![palse(1.0, 1.0), palse(6.0, 2.0)],
    };

    let pmt_c = PMT {
        palse_times: vec![palse(1.0, 0.5)],
    };

    let over_pmt_a = overlaped_pmt1(&pmt_a, &pmt_b);
    assert_eq!(over_pmt_a.palse_times[0].rise_time, ms(1.0));
    assert_eq!(over_pmt_a.palse_times[0].width, ms(1.0));
    assert_eq!(over_pmt_a.palse_times.len(), 1);

    let over_pmt = overlaped_pmt(&pmt_a, &pmt_b);
    assert_eq!(over_pmt.palse_times[0].rise_time, ms(1.0));
    assert_eq!(over_pmt.palse_times[0].width, ms(1.0));
    assert_eq!(over_pmt.palse_times[1].rise_time, ms(7.0));
    assert_eq!(over_pmt.palse_times[1].width, ms(1.0));

    let is_over = is_all_overlaped_pmt(&pmt_a, &pmt_b, &pmt_c);
    assert_eq!(is_over, true);
}

#[test]
fn two_sided_overlaps_of_the_example_are_two() {
    let a = pmt(vec![(0, 2), (7, 1), (100, 1)]);
    let b = pmt(vec![(1, 1), (6, 2)]);
    assert_eq!(pairs(&overlaped_pmt1(&a, &b)), vec![(1, 1)]);
    assert_eq!(pairs(&overlaped_pmt1(&b, &a)), vec![(7, 1)]);
    assert_eq!(pairs(&overlaped_pmt(&a, &b)), vec![(1, 1), (7, 1)]);
    assert_eq!(pairs(&overlaped_pmt(&b, &a)), vec![(1, 1), (7, 1)]);
}

#[test]
fn the_overlap_ends_where_the_first_pulse_ends() {
    let a = pmt(vec![(10, 20)]);
    assert_eq!(pairs(&overlaped_pmt1(&a, &pmt(vec![(15, 2)]))), vec![(15, 2)]);
    assert_eq!(pairs(&overlaped_pmt1(&a, &pmt(vec![(15, 15)]))), vec![(15, 15)]);
    assert_eq!(pairs(&overlaped_pmt1(&a, &pmt(vec![(15, 40)]))), vec![(15, 15)]);
    assert_eq!(pairs(&overlaped_pmt1(&a, &pmt(vec![(10, 40)]))), vec![(10, 20)]);
    assert_eq!(pairs(&overlaped_pmt1(&a, &pmt(vec![(30, 40)]))), vec![(30, 0)]);
    assert_eq!(pairs(&overlaped_pmt1(&a, &pmt(vec![(31, 40)]))), vec![]);
    assert_eq!(pairs(&overlaped_pmt1(&a, &pmt(vec![(9, 40)]))), vec![]);
}

#[test]
fn one_pulse_may_overlap_several() {
    let a = pmt(vec![(0, 100)]);
    let b = pmt(vec![(10, 5), (20, 5), (98, 5), (200, 5)]);
    assert_eq!(pairs(&overlaped_pmt1(&a, &b)), vec![(10, 5), (20, 5), (98, 2)]);
    assert_eq!(pairs(&overlaped_pmt1(&b, &a)), vec![]);
}

#[test]
fn a_scan_starts_where_the_last_one_stopped() {
    let a = pmt(vec![(0, 10), (1, 10)]);
    let b = pmt(vec![(5, 1), (20, 1)]);
    assert_eq!(pairs(&overlaped_pmt1(&a, &b)), vec![(5, 1)]);
}

#[test]
fn a_scan_that_nothing_stops_leaves_the_start_in_place() {
    let a = pmt(vec![(0, 10), (1, 10)]);
    let b = pmt(vec![(5, 1), (9, 1)]);
    assert_eq!(
        pairs(&overlaped_pmt1(&a, &b)),
        vec![(5, 1), (9, 1), (5, 1), (9, 1)]
    );
}

#[test]
fn overlaps_near_the_largest_instant_do_not_wrap() {
    let a = pmt(vec![(u64::MAX - 10, u64::MAX)]);
    let b = pmt(vec![(u64::MAX - 4, u64::MAX)]);
    assert_eq!(
        pairs(&overlaped_pmt1(&a, &b)),
        vec![(u64::MAX - 4, u64::MAX - 6)]
    );
}

#[test]
fn sort_keeps_the_order_of_pulses_that_rise_together() {
    let mut train = pmt(vec![(3, 1), (1, 2), (3, 0), (1, 1), (2, 9)]);
    train.sort();
    assert_eq!(pairs(&train), vec![(1, 2), (1, 1), (2, 9), (3, 1), (3, 0)]);
    let mut empty = pmt(vec![]);
    empty.sort();
    assert_eq!(pairs(&empty), vec![]);
}

#[test]
fn sync_puts_one_train_behind_the_other() {
    let mut a = pmt(vec![(5, 1), (6, 1)]);
    let mut b = pmt(vec![(1, 2)]);
    let both = a.sync(&mut b);
    assert_eq!(pairs(&both), vec![(5, 1), (6, 1), (1, 2)]);
    assert_eq!(pairs(&a), vec![(5, 1), (6, 1)]);
    assert_eq!(pairs(&b), vec![(1, 2)]);
}

#[test]
fn three_trains_coincide_only_where_all_overlap() {
    let a = pmt(vec![(0, 2), (7, 1), (100, 1)]);
    let b = pmt(vec![(1, 1), (6, 2)]);
    assert_eq!(is_all_overlaped_pmt(&a, &b, &pmt(vec![(1, 1)])), true);
    assert_eq!(is_all_overlaped_pmt(&a, &b, &pmt(vec![(3, 1)])), false);
    assert_eq!(is_all_overlaped_pmt(&a, &b, &pmt(vec![(100, 1)])), false);
    assert_eq!(is_all_overlaped_pmt(&a, &b, &pmt(vec![(6, 1)])), true);
}

#[test]
fn an_empty_train_coincides_with_nothing() {
    let a = pmt(vec![(0, 2), (7, 1)]);
    let b = pmt(vec![(1, 1), (6, 2)]);
    let none = pmt(vec![]);
    assert_eq!(pairs(&overlaped_pmt(&a, &none)), vec![]);
    assert_eq!(pairs(&overlaped_pmt(&none, &a)), vec![]);
    assert_eq!(is_all_overlaped_pmt(&none, &a, &b), false);
    assert_eq!(is_all_overlaped_pmt(&a, &none, &b), false);
    assert_eq!(is_all_overlaped_pmt(&a, &b, &none), false);
}

#[test]
fn a_generated_train_is_sorted_and_inside_the_observation() {
    let train = PMT::new(1000, 5000, 20);
    assert_eq!(train.palse_times.len(), 1000);
    assert!(train
        .palse_times
        .windows(2)
        .all(|w| w[0].rise_time <= w[1].rise_time));
    assert!(train
        .palse_times
        .iter()
        .all(|p| p.rise_time < 5000 && p.width == 20));
    assert_eq!(PMT::new(0, 5000, 20).palse_times.len(), 0);
    assert_eq!(PMT::new(-3, 0, 20).palse_times.len(), 0);
}

#[test]
fn trials_with_a_tube_without_pulses_never_succeed() {
    let some = InitialCondition { time: 100, palse_time: 100, count: 5 };
    let none = InitialCondition { time: 100, palse_time: 100, count: 0 };
    for _ in 0..20 {
        assert_eq!(simulater(none, some, some), false);
        assert_eq!(simulater(some, none, some), false);
        assert_eq!(simulater(some, some, none), false);
    }
    assert_eq!(local_overlapeds(100, none, some, some), 0);
    assert_eq!(local_overlapeds(100, some, none, some), 0);
    assert_eq!(local_overlapeds(100, some, some, none), 0);
    assert_eq!(local_overlapeds(0, some, some, some), 0);
    assert_eq!(local_overlapeds(-1, some, some, some), 0);
}

#[test]
fn three_lasting_pulses_always_coincide() {
    let full = InitialCondition { time: 100, palse_time: 1000, count: 1 };
    for _ in 0..20 {
        assert_eq!(simulater(full, full, full), true);
    }
    assert_eq!(local_overlapeds(150, full, full, full), 150);
}

#[test]
fn any_number_of_trains_may_coincide() {
    let a = pmt(vec![(0, 2), (7, 1), (100, 1)]);
    let b = pmt(vec![(1, 1), (6, 2)]);
    let c = pmt(vec![(1, 1)]);
    let d = pmt(vec![(7, 3)]);
    assert_eq!(is_all_overlaped(&vec![]), false);
    assert_eq!(is_all_overlaped(&vec![pmt(vec![])]), false);
    assert_eq!(is_all_overlaped(&vec![pmt(vec![(1, 1)])]), true);
    assert_eq!(is_all_overlaped(&vec![pmt(vec![(0, 2)]), pmt(vec![(1, 1)])]), true);
    assert_eq!(is_all_overlaped(&vec![pmt(vec![(0, 2)]), pmt(vec![(3, 1)])]), false);
    assert_eq!(
        is_all_overlaped(&vec![
            pmt(vec![(0, 2), (7, 1), (100, 1)]),
            pmt(vec![(1, 1), (6, 2)]),
            pmt(vec![(1, 1)]),
        ]),
        is_all_overlaped_pmt(&a, &b, &c)
    );
    assert_eq!(
        is_all_overlaped(&vec![
            pmt(vec![(0, 2), (7, 1), (100, 1)]),
            pmt(vec![(1, 1), (6, 2)]),
            pmt(vec![(1, 1)]),
            pmt(vec![(7, 3)]),
        ]),
        false
    );
    assert_eq!(is_all_overlaped_pmt(&a, &b, &d), true);
}
