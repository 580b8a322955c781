use absh::driver::min_runs;
use absh::driver::round_order;
use absh::driver::sample_bounds;
use absh::driver::should_report;
use absh::driver::should_stop;
use absh::driver::use_half_resolution;
use absh::student::degrees_of_freedom;
use absh::student::t_table;
use absh::student::Confidence;
use absh::Experiment;
use absh::ExperimentName;

#[test]
fn t_table_explicit_entries() {
    assert_eq!(12706, t_table(1, Confidence::TwoSided95));
    assert_eq!(4303, t_table(2, Confidence::TwoSided95));
    assert_eq!(3182, t_table(3, Confidence::TwoSided95));
    assert_eq!(2042, t_table(30, Confidence::TwoSided95));
}

#[test]
fn t_table_monotone_and_asymptotic() {
    let mut prev = t_table(1, Confidence::TwoSided95);
    for df in 2..200u64 {
        let v = t_table(df, Confidence::TwoSided95);
        assert!(v <= prev);
        assert!(v >= 1960);
        prev = v;
    }
    assert_eq!(1960, t_table(31, Confidence::TwoSided95));
    assert_eq!(1960, t_table(1000, Confidence::TwoSided95));
}

#[test]
fn degrees_of_freedom_takes_smaller_count() {
    assert_eq!(2, degrees_of_freedom(3, 5));
    assert_eq!(4, degrees_of_freedom(9, 5));
    assert_eq!(1, degrees_of_freedom(2, 2));
}

#[test]
fn round_order_canonical() {
    assert_eq!(vec![0, 1, 2, 3], round_order(4, false));
    assert_eq!(Vec::<usize>::new(), round_order(0, false));
}

#[test]
fn round_order_randomized_is_a_permutation() {
    for _ in 0..20 {
        let mut order = round_order(5, true);
        order.sort();
        assert_eq!(vec![0, 1, 2, 3, 4], order);
    }
}

#[test]
fn termination_and_reporting_rules() {
    assert!(should_stop(3, Some(3)));
    assert!(!should_stop(2, Some(3)));
    assert!(!should_stop(5, None));
    assert!(!should_report(0));
    assert!(!should_report(1));
    assert!(should_report(2));
}

#[test]
fn half_resolution_rule() {
    assert!(use_half_resolution(0));
    assert!(use_half_resolution(2));
    assert!(!use_half_resolution(3));
}

#[test]
fn experiment_records_and_clears() {
    let mut e = Experiment::new(ExperimentName::B, String::new(), String::from("true"));
    assert_eq!(0, e.runs());
    e.record(100, 2048);
    e.record(150, 1024);
    assert_eq!(2, e.runs());
    assert_eq!(&[100, 150], e.durations.raw());
    assert_eq!(&[1024, 2048], e.mem_usages.sorted());
    e.clear_stores();
    assert_eq!(0, e.runs());
    assert_eq!(0, e.mem_usages.len());
}

#[test]
fn experiment_plot_highlights() {
    let e = Experiment::new(ExperimentName::A, String::new(), String::from("true"));
    let h = e.plot_highlights();
    assert_eq!("\u{1b}[31m", h.non_zero);
    assert_eq!("\u{1b}[47m", h.zero);
    assert_eq!("\u{1b}[0m", h.reset);
    let hh = e.plot_halves_highlights();
    assert_eq!("\u{1b}[31m", hh.non_zero);
    assert_eq!("", hh.zero);
    assert_eq!("\u{1b}[0m", hh.reset);
    assert_eq!("A", e.name.letter());
    assert_eq!("\u{1b}[32m", ExperimentName::B.color());
}

#[test]
fn min_runs_waits_for_slowest_variant() {
    let mut a = Experiment::new(ExperimentName::A, String::new(), String::from("true"));
    let mut b = Experiment::new(ExperimentName::B, String::new(), String::from("true"));
    a.record(10, 1);
    a.record(11, 1);
    b.record(20, 1);
    let tests = vec![a, b];
    assert_eq!(1, min_runs(&tests));
}

#[test]
fn sample_bounds_span_all_variants() {
    let mut a = Experiment::new(ExperimentName::A, String::new(), String::from("true"));
    let mut b = Experiment::new(ExperimentName::B, String::new(), String::from("true"));
    a.record(10, 700);
    a.record(20, 300);
    b.record(5, 400);
    b.record(15, 500);
    let tests = vec![a, b];
    assert_eq!(Some((5, 20)), sample_bounds(&tests, false));
    assert_eq!(Some((300, 700)), sample_bounds(&tests, true));
    let c = Experiment::new(ExperimentName::C, String::new(), String::from("true"));
    let mut with_empty = tests;
    with_empty.push(c);
    assert_eq!(None, sample_bounds(&with_empty, false));
}
