use absh::Numbers;

#[test]
fn push() {
    let mut ds = Numbers::default();
    ds.push(30);
    ds.push(50);
    ds.push(20);
    ds.push(30);
    assert_eq!(20, ds.min().unwrap());
    assert_eq!(50, ds.max().unwrap());
    ds.push(60);
    assert_eq!(60, ds.max().unwrap());
    ds.push(10);
    assert_eq!(10, ds.min().unwrap());
}

#[test]
fn distr_1() {
    let mut ds = Numbers::default();
    ds.push(10);
    assert_eq!(&[1], &ds.distr(1, 0, 10).counts[..]);
    assert_eq!(&[1], &ds.distr(1, 10, 20).counts[..]);
}

#[test]
fn distr_2() {
    let mut ds = Numbers::default();
    ds.push(10);
    ds.push(14);
    ds.push(16);
    ds.push(17);
    ds.push(20);
    assert_eq!(&[2, 3], &ds.distr(2, 10, 20).counts[..]);
}

#[test]
fn sum() {
    let mut ds = Numbers::default();
    ds.push(10);
    ds.push(20);
    assert_eq!(30, ds.sum());
}

#[test]
fn mean() {
    let mut ds = Numbers::default();

    assert_eq!(None, ds.mean());

    ds.push(10);
    ds.push(30);
    assert_eq!(20, ds.mean().unwrap());
}

#[test]
fn stddev() {
    let mut ds = Numbers::default();
    ds.push(11);
    ds.push(13);
    ds.push(15);

    assert_eq!(2, ds.stddev().unwrap())
}

#[test]
fn push_keeps_insertion_order_and_sorts_mirror() {
    let mut ds = Numbers::default();
    ds.push(30);
    ds.push(50);
    ds.push(20);
    ds.push(30);
    ds.push(60);
    ds.push(10);
    assert_eq!(&[30, 50, 20, 30, 60, 10], ds.raw());
    assert_eq!(&[10, 20, 30, 30, 50, 60], ds.sorted());
    assert_eq!(6, ds.len());
    assert_eq!(vec![30, 50, 20, 30, 60, 10], ds.iter());
}

#[test]
fn median_of_even_and_odd_lengths() {
    let mut ds = Numbers::default();
    assert_eq!(None, ds.med());
    ds.push(30);
    ds.push(50);
    ds.push(20);
    ds.push(30);
    // sorted = [20, 30, 30, 50]: the two central elements average to 30
    assert_eq!(30, ds.med().unwrap());
    ds.push(60);
    ds.push(10);
    // sorted = [10, 20, 30, 30, 50, 60]
    assert_eq!(30, ds.med().unwrap());
    let mut odd = Numbers::default();
    odd.push(9);
    odd.push(1);
    odd.push(5);
    assert_eq!(5, odd.med().unwrap());
}

#[test]
fn mean_truncates() {
    let mut ds = Numbers::default();
    ds.push(30);
    ds.push(50);
    ds.push(20);
    ds.push(30);
    assert_eq!(130, ds.sum());
    assert_eq!(32, ds.mean().unwrap());
}

#[test]
fn stddev_absent_below_two_samples() {
    let mut ds = Numbers::default();
    assert_eq!(None, ds.stddev());
    ds.push(42);
    assert_eq!(None, ds.stddev());
    ds.push(42);
    assert_eq!(Some(0), ds.stddev());
}

#[test]
fn distr_degenerate_range_is_all_zero() {
    let mut ds = Numbers::default();
    ds.push(7);
    ds.push(7);
    ds.push(7);
    assert_eq!(&[0, 0, 0], &ds.distr(3, 7, 7).counts[..]);
}

#[test]
fn distr_counts_sum_to_sample_count() {
    let mut ds = Numbers::default();
    ds.push(10);
    ds.push(14);
    ds.push(16);
    ds.push(17);
    ds.push(20);
    let d = ds.distr(4, 10, 20);
    assert_eq!(4, d.counts.len());
    let total: u64 = d.counts.iter().sum();
    assert_eq!(5, total);
}

#[test]
fn distr_max_is_largest_bucket() {
    let mut ds = Numbers::default();
    ds.push(10);
    ds.push(14);
    ds.push(16);
    ds.push(17);
    ds.push(20);
    let d = ds.distr(2, 10, 20);
    assert_eq!(3, d.max());
    let empty = absh::Distr { counts: Vec::new() };
    assert_eq!(0, empty.max());
}

#[test]
fn clear_empties_both_views() {
    let mut ds = Numbers::default();
    ds.push(1);
    ds.push(2);
    ds.clear();
    assert_eq!(0, ds.len());
    assert_eq!(None, ds.min());
    assert_eq!(None, ds.mean());
    let raw: &[u64] = ds.raw();
    assert!(raw.is_empty());
}

#[test]
fn stats_snapshot_fields() {
    let mut ds = Numbers::default();
    assert!(ds.stats().is_none());
    ds.push(11);
    ds.push(13);
    ds.push(15);
    let st = ds.stats().unwrap();
    assert_eq!(3, st.count);
    assert_eq!(11, st.min);
    assert_eq!(15, st.max);
    assert_eq!(39, st.sum);
    assert_eq!(13, st.mean);
    assert_eq!(13, st.median);
    assert_eq!(Some(2), st.stddev);
}
