use cardano_census::histogram::{bound_label, Cumulative, Histogram, Ratio, LAG_BOUNDS, REACHABILITY_BOUNDS, RTT_BOUNDS, WITHIN_BOUNDS};

fn ratio(num: u64, den: u64) -> Ratio {
    Ratio { num, den }
}

#[test]
fn buckets_count_what_is_at_most_their_bound() {
    let mut h = Histogram::new(&REACHABILITY_BOUNDS);
    for v in [ratio(0, 1), ratio(1, 3), ratio(1, 2), ratio(1, 1)] {
        h.observe(v);
    }
    assert_eq!(h.counts, vec![1, 1, 3, 3, 4]);
    assert_eq!(h.count, 4);
    assert_eq!(h.observed.len(), 4);
}

#[test]
fn values_beyond_the_last_bound_are_counted_all_the_same() {
    let h = Histogram::of(&[1000], &[ratio(1001, 1000), ratio(1, 1)]);
    assert_eq!((h.counts, h.count), (vec![1], 2));
}

#[test]
fn cumulative_buckets_keep_what_they_hold() {
    let mut c = Cumulative::new(&[1000, 2500]);
    c.observe(ratio(2500, 1000), 7);
    c.observe(ratio(3, 1), 8);
    c.observe(ratio(900, 1000), 9);
    assert_eq!(c.values, vec![vec![9], vec![7, 9]]);
    assert_eq!(c.total, vec![7, 8, 9]);
    let of = Cumulative::of(&[1000], &[None, Some(ratio(1, 1)), Some(ratio(2, 1))]);
    assert_eq!((of.values, of.total), (vec![vec![1]], vec![1, 2]));
}

#[test]
fn bounds_are_written_as_short_as_they_are() {
    let labels = |b: &[u64]| b.iter().map(|x| bound_label(*x)).collect::<Vec<_>>().join(" ");
    assert_eq!(labels(&REACHABILITY_BOUNDS), "0 0.25 0.5 0.75 1");
    assert_eq!(labels(&RTT_BOUNDS), "0.05 0.1 0.25 0.5 1 2.5 5 10 15 20 30 45 60");
    assert_eq!(labels(&WITHIN_BOUNDS), "1 2.5 5 10 15 20 30 45 60");
    assert_eq!(labels(&LAG_BOUNDS), "0 1 2 5 10 50 100 1000");
}
