use atemporal::history::{RevisionTicks, MAX_STAT_BUCKETS};

/// A run sampled every five ticks through tick 300.
fn run() -> RevisionTicks {
    let ticks: Vec<u32> = (0..=300).step_by(5).collect();
    RevisionTicks { samples: ticks.clone(), stats: ticks }
}

#[test]
fn stats_buckets_report_latest_sample_and_stay_bounded() {
    let c = run();
    assert_eq!(c.stats_range(5, 0, 300, 100), vec![95, 195, 295, 300]);
    assert_eq!(c.stats_range(5, 0, 300, 7).len(), 31);
    assert_eq!(c.stats_range(5, 0, 300, 5).len(), 61);
    assert_eq!(c.stats_range(5, 100, 130, 1000), vec![130]);
    assert!(c.stats_range(5, 0, 1_000_000, 1).len() <= MAX_STAT_BUCKETS as usize);
}

#[test]
fn dense_stats_over_a_long_range_stay_within_the_bucket_limit() {
    let dense = RevisionTicks { samples: vec![], stats: (0..50_000).collect() };
    let buckets = dense.stats_range(1, 0, 49_999, 1);
    assert_eq!(buckets.len(), 2000);
    assert_eq!(buckets[0], 24, "a bucket of 25 ticks reports its latest sample");
    assert_eq!(*buckets.last().unwrap(), 49_999);
    assert!(dense.stats_range(0, 10, 9_999, 0).len() <= 2000, "a zero interval counts as one");
}

#[test]
fn snapshots_follow_the_stride_and_keep_the_last_tick() {
    let c = run();
    assert_eq!(c.snapshot_range(5, 0, 30, 10), vec![0, 10, 20, 30]);
    assert!(c.snapshot_range(5, 3, 27, 10).is_empty(), "the stride counts from the first tick asked for");
    assert_eq!(c.snapshot_range(5, 5, 27, 10), vec![5, 15, 25]);
    assert_eq!(c.snapshot_range(5, 5, 25, 1), vec![5, 10, 15, 20, 25], "the stride is at least the interval");
    assert_eq!(c.snapshot_range(10, 0, 300, 0).len(), 31);
    let zero = RevisionTicks { samples: vec![0, 1, 2, 3], stats: vec![] };
    assert_eq!(zero.snapshot_range(0, 1, 3, 0), vec![1, 3], "a zero stride keeps the first and last");
}
