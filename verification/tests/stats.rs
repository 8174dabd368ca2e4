use arbitrage_arena::engine::stats::Histogram;

#[test]
fn nothing_recorded() {
    let s = Histogram::new().stats("read", "ns", 0, 0);
    assert_eq!((s.name, s.unit), ("read", "ns"));
    assert_eq!((s.count, s.total, s.avg, s.p50, s.p95, s.max), (0, 0, 0, 0, 0, 0));
}

#[test]
fn percentiles_are_middles_of_buckets() {
    let mut h = Histogram::new();
    for v in [0, 1, 2, 3, 1_000] {
        h.record(v);
    }
    assert_eq!(h.count(), 5);
    let s = h.stats("send", "ns", 3, 5);
    assert_eq!((s.count, s.total, s.avg, s.max), (5, 1_006, 201, 1_000));
    // The third smallest sample is 2: bucket 2..4. The largest is in 512..1024.
    assert_eq!((s.p50, s.p95), (3, 768));
}

#[test]
fn ranks_are_kept_among_the_samples() {
    let mut h = Histogram::new();
    h.record(1);
    h.record(5);
    let s = h.stats("wait", "ns", 0, 99);
    assert_eq!((s.p50, s.p95), (1, 6));
}

#[test]
fn the_largest_samples() {
    let mut h = Histogram::new();
    h.record(u64::MAX);
    h.record(u64::MAX);
    let s = h.stats("iter", "ns", 1, 2);
    assert_eq!((s.total, s.avg, s.max), (u64::MAX, u64::MAX, u64::MAX));
    assert_eq!(s.p50, (1 << 63) + (u64::MAX - (1 << 63)) / 2);
}

#[test]
fn a_line_for_the_log() {
    let mut h = Histogram::new();
    h.record(4);
    assert_eq!(
        h.stats("read", "ns", 1, 1).info(),
        "runloop stage stats: stage=read unit=ns count=1 total=4 avg=4 p50=6 p95=6 max=4"
    );
}
