use vector_beam::binary32::Binary32;
use vector_beam::telemetry::{GpuTimer, LatencyHistogram, Outcome, PassWrites};

fn b(x: f32) -> Binary32 {
    Binary32 { bits: x.to_bits() }
}

fn f(x: Binary32) -> f32 {
    f32::from_bits(x.bits)
}

#[test]
fn percentiles_on_known_distribution() {
    let mut h = LatencyHistogram::new();
    // 50 samples at ~1 ms, 40 at ~2 ms, 10 at ~10 ms.
    for _ in 0..50 {
        h.record(b(0.001));
    }
    for _ in 0..40 {
        h.record(b(0.002));
    }
    for _ in 0..10 {
        h.record(b(0.010));
    }
    // Bucket width is 0.25 ms; the percentile reports the bucket's upper
    // edge, so allow that much slack.
    let close = |a: Binary32, b: f32| (f(a) - b).abs() <= 0.000_26;
    assert!(close(h.percentile(b(0.5)), 0.001), "p50={}", f(h.percentile(b(0.5))));
    assert!(close(h.percentile(b(0.9)), 0.002), "p90={}", f(h.percentile(b(0.9))));
    assert!(close(h.percentile(b(0.99)), 0.010), "p99={}", f(h.percentile(b(0.99))));
    assert_eq!(f(h.max_secs()), 0.010);
}

#[test]
fn percentile_empty_is_zero() {
    assert_eq!(f(LatencyHistogram::new().percentile(b(0.5))), 0.0);
}

#[test]
fn oversized_samples_clamp_to_last_bucket() {
    let mut h = LatencyHistogram::new();
    h.record(b(1.0)); // 1 s >> 32 ms range
    assert!(f(h.percentile(b(1.0))) <= 0.032 + f32::EPSILON);
    assert_eq!(f(h.max_secs()), 1.0);
}

#[test]
fn percentile_is_the_upper_edge_of_a_bucket() {
    let mut h = LatencyHistogram::new();
    h.record(b(0.0006)); // third bucket
    h.record(b(0.0011)); // fifth bucket
    assert_eq!(f(h.percentile(b(0.5))), 3.0 * 0.000_25);
    assert_eq!(f(h.percentile(b(0.51))), 5.0 * 0.000_25);
    assert_eq!(f(h.percentile(b(7.0))), 5.0 * 0.000_25);
    // Nothing is asked for, so the first bucket already suffices.
    assert_eq!(f(h.percentile(b(-1.0))), 0.000_25);
    assert_eq!(f(h.percentile(b(f32::NAN))), 0.000_25);
}

#[test]
fn odd_samples_go_to_the_ends() {
    let mut h = LatencyHistogram::new();
    h.record(b(-1.0));
    h.record(b(f32::NAN));
    assert_eq!(f(h.percentile(b(1.0))), 0.000_25);
    h.record(b(f32::INFINITY));
    assert_eq!(f(h.percentile(b(1.0))), 128.0 * 0.000_25);
    assert_eq!(h.count(), 3);
}

#[test]
fn histogram_agrees_with_native_arithmetic() {
    let mut h = LatencyHistogram::new();
    let mut buckets = [0u32; 128];
    let mut seed = 99u32;
    for _ in 0..1000 {
        seed = seed.wrapping_mul(1664525).wrapping_add(1013904223);
        let secs = (seed >> 12) as f32 / 3.0e7;
        h.record(b(secs));
        buckets[((secs / 0.000_25) as usize).min(127)] += 1;
    }
    for i in 0..=200 {
        let p = i as f32 / 200.0;
        let threshold = (p as f64 * 1000.0).ceil() as u64;
        let mut sum = 0u64;
        let mut expected = 0.0;
        for (idx, &n) in buckets.iter().enumerate() {
            sum += n as u64;
            if sum >= threshold {
                expected = (idx + 1) as f32 * 0.000_25;
                break;
            }
        }
        assert_eq!(f(h.percentile(b(p))), expected, "at {p}");
    }
}

#[test]
fn reports_come_every_five_seconds() {
    let mut h = LatencyHistogram::new();
    assert_eq!(h.maybe_report(b(6.0), None), Outcome::Quiet);
    h.record(b(0.001));
    assert_eq!(h.maybe_report(b(4.99), None), Outcome::Early);
    match h.maybe_report(b(5.0), Some(b(1.5))) {
        Outcome::Due(report) => {
            let input = report.input.unwrap();
            assert_eq!(f(input.p50), 5.0 * 0.000_25 * 1e3);
            assert_eq!(f(input.p90), f(input.p50));
            assert_eq!(f(input.p99), f(input.p50));
            assert_eq!(f(input.max), 0.001f32 * 1e3);
            assert_eq!(input.samples, 1);
            assert_eq!(report.gpu_ms, Some(b(1.5)));
        }
        other => panic!("{other:?}"),
    }
    // The samples are gone, the time of the graphics side stays.
    assert_eq!(h.count(), 0);
    assert_eq!(f(h.max_secs()), 0.0);
    match h.maybe_report(b(5.0), None) {
        Outcome::Due(report) => {
            assert_eq!(report.input, None);
            assert_eq!(report.gpu_ms, Some(b(1.5)));
        }
        other => panic!("{other:?}"),
    }
}

#[test]
fn a_timer_needs_timestamps() {
    assert!(GpuTimer::new(false, b(1.0)).is_none());
    let timer = GpuTimer::new(true, b(1.0)).unwrap();
    assert_eq!(timer.begin_writes(), PassWrites { beginning: Some(0), end: None });
    assert_eq!(timer.end_writes(), PassWrites { beginning: None, end: Some(1) });
}

#[test]
fn a_full_ring_leaves_the_frame_unmeasured() {
    let mut timer = GpuTimer::new(true, b(1.0)).unwrap();
    for i in 0..3 {
        assert_eq!(timer.resolve_and_read(), Some(i));
        timer.map_slot(i);
    }
    assert_eq!(timer.resolve_and_read(), None);
    assert_eq!(timer.poll_ms(1, None, Some(b(2.0))), Some(b(2.0)));
    assert_eq!(timer.resolve_and_read(), Some(1));
}

#[test]
fn ticks_become_milliseconds() {
    let mut timer = GpuTimer::new(true, b(41.667)).unwrap();
    let time = |timer: &mut GpuTimer, start: u64, end: u64| {
        let mut data = start.to_le_bytes().to_vec();
        data.extend(end.to_le_bytes());
        f(timer.poll_ms(0, Some(&data), None).unwrap())
    };
    for (start, end) in [(0u64, 0u64), (5, 400_000), (1 << 40, (1 << 40) + 123_457), (u64::MAX, 41)] {
        let expected = end.wrapping_sub(start) as f32 * 41.667 * 1e-6;
        assert_eq!(time(&mut timer, start, end), expected);
    }
}

#[test]
fn a_bucket_has_room_for_more() {
    let mut h = LatencyHistogram::new();
    assert!(h.has_room(b(0.001)));
    h.record(b(0.001));
    assert!(h.has_room(b(0.001)) && h.has_room(b(1.0)) && h.has_room(b(f32::NAN)));
}
