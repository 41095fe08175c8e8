use std::ops::Range;

use vector_beam::binary32::Binary32;
use vector_beam::geometry::Segment;
use vector_beam::scan::{partition_by_arc_length, subframes_per_scan, ScanConfig, ScanScheduler};

fn b(x: f32) -> Binary32 {
    Binary32 { bits: x.to_bits() }
}

/// Collinear segments of the given lengths laid end to end on X.
fn chain(lengths: &[f32]) -> Vec<Segment> {
    let mut x = 0.0f32;
    lengths
        .iter()
        .map(|&l| {
            let s = Segment {
                p0: [b(x), b(0.0), b(0.0)],
                p1: [b(x + l), b(0.0), b(0.0)],
                color: [b(1.0), b(1.0), b(1.0)],
            };
            x += l;
            s
        })
        .collect()
}

fn assert_valid_bounds(bounds: &[u32], range: Range<u32>, n: u32) {
    assert_eq!(bounds.len(), n as usize + 1);
    assert_eq!(bounds[0], range.start);
    assert_eq!(*bounds.last().unwrap(), range.end);
    assert!(bounds.windows(2).all(|w| w[0] <= w[1]), "monotone: {bounds:?}");
}

fn config(scan_hz: f32, beams: u32) -> ScanConfig {
    ScanConfig { scan_hz: b(scan_hz), beams }
}

fn collect(s: &mut ScanScheduler, t: f32) -> Vec<Range<u32>> {
    let mut out = Vec::new();
    s.ranges(b(t), &mut out);
    out
}

#[test]
fn subframe_counts() {
    assert_eq!(subframes_per_scan(b(240.0), b(60.0)), 4);
    assert_eq!(subframes_per_scan(b(144.0), b(60.0)), 2);
    assert_eq!(subframes_per_scan(b(60.0), b(60.0)), 1);
    assert_eq!(subframes_per_scan(b(30.0), b(60.0)), 1); // never below 1
    assert_eq!(subframes_per_scan(b(240.0), b(120.0)), 2);
}

#[test]
fn equal_lengths_split_evenly() {
    let segs = chain(&[1.0; 12]);
    let bounds = partition_by_arc_length(&segs, 0..12, 4);
    assert_eq!(bounds, vec![0, 3, 6, 9, 12]);
}

#[test]
fn skewed_length_isolates_long_segment() {
    // One segment 100x longer than the other eleven: it dominates the
    // total, so it must not share a bucket with many short ones.
    let mut lengths = vec![1.0; 12];
    lengths[5] = 100.0;
    let segs = chain(&lengths);
    let bounds = partition_by_arc_length(&segs, 0..12, 4);
    assert_valid_bounds(&bounds, 0..12, 4);
    // The long segment (index 5) sits alone in its bucket.
    let bucket_of_5 = (0..4).find(|&k| bounds[k] <= 5 && 5 < bounds[k + 1]).unwrap();
    assert_eq!(bounds[bucket_of_5 + 1] - bounds[bucket_of_5], 1);
}

#[test]
fn n_one_is_full_range() {
    let segs = chain(&[1.0; 5]);
    assert_eq!(partition_by_arc_length(&segs, 0..5, 1), vec![0, 5]);
}

#[test]
fn n_exceeding_count_allows_empty_buckets() {
    let segs = chain(&[1.0; 3]);
    let bounds = partition_by_arc_length(&segs, 0..3, 8);
    assert_valid_bounds(&bounds, 0..3, 8);
}

#[test]
fn zero_length_segments_fall_back_to_uniform() {
    let segs = chain(&[0.0; 8]);
    let bounds = partition_by_arc_length(&segs, 0..8, 4);
    assert_eq!(bounds, vec![0, 2, 4, 6, 8]);
}

#[test]
fn sub_range_partition_respects_offsets() {
    let segs = chain(&[1.0; 12]);
    let bounds = partition_by_arc_length(&segs, 4..12, 4);
    assert_eq!(bounds, vec![4, 6, 8, 10, 12]);
}

#[test]
fn exact_cadence_visits_each_bucket_once_per_scan() {
    let segs = chain(&[1.0; 12]);
    let (hw_hz, scan_hz) = (240.0, 60.0);
    let mut s = ScanScheduler::new(&segs, config(scan_hz, 1), b(hw_hz));
    assert_eq!(s.n, 4);
    // Drive at exactly hw cadence over two full scans; sample mid-window
    // to dodge float edges.
    let mut drawn = Vec::new();
    for i in 0..8 {
        let t = (i as f32 + 0.5) / hw_hz;
        drawn.extend(collect(&mut s, t));
    }
    assert_eq!(drawn, vec![0..3, 3..6, 6..9, 9..12, 0..3, 3..6, 6..9, 9..12]);
}

#[test]
fn same_window_repeat_draws_nothing() {
    let segs = chain(&[1.0; 12]);
    let mut s = ScanScheduler::new(&segs, ScanConfig::default(), b(240.0));
    assert_eq!(collect(&mut s, 0.002), vec![0..3]);
    assert!(collect(&mut s, 0.003).is_empty()); // still window 0
}

#[test]
fn skipped_windows_catch_up() {
    let segs = chain(&[1.0; 12]);
    let mut s = ScanScheduler::new(&segs, ScanConfig::default(), b(240.0));
    assert_eq!(collect(&mut s, 0.002), vec![0..3]); // window 0
    // Jump straight to window 2: windows 1 and 2 are both drawn.
    assert_eq!(collect(&mut s, 0.0105), vec![3..6, 6..9]);
}

#[test]
fn huge_gap_caps_at_one_scan() {
    let segs = chain(&[1.0; 12]);
    let mut s = ScanScheduler::new(&segs, ScanConfig::default(), b(240.0));
    assert_eq!(collect(&mut s, 0.002), vec![0..3]);
    // A one-second stall skips ~240 windows; only the last n are drawn.
    let out = collect(&mut s, 1.002);
    assert_eq!(out.len(), 4);
}

#[test]
fn multi_beam_ranges_cover_list_disjointly() {
    let segs = chain(&[1.0; 24]);
    let mut s = ScanScheduler::new(&segs, config(60.0, 3), b(240.0));
    assert_eq!(s.n, 4);
    let mut drawn = Vec::new();
    for i in 0..4 {
        let t = (i as f32 + 0.5) / 240.0;
        let ranges = collect(&mut s, t);
        assert_eq!(ranges.len(), 3, "3 beams -> 3 ranges per subframe");
        drawn.extend(ranges);
    }
    // One full scan: 12 ranges, disjoint, covering 0..24 exactly.
    let mut indices: Vec<u32> = drawn.iter().flat_map(|r| r.clone()).collect();
    indices.sort_unstable();
    assert_eq!(indices, (0..24).collect::<Vec<_>>());
}

#[test]
fn reset_draws_the_current_window_alone() {
    let segs = chain(&[1.0; 12]);
    let mut s = ScanScheduler::new(&segs, ScanConfig::default(), b(240.0));
    assert_eq!(collect(&mut s, 0.002), vec![0..3]);
    s.reset();
    assert_eq!(collect(&mut s, 1.0105), vec![6..9]);
}

#[test]
fn rebuild_keeps_the_clock() {
    let mut s = ScanScheduler::new(&chain(&[1.0; 12]), ScanConfig::default(), b(240.0));
    assert_eq!(collect(&mut s, 0.002), vec![0..3]);
    s.rebuild(&chain(&[1.0; 24]));
    assert!(collect(&mut s, 0.003).is_empty());
    assert_eq!(collect(&mut s, 0.005), vec![6..12]);
}

#[test]
fn no_beams_count_as_one() {
    let segs = chain(&[1.0; 4]);
    let mut s = ScanScheduler::new(&segs, config(60.0, 0), b(60.0));
    assert_eq!(s.beams, 1);
    assert_eq!(s.n, 1);
    assert_eq!(collect(&mut s, 0.0), vec![0..4]);
}

#[test]
fn odd_rates_give_a_scan_all_the_same() {
    assert_eq!(subframes_per_scan(b(150.0), b(60.0)), 3); // 2.5 goes up
    assert_eq!(subframes_per_scan(b(240.0), b(0.0)), 2013265920);
    assert_eq!(subframes_per_scan(b(f32::INFINITY), b(60.0)), u32::MAX);
    assert_eq!(subframes_per_scan(b(f32::NAN), b(60.0)), 1);
    assert_eq!(subframes_per_scan(b(-240.0), b(60.0)), 1);
    assert_eq!(subframes_per_scan(b(60.0), b(f32::NAN)), 503316480);
}

/// The split as it is computed with native arithmetic.
fn native_split(lengths: &[f32], segs: &[Segment], n: u32) -> Vec<u32> {
    let len = |s: &Segment| {
        let d: Vec<f32> =
            (0..3).map(|a| f32::from_bits(s.p1[a].bits) - f32::from_bits(s.p0[a].bits)).collect();
        (d[0] * d[0] + d[1] * d[1] + d[2] * d[2]).sqrt()
    };
    let total: f32 = segs.iter().map(len).sum();
    let count = lengths.len() as u32;
    let mut bounds = vec![0];
    let (mut cum, mut idx) = (0.0f32, 0u32);
    for k in 1..n {
        let target = total * k as f32 / n as f32;
        while idx < count && cum + len(&segs[idx as usize]) * 0.5 < target {
            cum += len(&segs[idx as usize]);
            idx += 1;
        }
        bounds.push(idx);
    }
    bounds.push(count);
    bounds
}

#[test]
fn splits_agree_with_native_arithmetic() {
    let mut seed = 12345u32;
    for n in [1, 2, 3, 5, 7, 16, 40] {
        let lengths: Vec<f32> = (0..60)
            .map(|_| {
                seed = seed.wrapping_mul(1664525).wrapping_add(1013904223);
                (seed >> 8) as f32 / 1000.0
            })
            .collect();
        let segs = chain(&lengths);
        assert_eq!(partition_by_arc_length(&segs, 0..60, n), native_split(&lengths, &segs, n));
    }
}

#[test]
fn windows_agree_with_native_arithmetic() {
    let segs = chain(&[1.0; 12]);
    let mut s = ScanScheduler::new(&segs, config(59.94, 1), b(239.76));
    let mut last: Option<u64> = None;
    for i in 0..500u32 {
        let t = i as f32 * 0.0137;
        let window = (t.max(0.0) as f64 * 59.94f32 as f64 * s.n as f64) as u64;
        let expected = match last {
            None => 1,
            Some(l) if window <= l => 0,
            Some(l) => (window - l).min(s.n as u64),
        };
        assert_eq!(collect(&mut s, t).len() as u64, expected, "at {t}");
        last = Some(last.map_or(window, |l| l.max(window)));
    }
}

#[test]
fn stepping_and_jumping_draw_the_same() {
    let segs = chain(&[1.0, 2.0, 0.5, 3.0, 1.0, 1.0, 4.0, 0.25, 2.0, 1.0]);
    let mut steps = ScanScheduler::new(&segs, config(60.0, 2), b(300.0));
    let mut jumps = ScanScheduler::new(&segs, config(60.0, 2), b(300.0));
    assert_eq!(steps.n, 5);
    assert_eq!(steps.subframes(), 5);
    let middle = |w: u32| (w as f32 + 0.5) / 300.0;
    assert_eq!(collect(&mut steps, middle(0)), collect(&mut jumps, middle(0)));
    for round in 0..10 {
        let mut drawn = Vec::new();
        for i in 1..=4 {
            drawn.extend(collect(&mut steps, middle(4 * round + i)));
        }
        assert_eq!(drawn, collect(&mut jumps, middle(4 * round + 4)));
    }
}

#[test]
fn a_scan_draws_every_segment_once() {
    let mut seed = 7u32;
    for beams in [1, 2, 3, 7] {
        for hw in [60.0, 240.0, 1000.0] {
            let lengths: Vec<f32> = (0..37)
                .map(|_| {
                    seed = seed.wrapping_mul(1664525).wrapping_add(1013904223);
                    (seed >> 20) as f32 / 64.0
                })
                .collect();
            let segs = chain(&lengths);
            let mut s = ScanScheduler::new(&segs, config(60.0, beams), b(hw));
            let rate = 60.0 * s.n as f32;
            let mut drawn = [0; 37];
            for w in 3..3 + s.n {
                for r in collect(&mut s, (w as f32 + 0.5) / rate) {
                    assert!(r.end <= 37);
                    for i in r {
                        drawn[i as usize] += 1;
                    }
                }
            }
            assert_eq!(drawn, [1; 37], "{beams} beams at {hw} Hz");
        }
    }
}

#[test]
fn the_middle_of_every_segment_lies_in_its_bucket() {
    let lengths: Vec<f32> = (0..40).map(|i| 0.1 + ((i * 7) % 11) as f32 * 0.37).collect();
    let segs = chain(&lengths);
    let total = segs.iter().fold(0.0f32, |sum, s| {
        sum + (f32::from_bits(s.p1[0].bits) - f32::from_bits(s.p0[0].bits))
    });
    for n in 1..12u32 {
        let bounds = partition_by_arc_length(&segs, 0..40, n);
        assert_valid_bounds(&bounds, 0..40, n);
        let mut cum = 0.0f32;
        let mut checked = 0;
        for k in 0..n {
            for i in bounds[k as usize]..bounds[k as usize + 1] {
                let s = &segs[i as usize];
                let len = f32::from_bits(s.p1[0].bits) - f32::from_bits(s.p0[0].bits);
                let middle = cum + len * 0.5;
                assert!(k == 0 || middle >= total * k as f32 / n as f32, "{k} of {n}: {i}");
                assert!(k + 1 == n || middle < total * (k + 1) as f32 / n as f32, "{k} of {n}: {i}");
                cum += len;
                checked += 1;
            }
        }
        assert_eq!(checked, 40);
    }
}
