use pulse::history::{History, MetricSample, Series, CAP};

fn series_of(values: &[u64]) -> Series {
    let mut s = Series::default();
    for v in values {
        s.push_raw(*v);
    }
    s
}

#[test]
fn push_raw_keeps_most_recent_cap_samples() {
    let values: Vec<u64> = (0..80).collect();
    let s = series_of(&values);
    assert_eq!(s.len(), CAP);
    assert_eq!(s.values(), (8..80).collect::<Vec<u64>>());
}

#[test]
fn push_raw_below_cap_keeps_everything() {
    let s = series_of(&[5, 6, 7]);
    assert_eq!(s.values(), vec![5, 6, 7]);
}

#[test]
fn normalized_empty_series_draws_baseline() {
    let s = Series::default();
    assert_eq!(s.normalized(), vec![1; 8]);
}

#[test]
fn normalized_flat_series_wobbles() {
    let s = series_of(&[500, 501]);
    assert_eq!(s.normalized(), vec![35, 36]);
    let s = series_of(&[10]);
    assert_eq!(s.normalized(), vec![45]);
    let s = series_of(&[7, 7, 7, 7, 7, 7, 7, 7, 9]);
    assert_eq!(s.normalized(), vec![42, 43, 44, 45, 46, 47, 48, 42, 45]);
}

#[test]
fn normalized_scales_min_to_1_and_max_to_100() {
    let s = series_of(&[0, 50, 100]);
    assert_eq!(s.normalized(), vec![1, 50, 100]);
    let s = series_of(&[1000, 1003, 1001]);
    assert_eq!(s.normalized(), vec![1, 100, 34]);
}

#[test]
fn normalized_levels_stay_in_range() {
    let values: Vec<u64> = (0..72).map(|i| (i * 7919) % 1000).collect();
    let s = series_of(&values);
    for l in s.normalized() {
        assert!((1..=100).contains(&l));
    }
}

fn sample(base: u64) -> MetricSample {
    MetricSample {
        cpu_clock: base,
        cpu_usage: base + 1,
        gpu_temp: base + 2,
        gpu_clock: base + 3,
        gpu_power: base + 4,
        gpu_usage: base + 5,
        ram_pct: base + 6,
        net_down: base + 7,
        net_up: base + 8,
    }
}

#[test]
fn push_from_snapshot_feeds_every_series() {
    let mut h = History::default();
    h.push_from_snapshot(&sample(100));
    h.push_from_snapshot(&sample(200));
    assert_eq!(h.tick, 2);
    assert_eq!(h.cpu_clock.values(), vec![100, 200]);
    assert_eq!(h.cpu_usage.values(), vec![101, 201]);
    assert_eq!(h.gpu_temp.values(), vec![102, 202]);
    assert_eq!(h.gpu_clock.values(), vec![103, 203]);
    assert_eq!(h.gpu_power.values(), vec![104, 204]);
    assert_eq!(h.gpu_usage.values(), vec![105, 205]);
    assert_eq!(h.ram_pct.values(), vec![106, 206]);
    assert_eq!(h.net_down.values(), vec![107, 207]);
    assert_eq!(h.net_up.values(), vec![108, 208]);
}

#[test]
fn push_from_snapshot_tick_wraps() {
    let mut h = History::default();
    h.tick = u64::MAX;
    h.push_from_snapshot(&sample(0));
    assert_eq!(h.tick, 0);
}

#[test]
fn history_series_stay_bounded() {
    let mut h = History::default();
    for i in 0..100 {
        h.push_from_snapshot(&sample(i));
    }
    assert_eq!(h.net_up.len(), CAP);
    assert_eq!(h.net_up.values()[0], 28 + 8);
}

#[test]
fn clones_are_independent_copies() {
    let s = series_of(&[1, 2, 3]);
    let mut c = s.clone();
    c.push_raw(4);
    assert_eq!(s.values(), vec![1, 2, 3]);
    assert_eq!(c.values(), vec![1, 2, 3, 4]);
    let mut h = History::default();
    h.push_from_snapshot(&sample(10));
    let h2 = h.clone();
    assert_eq!(h2.tick, 1);
    assert_eq!(h2.ram_pct.values(), vec![16]);
}

#[test]
fn refreshes_keep_all_series_in_step() {
    let mut h = History::default();
    for n in 1..=100u64 {
        h.push_from_snapshot(&sample(n));
        let expected = if (n as usize) < CAP { n as usize } else { CAP };
        for s in [&h.cpu_clock, &h.cpu_usage, &h.gpu_temp, &h.gpu_clock, &h.gpu_power, &h.gpu_usage, &h.ram_pct, &h.net_down, &h.net_up] {
            assert_eq!(s.len(), expected);
        }
        assert_eq!(h.tick, n);
    }
    let first = 100 - CAP as u64 + 1;
    assert_eq!(h.gpu_power.values(), (first..=100).map(|n| n + 4).collect::<Vec<u64>>());
}
