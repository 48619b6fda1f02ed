use pulse::gpu::{GpuPoll, GpuSample, GpuState};

fn full_sample() -> GpuSample {
    GpuSample {
        name: Some("NVIDIA GeForce RTX 4070".to_string()),
        clock_mhz: Some(2475),
        temp_c: Some(61),
        power_mw: Some(185_500),
        memory: Some((3 * 1024 * 1024 * 1024, 12 * 1024 * 1024 * 1024)),
        fan_pct: Some(40),
        usage_pct: Some(97),
    }
}

#[test]
fn gpu_poll_sets_readings() {
    let mut s = GpuState::default();
    s.apply(GpuPoll::Device(full_sample()));
    assert_eq!(s.name, "NVIDIA GeForce RTX 4070");
    assert_eq!(s.clock_mhz, Some(2475));
    assert_eq!(s.temp_c, Some(61));
    assert_eq!(s.power_mw, Some(185_500));
    assert_eq!(s.vram_used_mb, Some(3072));
    assert_eq!(s.vram_total_mb, Some(12288));
    assert_eq!(s.fan_pct, Some(40));
    assert_eq!(s.usage_pct, Some(97));
    assert_eq!(s.error, None);
}

#[test]
fn gpu_failed_queries_keep_previous_readings() {
    let mut s = GpuState::default();
    s.apply(GpuPoll::Device(full_sample()));
    s.apply(GpuPoll::Device(GpuSample {
        name: None,
        clock_mhz: None,
        temp_c: Some(70),
        power_mw: None,
        memory: None,
        fan_pct: None,
        usage_pct: Some(5),
    }));
    assert_eq!(s.name, "NVIDIA GPU");
    assert_eq!(s.clock_mhz, Some(2475));
    assert_eq!(s.temp_c, Some(70));
    assert_eq!(s.vram_total_mb, Some(12288));
    assert_eq!(s.usage_pct, Some(5));
}

#[test]
fn gpu_failed_poll_records_error_only() {
    let mut s = GpuState::default();
    s.apply(GpuPoll::Device(full_sample()));
    s.apply(GpuPoll::OpenFailed("GPU open failed: gone".to_string()));
    assert_eq!(s.error.as_deref(), Some("GPU open failed: gone"));
    assert_eq!(s.temp_c, Some(61));
    s.apply(GpuPoll::Unavailable(Some("NVML init failed: x".to_string())));
    assert_eq!(s.error.as_deref(), Some("NVML init failed: x"));
    assert_eq!(s.name, "NVIDIA GeForce RTX 4070");
    s.apply(GpuPoll::Device(full_sample()));
    assert_eq!(s.error, None);
}
