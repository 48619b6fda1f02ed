use pulse::display::{
    chip_marks, clock_text, fan_text, pulse_glyph, temp_bar_text, truncate, vram_label,
};

#[test]
fn truncate_marks_cut() {
    assert_eq!(truncate("hello", 0), "");
    assert_eq!(truncate("hello", 5), "hello");
    assert_eq!(truncate("hello", 10), "hello");
    assert_eq!(truncate("hello world", 5), "hell…");
    assert_eq!(truncate("héllo wörld", 3), "hé…");
    assert_eq!(truncate("abc", 1), "…");
}

#[test]
fn temp_bar_cells() {
    assert_eq!(temp_bar_text(None, 3), "···");
    assert_eq!(temp_bar_text(Some(2), 4), "██░░");
    assert_eq!(temp_bar_text(Some(0), 2), "░░");
    assert_eq!(temp_bar_text(Some(14), 14), "██████████████");
    assert_eq!(temp_bar_text(Some(3), 0), "");
}

#[test]
fn clock_is_time_of_day() {
    assert_eq!(clock_text(3661), "01:01:01");
    assert_eq!(clock_text(86399), "23:59:59");
    assert_eq!(clock_text(86400), "00:00:00");
    assert_eq!(clock_text(1_700_000_000), "22:13:20");
}

#[test]
fn vram_label_text() {
    assert_eq!(vram_label(Some(1024), Some(8192)), "VRAM 1024/8192 MB");
    assert_eq!(vram_label(Some(0), None), "VRAM —");
    assert_eq!(vram_label(None, None), "VRAM —");
}

#[test]
fn fan_text_percent() {
    assert_eq!(fan_text(Some(45)), "45%");
    assert_eq!(fan_text(Some(0)), "0%");
    assert_eq!(fan_text(None), "N/A");
}

#[test]
fn pulse_alternates() {
    assert_eq!(pulse_glyph(0), "●");
    assert_eq!(pulse_glyph(1), "◆");
    assert_eq!(pulse_glyph(u64::MAX), "◆");
}

#[test]
fn chip_marks_by_status() {
    assert_eq!(chip_marks(true), ("●", "OK"));
    assert_eq!(chip_marks(false), ("○", "--"));
}
