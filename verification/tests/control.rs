use pulse::control::{quits, refresh_due, Key, REFRESH_MS};

#[test]
fn quit_keys() {
    assert!(quits(true, &Key::Char('q')));
    assert!(quits(true, &Key::Esc));
    assert!(!quits(false, &Key::Char('q')));
    assert!(!quits(false, &Key::Esc));
    assert!(!quits(true, &Key::Char('Q')));
    assert!(!quits(true, &Key::Other));
}

#[test]
fn refresh_schedule() {
    assert_eq!(REFRESH_MS, 1000);
    assert!(!refresh_due(500));
    assert!(!refresh_due(999));
    assert!(refresh_due(1000));
    assert!(refresh_due(u64::MAX));
}
