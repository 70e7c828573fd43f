use hxgrep::progress::ProgressIndicator;

#[test]
fn test_progress_indicator_creation() {
    let progress = ProgressIndicator::new(1000, true);
    assert_eq!(progress.total_bytes, 1000);
    assert_eq!(progress.processed_bytes, 0);
    assert!(progress.enabled);

    let disabled_progress = ProgressIndicator::disabled();
    assert!(!disabled_progress.enabled);
}

#[test]
fn test_progress_update() {
    let mut progress = ProgressIndicator::new(1000, false);
    progress.update(250);
    assert_eq!(progress.processed_bytes, 250);

    progress.update(750);
    assert_eq!(progress.processed_bytes, 1000);
}

#[test]
fn test_progress_overflow() {
    let mut progress = ProgressIndicator::new(100, false);
    progress.update(150);
    assert_eq!(progress.processed_bytes, 150);
}

#[test]
fn progress_saturates_at_the_largest_count() {
    let mut progress = ProgressIndicator::new(10, true);
    progress.update(u64::MAX - 1);
    progress.update(5);
    assert_eq!(progress.processed_bytes, u64::MAX);
}

#[test]
fn progress_redraw_waits_for_the_interval() {
    let progress = ProgressIndicator::new(10, true);
    assert!(!progress.redraw_due(99));
    assert!(progress.redraw_due(100));
    assert!(!ProgressIndicator::new(0, true).redraw_due(500));
}

#[test]
fn progress_finish_completes_only_when_shown() {
    let mut shown = ProgressIndicator::new(10, true);
    shown.update(3);
    assert!(shown.finish());
    assert_eq!(shown.processed_bytes, 10);

    let mut hidden = ProgressIndicator::new(10, false);
    hidden.update(3);
    assert!(!hidden.finish());
    assert_eq!(hidden.processed_bytes, 3);
}
