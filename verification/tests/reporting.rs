use crunch_rs::fmt::format_size;
use crunch_rs::progress::Progress;

#[test]
fn format_size_bytes() {
    assert_eq!(format_size(0), "0 B");
    assert_eq!(format_size(100), "800 B");
    assert_eq!(format_size(127), "1016 B");
}

#[test]
fn format_size_scaled_units() {
    assert_eq!(format_size(128), "1.00 KB");
    assert_eq!(format_size(1024), "8.00 KB");
    assert_eq!(format_size(131072), "1.00 MB");
    assert_eq!(format_size(134217728), "1.00 GB");
}

#[test]
fn format_size_truncates_two_places() {
    // 200 lines -> 1600 bytes -> 1.5625 KB, truncated
    assert_eq!(format_size(200), "1.56 KB");
    // 160 lines -> 1280 bytes -> 1.25 KB exactly
    assert_eq!(format_size(160), "1.25 KB");
}

#[test]
fn progress_milestones_every_five_percent() {
    let mut p = Progress::new(100);
    assert_eq!(p.current, 0);
    assert_eq!(p.total, 100);
    for _ in 0..4 {
        assert_eq!(p.increment(), None);
    }
    assert_eq!(p.increment(), Some(5));
    assert_eq!(p.last_percentage, 5);
    for _ in 0..4 {
        assert_eq!(p.increment(), None);
    }
    assert_eq!(p.increment(), Some(10));
    assert_eq!(p.current, 10);
}

#[test]
fn progress_with_zero_total_reports_nothing() {
    let mut p = Progress::new(0);
    assert_eq!(p.increment(), None);
    assert_eq!(p.increment(), None);
    assert_eq!(p.current, 2);
    assert_eq!(p.last_percentage, 0);
}

#[test]
fn progress_can_pass_the_total() {
    // template mode under suppression considers more candidates than the
    // suppressed total; the percentage simply keeps climbing
    let mut p = Progress::new(2);
    assert_eq!(p.increment(), Some(50));
    assert_eq!(p.increment(), Some(100));
    assert_eq!(p.increment(), Some(150));
}
