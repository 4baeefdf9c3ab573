use egui_audio::TimeCursor;
use egui_audio::TimeRange;

fn cursor(start: i64, end: i64, min_size: i64) -> TimeCursor {
    TimeCursor { time_range: TimeRange { start, end }, min_size }
}

#[test]
fn default_is_empty_window() {
    let c = TimeCursor::default();
    assert_eq!(c.time_range.start, 0);
    assert_eq!(c.time_range.end, 0);
    assert_eq!(c.min_size, 1);
}

#[test]
fn try_initialize_only_once() {
    let mut c = TimeCursor::default();
    c.try_initialize(TimeRange { start: 10, end: 20 });
    assert_eq!(c.time_range, TimeRange { start: 10, end: 20 });
    c.try_initialize(TimeRange { start: 0, end: 5 });
    assert_eq!(c.time_range, TimeRange { start: 10, end: 20 });
}

#[test]
fn clamp_is_per_bound() {
    let c = cursor(100, 200, 1);
    let r = c.clamp(TimeRange { start: 50, end: 250 });
    assert_eq!(r, TimeRange { start: 100, end: 200 });
    let r = c.clamp(TimeRange { start: 150, end: 160 });
    assert_eq!(r, TimeRange { start: 150, end: 160 });
    // A range entirely outside collapses onto the nearer bound.
    let r = c.clamp(TimeRange { start: 300, end: 400 });
    assert_eq!(r, TimeRange { start: 200, end: 200 });
}

#[test]
fn clamp_with_offset_maps_and_unmaps() {
    let c = cursor(100, 200, 1);
    let r = c.clamp_with_offset(TimeRange { start: 0, end: 500 }, 50);
    // Shifted to [50, 550), clamped to [100, 200), shifted back.
    assert_eq!(r, TimeRange { start: 50, end: 150 });
}

#[test]
fn overlaps_uses_half_open_windows() {
    let c = cursor(100, 200, 1);
    assert!(c.overlaps(TimeRange { start: 150, end: 160 }));
    assert!(c.overlaps(TimeRange { start: 0, end: 101 }));
    assert!(!c.overlaps(TimeRange { start: 200, end: 300 }));
    assert!(!c.overlaps(TimeRange { start: 0, end: 100 }));
    let (lo, hi) = c.time_range_inclusive();
    assert_eq!((lo, hi), (100, 200));
}

#[test]
fn shift_translates_both_bounds() {
    let mut c = cursor(100, 200, 1);
    c.shift(-30);
    assert_eq!(c.time_range, TimeRange { start: 70, end: 170 });
}

#[test]
fn zoom_round_trip_restores_window() {
    let mut c = cursor(100, 300, 1);
    c.zoom_to(200, 2, 1);
    assert_eq!(c.time_range, TimeRange { start: 0, end: 400 });
    c.zoom_to(200, 1, 2);
    assert_eq!(c.time_range, TimeRange { start: 100, end: 300 });
}

#[test]
fn zoom_in_never_collapses_below_min_size() {
    let mut c = cursor(0, 1000, 1);
    c.zoom_to(500, 1, 1_000_000);
    assert_eq!(c.time_range, TimeRange { start: 500, end: 501 });
    assert!(c.time_range.end - c.time_range.start >= c.min_size);

    // A pivot outside the window still leaves a valid window.
    let mut c = cursor(0, 10, 4);
    c.zoom_to(100, 1, 4);
    assert!(c.time_range.end - c.time_range.start >= c.min_size);
    assert!(c.time_range.start <= 100 - 4 / 2);
    assert!(c.time_range.end >= 100 + (4 - 4 / 2));
}

#[test]
fn move_into_range_shifts_drifted_window_back() {
    // One second of drift before zero, content spanning ten seconds (in
    // ticks of one 48000th of a second).
    let mut c = cursor(-48000, 0, 1);
    c.move_into_range(TimeRange { start: 0, end: 480000 });
    assert_eq!(c.time_range.start, 0);
    assert_eq!(c.time_range.end, 48000);
    assert!(c.time_range.end <= 480000);
}

#[test]
fn move_into_range_clamps_to_far_bound() {
    // Drifted past the right edge: shifted back, width preserved.
    let mut c = cursor(950, 1050, 1);
    c.move_into_range(TimeRange { start: 0, end: 1000 });
    assert_eq!(c.time_range, TimeRange { start: 900, end: 1000 });

    // Wider than the bounds: pinned to them.
    let mut c = cursor(-500, 2000, 1);
    c.move_into_range(TimeRange { start: 0, end: 1000 });
    assert_eq!(c.time_range, TimeRange { start: 0, end: 1000 });

    // Already inside: untouched.
    let mut c = cursor(100, 200, 1);
    c.move_into_range(TimeRange { start: 0, end: 1000 });
    assert_eq!(c.time_range, TimeRange { start: 100, end: 200 });
}

#[test]
fn zoom_in_then_out_drifts_less_than_one_factor_step() {
    let mut c = cursor(100, 301, 1);
    c.zoom_to(200, 1, 3);
    assert_eq!(c.time_range, TimeRange { start: 167, end: 233 });
    c.zoom_to(200, 3, 1);
    // The division remainder costs less than one factor step per bound.
    assert_eq!(c.time_range, TimeRange { start: 101, end: 299 });
    assert!(100 <= c.time_range.start && c.time_range.start < 100 + 3);
    assert!(301 - 3 < c.time_range.end && c.time_range.end <= 301);
}
