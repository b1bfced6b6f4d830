use rustytree::format::{bytes, bytes_opt, elapsed, epoch_parts, mtime, ElapsedTime, NA_PLACEHOLDER};

#[test]
fn bytes_uses_iec_units() {
    assert_eq!(bytes(0), "0 B");
    assert_eq!(bytes(1024), "1 KiB");
    assert_eq!(bytes(1024 * 1024), "1 MiB");
}

#[test]
fn bytes_opt_renders_some_like_bytes_and_none_as_placeholder() {
    assert_eq!(bytes_opt(Some(1024)), "1 KiB");
    assert_eq!(bytes_opt(Some(0)), "0 B");
    assert_eq!(bytes_opt(None), NA_PLACEHOLDER);
    assert_eq!(NA_PLACEHOLDER, "N/A");
}

#[test]
fn mtime_none_is_empty_string() {
    assert_eq!(mtime(None), "");
}

#[test]
fn mtime_some_renders_local_string() {
    let s = mtime(Some(0));
    assert_eq!(s.len(), 16, "got {s:?}");
}

fn has_minute_stamp_shape(s: &str) -> bool {
    let b = s.as_bytes();
    b.len() == 16
        && b.iter().enumerate().all(|(i, c)| match i {
            4 | 7 => *c == b'-',
            10 => *c == b' ',
            13 => *c == b':',
            _ => c.is_ascii_digit(),
        })
}

#[test]
fn mtime_known_times_have_minute_stamp_shape() {
    assert!(has_minute_stamp_shape(&mtime(Some(0))));
    assert!(has_minute_stamp_shape(&mtime(Some(1_700_000_000_123_456_789))));
    assert!(has_minute_stamp_shape(&mtime(Some(-1))));
    assert!(has_minute_stamp_shape(&mtime(Some(-86_400_000_000_001))));
}

#[test]
fn elapsed_uses_appropriate_units() {
    assert_eq!(elapsed(ElapsedTime::from_millis(200)), "200ms");
    assert_eq!(elapsed(ElapsedTime { secs: 1, subsec_nanos: 250_000_000 }), "1.2s");
    assert_eq!(elapsed(ElapsedTime::from_secs(75)), "1m 15.0s");
}

#[test]
fn elapsed_rounds_ties_to_even_and_carries_into_minutes() {
    assert_eq!(elapsed(ElapsedTime { secs: 0, subsec_nanos: 999_600_000 }), "999ms");
    assert_eq!(elapsed(ElapsedTime { secs: 2, subsec_nanos: 350_000_000 }), "2.4s");
    assert_eq!(elapsed(ElapsedTime { secs: 59, subsec_nanos: 960_000_000 }), "60.0s");
    assert_eq!(elapsed(ElapsedTime { secs: 3600, subsec_nanos: 0 }), "60m 0.0s");
}

#[test]
fn elapsed_time_constructors_split_seconds() {
    let t = ElapsedTime::from_millis(61_250);
    assert_eq!(t.secs, 61);
    assert_eq!(t.subsec_nanos, 250_000_000);
    let u = ElapsedTime::from_secs(3);
    assert_eq!(u.secs, 3);
    assert_eq!(u.subsec_nanos, 0);
}

#[test]
fn epoch_parts_rounds_seconds_down() {
    assert_eq!(epoch_parts(0), Some((0, 0)));
    assert_eq!(epoch_parts(1_500_000_000), Some((1, 500_000_000)));
    assert_eq!(epoch_parts(-1), Some((-1, 999_999_999)));
    assert_eq!(epoch_parts(-1_000_000_000), Some((-1, 0)));
    assert_eq!(epoch_parts(i128::MAX), None);
    assert_eq!(epoch_parts(i128::MIN), None);
}

#[test]
fn mtime_of_an_unrepresentable_time_is_empty() {
    assert_eq!(mtime(Some(i128::MAX)), "");
}

#[test]
fn elapsed_rounds_exact_tenth_ties_to_even() {
    assert_eq!(elapsed(ElapsedTime { secs: 1, subsec_nanos: 150_000_000 }), "1.2s");
    assert_eq!(elapsed(ElapsedTime { secs: 1, subsec_nanos: 250_000_000 }), "1.2s");
}

#[test]
fn mtime_writes_signed_years_past_9999_and_nothing_past_chrono_range() {
    let s = mtime(Some(300_000_000_000i128 * 1_000_000_000));
    assert!(s.starts_with("+11"), "got {s:?}");
    assert_eq!(s.len(), 18, "got {s:?}");
    assert_eq!(mtime(Some(9_000_000_000_000i128 * 1_000_000_000)), "");
    assert_eq!(mtime(Some(-9_000_000_000_000i128 * 1_000_000_000)), "");
}
