use regression_charts::errors::AggError;
use regression_charts::version::{format_version, parse_version, version_axis, VersionId};

fn v(major: u64, minor: u64, patch: u64) -> VersionId {
    VersionId::new(major, minor, patch)
}

#[test]
fn parse_then_format_is_identity_for_canonical_strings() {
    let parsed = parse_version(b"0.17.66").unwrap();
    assert_eq!(parsed, v(0, 17, 66));
    assert_eq!(format_version(&parsed), b"0.17.66".to_vec());

    let parsed = parse_version(b"1.0.0").unwrap();
    assert_eq!(format_version(&parsed), b"1.0.0".to_vec());

    let parsed = parse_version(b"0.18.45").unwrap();
    assert_eq!(format_version(&parsed), b"0.18.45".to_vec());
}

#[test]
fn format_then_parse_is_identity() {
    for ver in [v(0, 0, 0), v(0, 17, 66), v(12, 345, 6789), v(u64::MAX, 0, u64::MAX)] {
        let s = format_version(&ver);
        assert_eq!(parse_version(&s).unwrap(), ver);
    }
}

#[test]
fn parse_rejects_malformed_strings() {
    for bad in [
        &b""[..],
        b"0.17",
        b"0.17.66.1",
        b"a.b.c",
        b"0..66",
        b".17.66",
        b"0.17.",
        b"0.17.6x",
        b"0 17 66",
        b"18446744073709551616.0.0",
    ] {
        assert_eq!(parse_version(bad), Err(AggError::MalformedVersion));
    }
}

#[test]
fn parse_accepts_leading_zeros_as_numeric() {
    assert_eq!(parse_version(b"0.017.66").unwrap(), v(0, 17, 66));
}

#[test]
fn ordering_is_a_strict_total_order() {
    let samples = [v(0, 16, 51), v(0, 17, 0), v(0, 17, 66), v(0, 17, 79), v(1, 0, 0)];
    for a in &samples {
        assert!(!a.lt(a));
        for b in &samples {
            if a != b {
                // exactly one direction holds
                assert!(a.lt(b) != b.lt(a));
            } else {
                assert!(!a.lt(b) && !b.lt(a));
            }
        }
    }
}

#[test]
fn successor_increments_patch_or_crosses_minor_at_sentinel() {
    let sentinels = vec![v(0, 16, 51), v(0, 17, 79)];
    assert_eq!(v(0, 17, 66).successor(&sentinels), Some(v(0, 17, 67)));
    assert_eq!(v(0, 16, 51).successor(&sentinels), Some(v(0, 17, 0)));
    assert_eq!(v(0, 17, 79).successor(&sentinels), Some(v(0, 18, 0)));
}

#[test]
fn version_axis_spans_the_window() {
    let sentinels = vec![v(0, 16, 51)];
    let axis = version_axis(v(0, 16, 50), v(0, 17, 1), &sentinels);
    assert_eq!(axis, vec![v(0, 16, 50), v(0, 16, 51), v(0, 17, 0), v(0, 17, 1)]);

    let axis = version_axis(v(0, 17, 66), v(0, 17, 68), &Vec::new());
    assert_eq!(axis, vec![v(0, 17, 66), v(0, 17, 67), v(0, 17, 68)]);

    // start past the end: the start alone is emitted
    let axis = version_axis(v(0, 18, 0), v(0, 17, 0), &Vec::new());
    assert_eq!(axis, vec![v(0, 18, 0)]);
}

#[test]
fn error_messages_name_the_fault() {
    assert_eq!(AggError::MalformedVersion.message(), "malformed version string");
    assert_eq!(
        AggError::OutOfRangeVersion.message(),
        "version outside the analysis window"
    );
}
