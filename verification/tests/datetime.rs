use chrono::{DateTime, NaiveDate};
use synth::datetime::{expand_zone_suffix, format_epoch, infer_format, list_formats, parse_to_epoch};
use synth::value::Value;

const SECOND: i64 = 1_000_000;

fn text(s: &str) -> Value {
    Value::Text(s.to_string())
}

fn texts(samples: &[&str]) -> Vec<Value> {
    samples.iter().map(|s| text(s)).collect()
}

fn plain(v: &Value) -> &str {
    match v {
        Value::Text(s) => s,
        other => panic!("expected a text, got {other:?}"),
    }
}

#[test]
fn should_round_trip_naive_datetime_as_utc() {
    let samples = [
        ("2024-03-15", "%Y-%m-%d"),
        ("2024-03-15 10:30:00", "%Y-%m-%d %H:%M:%S"),
        ("2024-03-15 10:30:00.123", "%Y-%m-%d %H:%M:%S%.f"),
        ("2024-03-15 10:30:00.123", "%Y-%m-%d %H:%M:%S%.3f"),
        ("2024-03-15T10:30:00", "%Y-%m-%dT%H:%M:%S"),
        ("2024-03-15T10:30:00.123456", "%Y-%m-%dT%H:%M:%S%.f"),
        ("2024-03-15T10:30:00+00:00", "%Y-%m-%dT%H:%M:%S%:z"),
        ("2024/03/15", "%Y/%m/%d"),
    ];
    for (s, fmt) in samples {
        let epoch = parse_to_epoch(&text(s), Some(fmt))
            .unwrap_or_else(|| panic!("parse {s:?} with {fmt}"));
        let rendered =
            format_epoch(epoch, fmt).unwrap_or_else(|| panic!("format {epoch} with {fmt}"));
        assert_eq!(rendered, s, "round-trip {s:?} via {fmt}");
    }

    let date_epoch = parse_to_epoch(&text("2024-03-15"), Some("%Y-%m-%d")).unwrap();
    let midnight = NaiveDate::from_ymd_opt(2024, 3, 15)
        .unwrap()
        .and_hms_opt(0, 0, 0)
        .unwrap()
        .and_utc()
        .timestamp();
    assert_eq!(date_epoch, midnight * SECOND);
}

#[test]
fn should_infer_format_only_when_every_sample_round_trips() {
    let dates = texts(&["2024-01-01", "2024-03-15", "2024-12-31"]);
    assert_eq!(infer_format(&dates).as_deref(), Some("%Y-%m-%d"));

    let ts = texts(&["2024-01-01 00:00:00", "2024-06-15 12:30:00"]);
    assert_eq!(infer_format(&ts).as_deref(), Some("%Y-%m-%d %H:%M:%S"));
}

#[test]
fn should_return_none_for_mixed_formats() {
    let mixed = texts(&["2024-01-01", "2024-01-01 12:00:00"]);
    assert_eq!(infer_format(&mixed), None);
}

#[test]
fn should_preserve_tz_aware_offset_as_absolute_instant() {
    let aware = "2024-01-15T12:34:56+08:00";
    let epoch = parse_to_epoch(&text(aware), Some("%Y-%m-%dT%H:%M:%S%:z")).expect("tz-aware parse");
    let naive = parse_to_epoch(&text("2024-01-15T12:34:56"), Some("%Y-%m-%dT%H:%M:%S"))
        .expect("naive parse");
    assert_eq!(
        naive - epoch,
        8 * 3600 * SECOND,
        "offset must shift the instant, naive={naive} aware={epoch}"
    );
    let rfc = DateTime::parse_from_rfc3339(aware).unwrap().timestamp();
    assert_eq!(epoch, rfc * SECOND);
}

#[test]
fn should_return_none_for_unparseable_values() {
    assert_eq!(parse_to_epoch(&text("not-a-date"), Some("%Y-%m-%d")), None);
    assert_eq!(parse_to_epoch(&text("not-a-date"), None), None);
    assert_eq!(parse_to_epoch(&Value::Null, Some("%Y-%m-%d")), None);
    assert_eq!(format_epoch(i64::MAX, "%Y-%m-%d"), None);
    assert_eq!(infer_format(&[text("15-JAN-24")]), None);
}

#[test]
fn should_not_infer_compact_yyyymmdd_format() {
    let samples = texts(&["20240101", "20240315", "20241231"]);
    assert_eq!(infer_format(&samples), None);
    assert!(!list_formats().contains(&"%Y%m%d".to_string()));
}

#[test]
fn should_infer_fixed_width_fractional_seconds() {
    let micros = texts(&["2024-01-01 00:00:00.000000", "2024-06-15 12:30:00.123000"]);
    let fmt = infer_format(&micros).expect("microsecond samples must infer a format");
    assert!(
        fmt.ends_with("%.6f"),
        "expected a fixed-width 6-digit fraction format, got {fmt:?}"
    );
    for sample in &micros {
        let epoch = parse_to_epoch(sample, Some(&fmt)).expect("parse");
        assert_eq!(
            format_epoch(epoch, &fmt).as_deref(),
            Some(plain(sample)),
            "fixed-width fraction must round-trip byte-identically"
        );
    }
}

#[test]
fn should_normalize_tz_aware_samples_to_utc() {
    let aware = texts(&["2024-01-15T12:34:56+08:00", "2024-06-15T00:00:00+08:00"]);
    let fmt = infer_format(&aware).expect("tz-aware samples must infer a format");
    assert!(fmt.contains("%:z"), "expected a zoned format, got {fmt:?}");

    let epoch = parse_to_epoch(&aware[0], Some(&fmt)).expect("parse");
    assert_eq!(
        format_epoch(epoch, &fmt).as_deref(),
        Some("2024-01-15T04:34:56+00:00"),
        "zoned output must be UTC-normalised and keep the instant"
    );
    let rfc = DateTime::parse_from_rfc3339("2024-01-15T12:34:56+08:00")
        .unwrap()
        .timestamp();
    assert_eq!(epoch, rfc * SECOND);
}

#[test]
fn should_accept_hour_only_and_zulu_offsets() {
    let hour_only = texts(&["2024-01-15 12:34:56+08", "2024-06-15 00:00:00+08"]);
    let fmt = infer_format(&hour_only).expect("hour-only offsets must infer a format");
    assert_eq!(
        parse_to_epoch(&hour_only[0], Some(&fmt)),
        Some(1_705_293_296 * SECOND),
        "hour-only offset must resolve to the UTC instant"
    );

    let zulu = texts(&["2024-01-15T12:34:56Z", "2024-06-15T00:00:00Z"]);
    let fmt = infer_format(&zulu).expect("Z-suffixed samples must infer a format");
    assert_eq!(
        parse_to_epoch(&zulu[0], Some(&fmt)),
        Some(1_705_322_096 * SECOND),
        "Z suffix must resolve to the UTC instant"
    );
}

#[test]
fn a_text_without_a_known_format_is_read_as_an_rfc_3339_instant() {
    let text = text("2024-01-15T12:34:56.5+02:00");
    assert_eq!(
        parse_to_epoch(&text, None),
        Some(1_705_314_896 * SECOND + SECOND / 2)
    );
}

#[test]
fn zone_suffixes_are_spelled_out() {
    assert_eq!(
        expand_zone_suffix("2024-01-15 12:34:56+08").as_deref(),
        Some("2024-01-15 12:34:56+08:00")
    );
    assert_eq!(
        expand_zone_suffix("2024-01-15T12:34:56Z").as_deref(),
        Some("2024-01-15T12:34:56+00:00")
    );
    assert_eq!(expand_zone_suffix("2024-01-15 12:34:56"), None);
}

#[test]
fn an_inferred_format_reads_what_it_was_inferred_from() {
    let samples = texts(&["2024/03/15", "1999/12/31"]);
    let fmt = infer_format(&samples).unwrap();
    for sample in &samples {
        let epoch = parse_to_epoch(sample, Some(&fmt)).unwrap();
        assert_eq!(format_epoch(epoch, &fmt).as_deref(), Some(plain(sample)));
    }
}

#[test]
fn an_unknown_format_item_writes_nothing() {
    assert_eq!(format_epoch(0, "%Q"), None);
}
