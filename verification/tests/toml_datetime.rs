use tstring::syntax::{
    ErrorKind, NormalizedDate, NormalizedLocalDateTime, NormalizedOffsetDateTime,
    NormalizedTemporal, NormalizedTime,
};
use tstring::toml_backend::{normalize_datetime, TomlDatetimeParts, TomlOffset};

fn date() -> NormalizedDate {
    NormalizedDate { year: 1979, month: 5, day: 27 }
}

fn time() -> NormalizedTime {
    NormalizedTime { hour: 7, minute: 32, second: 0, nanosecond: 999_999_000 }
}

#[test]
fn offset_date_time_with_z_has_zero_offset() {
    let parts = TomlDatetimeParts { date: Some(date()), time: Some(time()), offset: Some(TomlOffset::Z) };
    let value = normalize_datetime(&parts, "1979-05-27T07:32:00.999999Z").unwrap();
    assert_eq!(
        value,
        NormalizedTemporal::OffsetDateTime(NormalizedOffsetDateTime {
            date: date(),
            time: time(),
            offset_minutes: 0,
        })
    );
}

#[test]
fn offset_date_time_keeps_custom_minutes() {
    let parts = TomlDatetimeParts {
        date: Some(date()),
        time: Some(time()),
        offset: Some(TomlOffset::Custom(-420)),
    };
    let value = normalize_datetime(&parts, "1979-05-27T00:32:00.999999-07:00").unwrap();
    assert_eq!(
        value,
        NormalizedTemporal::OffsetDateTime(NormalizedOffsetDateTime {
            date: date(),
            time: time(),
            offset_minutes: -420,
        })
    );
}

#[test]
fn local_shapes_are_told_apart() {
    let both = TomlDatetimeParts { date: Some(date()), time: Some(time()), offset: None };
    assert_eq!(
        normalize_datetime(&both, "1979-05-27T07:32:00.999999").unwrap(),
        NormalizedTemporal::LocalDateTime(NormalizedLocalDateTime { date: date(), time: time() })
    );
    let only_date = TomlDatetimeParts { date: Some(date()), time: None, offset: None };
    assert_eq!(
        normalize_datetime(&only_date, "1979-05-27").unwrap(),
        NormalizedTemporal::LocalDate(date())
    );
    let only_time = TomlDatetimeParts { date: None, time: Some(time()), offset: None };
    assert_eq!(
        normalize_datetime(&only_time, "07:32:00.999999").unwrap(),
        NormalizedTemporal::LocalTime(time())
    );
}

#[test]
fn other_shapes_are_semantic_errors_quoting_the_text() {
    let parts = TomlDatetimeParts { date: None, time: Some(time()), offset: Some(TomlOffset::Z) };
    let error = normalize_datetime(&parts, "07:32:00Z").unwrap_err();
    assert_eq!(error.kind, ErrorKind::Semantic);
    assert_eq!(error.message, "Unsupported TOML datetime shape: 07:32:00Z");
    let empty = TomlDatetimeParts { date: None, time: None, offset: None };
    let error = normalize_datetime(&empty, "").unwrap_err();
    assert_eq!(error.message, "Unsupported TOML datetime shape: ");
}
