use tomli_rust::{Date, Datetime, Offset, Time};

fn date(year: u16, month: u8, day: u8) -> Date {
    Date { year, month, day }
}

fn time(hour: u8, minute: u8, second: u8, microsecond: u32) -> Time {
    Time { hour, minute, second, microsecond }
}

#[test]
fn datetime_local_time() {
    assert_eq!(Datetime::parse("07:32:00"), Some(Datetime::LocalTime(time(7, 32, 0, 0))));
    assert_eq!(
        Datetime::parse("00:32:00.999999"),
        Some(Datetime::LocalTime(time(0, 32, 0, 999_999)))
    );
    assert_eq!(Datetime::parse("07:32:00.5"), Some(Datetime::LocalTime(time(7, 32, 0, 500_000))));
    assert_eq!(
        Datetime::parse("07:32:00.1234567"),
        Some(Datetime::LocalTime(time(7, 32, 0, 123_456)))
    );
    assert_eq!(Datetime::parse("07:32"), None);
    assert_eq!(Datetime::parse("07:3a:00"), None);
}

#[test]
fn datetime_local_date() {
    assert_eq!(Datetime::parse("1979-05-27"), Some(Datetime::LocalDate(date(1979, 5, 27))));
    assert_eq!(Datetime::parse("1979-05-2x"), None);
    assert_eq!(Datetime::parse("1979/05/27"), None);
}

#[test]
fn datetime_local_date_time() {
    let expected = Some(Datetime::LocalDateTime { date: date(1979, 5, 27), time: time(7, 32, 0, 0) });
    assert_eq!(Datetime::parse("1979-05-27T07:32:00"), expected);
    assert_eq!(Datetime::parse("1979-05-27t07:32:00"), expected);
    assert_eq!(Datetime::parse("1979-05-27 07:32:00"), expected);
    assert_eq!(
        Datetime::parse("1979-05-27T00:32:00.999999"),
        Some(Datetime::LocalDateTime { date: date(1979, 5, 27), time: time(0, 32, 0, 999_999) })
    );
    assert_eq!(Datetime::parse("1979-05-27X07:32:00"), None);
    assert_eq!(Datetime::parse("1979-05-27T07:32"), None);
}

#[test]
fn datetime_offset_date_time() {
    let utc = Offset { sign: 1, hour: 0, minute: 0 };
    assert_eq!(
        Datetime::parse("1979-05-27T07:32:00Z"),
        Some(Datetime::OffsetDateTime { date: date(1979, 5, 27), time: time(7, 32, 0, 0), offset: utc.clone() })
    );
    assert_eq!(
        Datetime::parse("1979-05-27T07:32:00z"),
        Some(Datetime::OffsetDateTime { date: date(1979, 5, 27), time: time(7, 32, 0, 0), offset: utc })
    );
    assert_eq!(
        Datetime::parse("1979-05-27T00:32:00.999999-07:00"),
        Some(Datetime::OffsetDateTime {
            date: date(1979, 5, 27),
            time: time(0, 32, 0, 999_999),
            offset: Offset { sign: -1, hour: 7, minute: 0 },
        })
    );
    assert_eq!(
        Datetime::parse("1979-05-27T07:32:00+05:30"),
        Some(Datetime::OffsetDateTime {
            date: date(1979, 5, 27),
            time: time(7, 32, 0, 0),
            offset: Offset { sign: 1, hour: 5, minute: 30 },
        })
    );
    assert_eq!(Datetime::parse("1979-05-27T07:32:00+0530"), None);
    assert_eq!(Datetime::parse("1979-05-27T07:32:00+05:3x"), None);
}

#[test]
fn datetime_text_forms() {
    let d = date(1979, 5, 27);
    let t = time(7, 32, 0, 999);
    let o = Offset { sign: -1, hour: 7, minute: 0 };
    assert_eq!(Datetime::LocalDate(d.clone()).to_text(), "1979-05-27");
    assert_eq!(Datetime::LocalTime(t.clone()).to_text(), "07:32:00.000999");
    assert_eq!(
        Datetime::LocalDateTime { date: d.clone(), time: t.clone() }.to_text(),
        "1979-05-27T07:32:00.000999"
    );
    assert_eq!(
        Datetime::OffsetDateTime { date: d, time: t, offset: o }.to_text(),
        "1979-05-27T07:32:00.000999-07:00"
    );
}

#[test]
fn datetime_text_pads_and_widens() {
    let utc = Offset { sign: 0, hour: 0, minute: 0 };
    assert_eq!(
        Datetime::OffsetDateTime { date: date(5, 1, 2), time: time(0, 0, 0, 0), offset: utc }.to_text(),
        "0005-01-02T00:00:00.000000+00:00"
    );
    assert_eq!(Datetime::LocalDate(date(12345, 100, 255)).to_text(), "12345-100-255");
    assert_eq!(Datetime::LocalTime(time(1, 2, 3, 1_234_567)).to_text(), "01:02:03.1234567");
}

#[test]
fn datetime_text_parses_back() {
    let samples = vec![
        Datetime::LocalDate(date(2024, 2, 29)),
        Datetime::LocalTime(time(23, 59, 59, 123_456)),
        Datetime::LocalDateTime { date: date(1, 1, 1), time: time(0, 0, 0, 0) },
        Datetime::OffsetDateTime {
            date: date(9999, 12, 31),
            time: time(12, 30, 45, 500_000),
            offset: Offset { sign: 1, hour: 5, minute: 30 },
        },
        Datetime::OffsetDateTime {
            date: date(1979, 5, 27),
            time: time(0, 32, 0, 999_999),
            offset: Offset { sign: -1, hour: 7, minute: 0 },
        },
    ];
    for dt in samples {
        assert_eq!(Datetime::parse(&dt.to_text()), Some(dt.clone()));
    }
}

#[test]
fn datetime_refuses_out_of_range_fields() {
    assert_eq!(Datetime::parse("2021-13-45"), None);
    assert_eq!(Datetime::parse("2021-00-10"), None);
    assert_eq!(Datetime::parse("2021-04-31"), None);
    assert_eq!(Datetime::parse("2023-02-29"), None);
    assert_eq!(Datetime::parse("1900-02-29"), None);
    assert_eq!(Datetime::parse("2000-02-29"), Some(Datetime::LocalDate(date(2000, 2, 29))));
    assert_eq!(Datetime::parse("24:00:00"), None);
    assert_eq!(Datetime::parse("23:60:00"), None);
    assert_eq!(Datetime::parse("23:59:60"), None);
    assert_eq!(Datetime::parse("1979-05-27T07:32:00+24:00"), None);
    assert_eq!(Datetime::parse("1979-05-27T07:32:00-07:60"), None);
}

#[test]
fn datetime_refuses_trailing_text() {
    assert_eq!(Datetime::parse("1979-05-27T07:32:00Zjunk"), None);
    assert_eq!(Datetime::parse("07:32:00xyz"), None);
    assert_eq!(Datetime::parse("07:32:00.5x"), None);
    assert_eq!(Datetime::parse("07:32:00."), None);
    assert_eq!(Datetime::parse("00:00:00.!"), None);
    assert_eq!(Datetime::parse("1979-05-27T07:32:00.Z"), None);
    assert_eq!(Datetime::parse("1979-05-27x"), None);
}

#[test]
fn datetime_parsed_values_write_back() {
    for s in ["1979-05-27T07:32:00.5-07:00", "2000-02-29", "23:59:59", "1979-05-27 00:32:00.1234567z"] {
        let dt = Datetime::parse(s).unwrap();
        assert_eq!(Datetime::parse(&dt.to_text()), Some(dt.clone()));
    }
}
