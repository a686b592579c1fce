use chrono::{DateTime, Datelike, Timelike, Utc};
use fraud::calendar::{ascii_to_u32, days_from_civil, parse_iso8601};

#[test]
fn iso8601_dow_thursday_1970() {
    let (_, w, e) = parse_iso8601(b"1970-01-01T00:00:00Z").unwrap();
    assert_eq!(e, 0);
    assert_eq!(w, 3); // Thursday = 3 (num_days_from_monday)
}

#[test]
fn iso8601_dow_known_dates() {
    // 2026-03-11 is a Wednesday
    let (_, w, _) = parse_iso8601(b"2026-03-11T18:45:53Z").unwrap();
    assert_eq!(w, 2);
    // 2026-04-20 is a Monday
    let (_, w, _) = parse_iso8601(b"2026-04-20T00:00:00Z").unwrap();
    assert_eq!(w, 0);
}

#[test]
fn timestamps_are_read_by_position() {
    assert_eq!(parse_iso8601(b"2026-03-11T18:45:53Z"), Some((18, 2, 1_773_254_753)));
    assert_eq!(parse_iso8601(b"2026x03x11x18x45x53"), Some((18, 2, 1_773_254_753)));
    assert_eq!(parse_iso8601(b"2000-02-29T99:99:99Z"), Some((99, 1, 951_782_400 + 99 * 3_661)));
    assert_eq!(parse_iso8601(b"0000-00-00T00:00:00Z"), Some((0, 1, -62_169_984_000)));
    assert_eq!(parse_iso8601(b"2026-03-11T18:45:5"), None);
    for at in [0, 3, 5, 6, 8, 9, 11, 12, 14, 15, 17, 18] {
        let mut text = *b"2026-03-11T18:45:53Z";
        text[at] = b'x';
        assert_eq!(parse_iso8601(&text), None);
    }
}

#[test]
fn offsets_count_towards_utc() {
    assert_eq!(parse_iso8601(b"1970-01-01T00:00:00-03:00"), Some((3, 3, 10_800)));
    assert_eq!(parse_iso8601(b"1970-01-01T00:00:00+00:30"), Some((23, 2, -1_800)));
    assert_eq!(parse_iso8601(b"2026-03-11T18:45:53+03:00"), Some((15, 2, 1_773_254_753 - 10_800)));
    assert_eq!(parse_iso8601(b"2026-03-11T18:45:53.250+03:00"), Some((15, 2, 1_773_254_753 - 10_800)));
    assert_eq!(parse_iso8601(b"2026-03-11T18:45:53.250Z"), Some((18, 2, 1_773_254_753)));
    assert_eq!(parse_iso8601(b"2026-03-11T22:30:00-05:45"), Some((4, 3, 1_773_288_900)));
    assert_eq!(parse_iso8601(b"2026-03-11T18:45:53+00:00"), parse_iso8601(b"2026-03-11T18:45:53Z"));
    // What is no offset is not looked at.
    for text in [
        "2026-03-11T18:45:53+03",
        "2026-03-11T18:45:53+3:00",
        "2026-03-11T18:45:53+03:0",
        "2026-03-11T18:45:53+24:00",
        "2026-03-11T18:45:53-03:60",
        "2026-03-11T18:45:53+99:99",
        "2026-03-11T18:45:53 x",
    ] {
        assert_eq!(parse_iso8601(text.as_bytes()), Some((18, 2, 1_773_254_753)), "{text}");
    }
    for text in [
        "2026-03-11T20:45:53+05:30",
        "2024-02-29T23:59:59-11:00",
        "2000-01-01T00:00:00+14:00",
        "1969-12-31T12:00:00.5-00:01",
        "2026-03-11T18:45:53+0300",
        "2026-03-11T18:45:53.125-0230",
        "2026-03-11T18:45:53+23:59",
    ] {
        let at: DateTime<Utc> = text.parse().unwrap();
        let expected = (at.hour() as u8, at.weekday().num_days_from_monday() as u8, at.timestamp());
        assert_eq!(parse_iso8601(text.as_bytes()), Some(expected), "{text}");
    }
}

#[test]
fn days_follow_the_calendar() {
    assert_eq!(days_from_civil(1970, 1, 1), 0);
    assert_eq!(days_from_civil(1969, 12, 31), -1);
    assert_eq!(days_from_civil(2000, 2, 29) + 1, days_from_civil(2000, 3, 1));
    assert_eq!(days_from_civil(1900, 2, 28) + 1, days_from_civil(1900, 3, 1));
    assert_eq!(days_from_civil(2023, 12, 31) + 1, days_from_civil(2024, 1, 1));
    assert_eq!(days_from_civil(2026, 3, 11), 20_523);
    assert_eq!(days_from_civil(-1, 3, 1), -719_834);
}

#[test]
fn digits_make_numbers() {
    assert_eq!(ascii_to_u32(b""), Some(0));
    assert_eq!(ascii_to_u32(b"4294967295"), Some(u32::MAX));
    assert_eq!(ascii_to_u32(b"12a"), None);
}
