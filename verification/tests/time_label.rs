use hanji::time_label::{
    civil_from_days, format_civil_datetime, format_last_edited_time, unix_seconds,
    utc_datetime_from_unix_seconds, CivilDateTime,
};

#[test]
fn formats_document_timestamp_copy() {
    assert_eq!(
        format_civil_datetime(CivilDateTime {
            year: 2026,
            month: 6,
            day: 27,
            hour: 1,
            minute: 16,
        }),
        "June 27, 2026, 1:16 AM"
    );
}

#[test]
fn formats_midnight_and_noon() {
    assert_eq!(
        format_civil_datetime(CivilDateTime {
            year: 2026,
            month: 6,
            day: 27,
            hour: 0,
            minute: 5,
        }),
        "June 27, 2026, 12:05 AM"
    );
    assert_eq!(
        format_civil_datetime(CivilDateTime {
            year: 2026,
            month: 6,
            day: 27,
            hour: 12,
            minute: 5,
        }),
        "June 27, 2026, 12:05 PM"
    );
}

#[test]
fn converts_unix_epoch_to_civil_date() {
    assert_eq!(
        utc_datetime_from_unix_seconds(0),
        CivilDateTime {
            year: 1970,
            month: 1,
            day: 1,
            hour: 0,
            minute: 0,
        }
    );
}

#[test]
fn formats_afternoon_out_of_range_month_and_negative_year() {
    assert_eq!(
        format_civil_datetime(CivilDateTime {
            year: -44,
            month: 13,
            day: 15,
            hour: 23,
            minute: 59,
        }),
        "January 15, -44, 11:59 PM"
    );
}

#[test]
fn converts_times_before_the_epoch_and_leap_days() {
    assert_eq!(
        utc_datetime_from_unix_seconds(-1),
        CivilDateTime {
            year: 1969,
            month: 12,
            day: 31,
            hour: 23,
            minute: 59,
        }
    );
    // 2024-02-29 12:34 UTC
    assert_eq!(
        utc_datetime_from_unix_seconds(1_709_210_040),
        CivilDateTime {
            year: 2024,
            month: 2,
            day: 29,
            hour: 12,
            minute: 34,
        }
    );
}

#[test]
fn civil_days_follow_the_gregorian_calendar() {
    assert_eq!(civil_from_days(0), (1970, 1, 1));
    assert_eq!(civil_from_days(59), (1970, 3, 1));
    assert_eq!(civil_from_days(11_016), (2000, 2, 29));
    assert_eq!(civil_from_days(-719_468), (0, 3, 1));
    assert_eq!(civil_from_days(47_482), (2100, 1, 1));
}

#[test]
fn unix_seconds_are_signed_and_capped() {
    assert_eq!(unix_seconds(5, false), 5);
    assert_eq!(unix_seconds(5, true), -5);
    assert_eq!(unix_seconds(u64::MAX, false), i64::MAX);
    assert_eq!(unix_seconds(u64::MAX, true), -i64::MAX);
}

#[test]
fn last_edited_label_prefixes_the_timestamp() {
    assert_eq!(
        format_last_edited_time(CivilDateTime {
            year: 2026,
            month: 6,
            day: 27,
            hour: 13,
            minute: 16,
        }),
        "Last edited June 27, 2026, 1:16 PM"
    );
}
