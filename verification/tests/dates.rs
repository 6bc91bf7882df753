use chrono::Datelike;
use photorg::calendar::{local_time, Date, DateTime};
use photorg::dates::{
    in_sane_range, in_sane_range_at, parse_exif_datetime, parse_exif_datetime_at,
    parse_filename_date, parse_filename_date_at, sane_or_none, system_time_to_local, DateSource,
    MIN_YEAR,
};

fn dt(y: i32, mo: u32, d: u32, h: u32, mi: u32, s: u32) -> DateTime {
    DateTime::new(Date::new(y, mo, d).unwrap(), h, mi, s).unwrap()
}

#[test]
fn a_letter_of_two_bytes_stands_for_the_seconds() {
    let found = |name: &str| parse_filename_date_at(name, 2024);
    let day = Some(dt(2023, 8, 15, 0, 0, 0));
    assert_eq!(found("19000101_1011é20230815.jpg"), day);
    assert_eq!(found("19000101_1011€20230815.jpg"), day);
    assert_eq!(found("19000101_1011---20230815.jpg"), day);
    assert_eq!(found("19000101_1011--20230815.jpg"), None);
    assert_eq!(found("19000101_1011-é20230815.jpg"), day);
    assert_eq!(
        found("20230815_1011é.jpg"),
        Some(dt(2023, 8, 15, 10, 11, 0))
    );
}

#[test]
fn parses_exif_datetimes() {
    assert_eq!(
        parse_exif_datetime("2023:08:15 12:34:56"),
        Some(dt(2023, 8, 15, 12, 34, 56))
    );
    assert_eq!(parse_exif_datetime("0000:00:00 00:00:00"), None);
    assert_eq!(parse_exif_datetime(""), None);
    assert_eq!(parse_exif_datetime("garbage"), None);
    assert_eq!(parse_exif_datetime("1899:01:01 00:00:00"), None);
}

#[test]
fn parses_filename_patterns() {
    let cases = [
        ("IMG_20230815_123456.jpg", dt(2023, 8, 15, 12, 34, 56)),
        ("20230815_123456.jpg", dt(2023, 8, 15, 12, 34, 56)),
        ("PXL_20220103_180000000.jpg", dt(2022, 1, 3, 18, 0, 0)),
        ("IMG-20200101-WA0001.jpg", dt(2020, 1, 1, 0, 0, 0)),
        (
            "Screenshot 2024-01-05 at 10.11.12.png",
            dt(2024, 1, 5, 10, 11, 12),
        ),
        ("VID_20211231.mp4", dt(2021, 12, 31, 0, 0, 0)),
    ];
    for (name, want) in cases {
        assert_eq!(parse_filename_date(name), Some(want), "{name}");
    }
}

#[test]
fn rejects_non_dates_and_out_of_range() {
    assert_eq!(parse_filename_date("IMG_1234.jpg"), None);
    assert_eq!(parse_filename_date("DSC00001.jpg"), None);
    assert_eq!(parse_filename_date("19000101_000000.jpg"), None);
    assert_eq!(parse_filename_date("20231345_000000.jpg"), None);
    // A 17-digit run is an id, not a timestamp.
    assert_eq!(parse_filename_date("12345678901234567.jpg"), None);
}

#[test]
fn sanity_range_rejects_the_far_future() {
    let far = dt(chrono::Local::now().year() + 5, 1, 1, 0, 0, 0);
    assert!(!in_sane_range(&far));
}

#[test]
fn the_sane_range_ends_after_next_year() {
    assert!(in_sane_range_at(&dt(2021, 1, 1, 0, 0, 0), 2020));
    assert!(!in_sane_range_at(&dt(2022, 1, 1, 0, 0, 0), 2020));
    assert!(in_sane_range_at(&dt(MIN_YEAR, 1, 1, 0, 0, 0), 2020));
    assert!(!in_sane_range_at(&dt(MIN_YEAR - 1, 12, 31, 0, 0, 0), 2020));
    assert!(in_sane_range(&dt(2020, 1, 1, 0, 0, 0)));
    assert_eq!(sane_or_none(Some(dt(1950, 1, 1, 0, 0, 0)), 2020), None);
}

#[test]
fn the_year_of_the_clock_bounds_what_text_tells() {
    let t = dt(2031, 2, 3, 4, 5, 6);
    assert_eq!(parse_exif_datetime_at("2031:02:03 04:05:06", 2030), Some(t));
    assert_eq!(parse_exif_datetime_at("2031:02:03 04:05:06", 2029), None);
    assert_eq!(
        parse_filename_date_at("IMG_20310203_040506.jpg", 2030),
        Some(t)
    );
    assert_eq!(parse_filename_date_at("IMG_20310203_040506.jpg", 2029), None);
}

#[test]
fn days_that_do_not_exist_are_refused() {
    assert!(Date::new(2023, 2, 29).is_none());
    assert!(Date::new(2024, 2, 29).is_some());
    assert!(Date::new(2024, 13, 1).is_none());
    assert!(DateTime::new(Date::new(2024, 1, 1).unwrap(), 24, 0, 0).is_none());
    assert_eq!(Date::new(2024, 12, 30).unwrap().iso_week(), (2025, 1));
}

#[test]
fn file_times_are_told_in_local_time() {
    // Noon of 2014-02-13 in universal time, whatever the zone of the machine.
    let t = system_time_to_local(1_392_292_800, 0).unwrap();
    let want = chrono::DateTime::from_timestamp(1_392_292_800, 0)
        .unwrap()
        .with_timezone(&chrono::Local)
        .naive_local();
    assert_eq!(t.year(), want.year());
    assert_eq!(t.date().month(), want.month());
    assert_eq!(t.date().day(), want.day());
    assert_eq!(local_time(1_392_292_800, 0), Some(t));
    assert_eq!(system_time_to_local(-4_000_000_000, 0), None);
    assert_eq!(system_time_to_local(i64::MAX, 0), None);
}

#[test]
fn date_sources_have_names_and_ranks() {
    assert_eq!(
        DateSource::ExifDateTimeOriginal.rank() < DateSource::Mtime.rank(),
        true
    );
    assert!(DateSource::Mtime.rank() < DateSource::Unknown.rank());
    assert_ne!(DateSource::Filename.as_str(), DateSource::Mtime.as_str());
}
