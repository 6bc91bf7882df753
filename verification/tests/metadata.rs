use photorg::calendar::{Date, DateTime};
use photorg::dates::DateSource;
use photorg::formats::FileKind;
use photorg::metadata::{
    exif_dates, exif_dates_at, extract, extract_at, io_to_file_error, resolve_date,
    should_read_exif, ExifDates, FileTimes, Gps, PhotoMetadata,
};
use photorg::tags::{
    ascii_field, dms, keep, read_exif, Dms, ExifFields, Fix, Fraction, RawFields, Value,
};

fn mk(p: &str) -> PhotoMetadata {
    PhotoMetadata {
        rel_path: p.into(),
        size: 0,
        kind: FileKind::Image,
        taken: None,
        date_source: DateSource::Unknown,
        gps: None,
        offset_time: None,
        camera_make: None,
        camera_model: None,
        signature_ok: true,
    }
}

fn rat(num: u32, denom: u32) -> Fraction {
    Fraction { num, denom }
}

fn fractions(v: Vec<Fraction>) -> Option<Value> {
    Some(Value::Fractions(v, "shown".into()))
}

fn text(parts: &[&[u8]]) -> Option<Value> {
    Some(Value::Text(parts.iter().map(|p| p.to_vec()).collect()))
}

fn at(y: i32) -> DateTime {
    DateTime::midnight(Date::new(y, 1, 1).unwrap())
}

#[test]
fn rejects_zero_denominator() {
    assert_eq!(
        dms(&fractions(vec![rat(45, 1), rat(48, 0), rat(0, 1)])),
        None
    );
}

#[test]
fn companion_key_is_case_insensitive_on_the_stem() {
    assert_eq!(
        mk("a/IMG_0001.HEIC").companion_key(),
        mk("a/img_0001.mov").companion_key()
    );
    assert_ne!(
        mk("a/IMG_0001.HEIC").companion_key(),
        mk("b/IMG_0001.mov").companion_key()
    );
}

#[test]
fn angles_take_the_first_three_fractions() {
    let want = Dms {
        degrees: rat(45, 1),
        minutes: rat(48, 1),
        seconds: rat(0, 1),
    };
    assert_eq!(
        dms(&fractions(vec![rat(45, 1), rat(48, 1), rat(0, 1), rat(9, 0)])),
        Some(want)
    );
    assert_eq!(dms(&fractions(vec![rat(45, 1), rat(48, 1)])), None);
    assert_eq!(dms(&text(&[b"45"])), None);
    assert_eq!(dms(&None), None);
}

#[test]
fn hemispheres_are_kept() {
    let angle = |d: u32| fractions(vec![rat(d, 1), rat(0, 1), rat(0, 1)]);
    let raw = RawFields {
        lat: angle(45),
        lat_ref: text(&[b"s"]),
        lon: angle(15),
        lon_ref: text(&[b" W\0"]),
        ..Default::default()
    };
    let fix: Fix = keep(&raw).fix.unwrap();
    assert!(fix.south && fix.west);
    assert_eq!(fix.lat.degrees, rat(45, 1));
    let north = RawFields {
        lat_ref: text(&[b"N"]),
        lon_ref: None,
        ..raw.clone()
    };
    let fix = keep(&north).fix.unwrap();
    assert!(!fix.south && !fix.west);
    let null = RawFields {
        lat: angle(0),
        lon: angle(0),
        ..raw
    };
    assert_eq!(keep(&null).fix, None);
}

#[test]
fn text_fields_are_cleaned() {
    assert_eq!(
        ascii_field(&text(&[b"Canon ", b"EOS\0\0"])).as_deref(),
        Some("Canon  EOS")
    );
    assert_eq!(ascii_field(&text(&[b" \0 "])), None);
    assert_eq!(ascii_field(&None), None);
    assert_eq!(
        ascii_field(&Some(Value::Other(" 7 ".into()))).as_deref(),
        Some("7")
    );
    assert_eq!(
        ascii_field(&text(&[b"\xff"])).as_deref(),
        Some("\u{fffd}")
    );
}

/// A little-endian TIFF whose first directory holds the make and the time of the
/// last change.
fn tiff() -> Vec<u8> {
    let mut b: Vec<u8> = b"II\x2a\x00\x08\0\0\0".to_vec();
    let (make, time): (&[u8], &[u8]) = (b"Canon\0", b"2023:08:15 12:34:56\0");
    b.extend(2u16.to_le_bytes());
    let values = 8 + 2 + 2 * 12 + 4;
    for (tag, data, at) in [(0x10fu16, make, values), (0x132, time, values + 6)] {
        b.extend(tag.to_le_bytes());
        b.extend(2u16.to_le_bytes());
        b.extend((data.len() as u32).to_le_bytes());
        b.extend((at as u32).to_le_bytes());
    }
    b.extend(0u32.to_le_bytes());
    b.extend(make);
    b.extend(time);
    b
}

#[test]
fn fields_are_read_out_of_an_image_file() {
    let fields = read_exif(&tiff());
    assert_eq!(fields.make.as_deref(), Some("Canon"));
    assert_eq!(fields.modify.as_deref(), Some("2023:08:15 12:34:56"));
    assert!(fields.original.is_none() && fields.model.is_none() && fields.fix.is_none());
    let nothing = read_exif(b"not an image");
    assert!(nothing.make.is_none() && nothing.modify.is_none());
}

#[test]
fn truncated_fields_do_not_hide_the_rest() {
    let mut b = tiff();
    b.truncate(b.len() - 10);
    let fields = read_exif(&b);
    assert_eq!(fields.make.as_deref(), Some("Canon"));
    assert!(fields.modify.is_none());
}

#[test]
fn the_first_date_of_the_chain_wins() {
    let mut exif = ExifDates {
        original: Some(at(2001)),
        create: Some(at(2002)),
        modify: Some(at(2003)),
    };
    let (f, m, c) = (Some(at(2004)), Some(at(2005)), Some(at(2006)));
    assert_eq!(
        resolve_date(&exif, f, m, c),
        (Some(at(2001)), DateSource::ExifDateTimeOriginal)
    );
    exif.original = None;
    assert_eq!(resolve_date(&exif, f, m, c).1, DateSource::ExifCreateDate);
    exif.create = None;
    assert_eq!(resolve_date(&exif, f, m, c).1, DateSource::Filename);
    assert_eq!(resolve_date(&exif, None, m, c).1, DateSource::Mtime);
    assert_eq!(resolve_date(&exif, None, None, c).1, DateSource::CreationTime);
    assert_eq!(
        resolve_date(&exif, None, None, None),
        (Some(at(2003)), DateSource::ExifModifyDate)
    );
    exif.modify = None;
    assert_eq!(
        resolve_date(&exif, None, None, None),
        (None, DateSource::Unknown)
    );
}

fn jpeg() -> Vec<u8> {
    vec![0xFF, 0xD8, 0xFF, 0xE0, 0, 0, 0, 0, 0, 0, 0, 0]
}

#[test]
fn a_file_without_exif_falls_back_to_its_modification_time() {
    let times = FileTimes {
        size: 7,
        modified: Some((1_392_292_800, 0)),
        created: None,
    };
    let p = extract(
        "plain.jpg".into(),
        FileKind::Image,
        &jpeg(),
        ExifFields::default(),
        None,
        times,
        true,
    );
    assert_eq!(p.date_source, DateSource::Mtime);
    assert_eq!(p.taken.unwrap().year(), 2014);
    assert_eq!(p.taken.unwrap().date().month(), 2);
    assert_eq!(p.size, 7);
    assert!(p.signature_ok);
}

#[test]
fn what_exif_tells_is_kept() {
    let point = Gps {
        lat_bits: 1,
        lon_bits: 2,
        cell_lat: 3,
        cell_lon: 4,
    };
    let angle = Dms {
        degrees: rat(1, 1),
        minutes: rat(0, 1),
        seconds: rat(0, 1),
    };
    let fields = ExifFields {
        original: Some("2020:05:06 07:08:09".into()),
        make: Some("Canon".into()),
        fix: Some(Fix {
            lat: angle,
            south: false,
            lon: angle,
            west: false,
        }),
        ..Default::default()
    };
    let times = FileTimes {
        size: 7,
        modified: None,
        created: None,
    };
    let p = extract(
        "IMG_20190101_000000.jpg".into(),
        FileKind::Image,
        &jpeg(),
        fields.clone(),
        Some(point),
        times,
        true,
    );
    assert_eq!(p.date_source, DateSource::ExifDateTimeOriginal);
    assert_eq!(p.date(), Date::new(2020, 5, 6));
    assert_eq!(p.gps, Some(point));
    assert_eq!(p.camera_make.as_deref(), Some("Canon"));

    let fake = extract(
        "IMG_20190101_000000.jpg".into(),
        FileKind::Image,
        b"plain text here",
        fields,
        Some(point),
        times,
        true,
    );
    assert!(!fake.signature_ok);
    assert_eq!(fake.date_source, DateSource::Filename);
    assert_eq!(fake.gps, None);
    assert!(!should_read_exif(FileKind::Image, b"plain text here"));
    assert!(!should_read_exif(FileKind::Video, &jpeg()));
}

#[test]
fn exif_dates_may_not_be_past_the_next_year() {
    let fields = ExifFields {
        original: Some("2031:01:01 00:00:00".into()),
        create: Some("2030:01:01 00:00:00".into()),
        modify: Some("0000:00:00 00:00:00".into()),
        ..Default::default()
    };
    let dates = exif_dates_at(&fields, 2030);
    assert_eq!(dates.original, Some(at(2031)));
    assert_eq!(dates.create, Some(at(2030)));
    assert_eq!(dates.modify, None);
    let dates = exif_dates_at(&fields, 2029);
    assert_eq!(dates.original, None);
    assert_eq!(dates.create, Some(at(2030)));
    assert_eq!(exif_dates(&ExifFields::default()).original, None);
    let old = ExifFields {
        create: Some("2001:01:01 00:00:00".into()),
        ..Default::default()
    };
    assert_eq!(exif_dates(&old).create, Some(at(2001)));
}

/// A photo in the year 2030, whose file times are told as the given readings.
fn taken_in_2030(
    name: &str,
    head: &[u8],
    fields: &ExifFields,
    filename_dates: bool,
    mtime: Option<DateTime>,
    created: Option<DateTime>,
) -> (Option<DateTime>, DateSource) {
    let times = FileTimes {
        size: 9,
        modified: Some((0, 0)),
        created: Some((0, 0)),
    };
    let p = extract_at(
        name.into(),
        FileKind::Image,
        head,
        fields.clone(),
        None,
        times,
        filename_dates,
        mtime,
        created,
        2030,
    );
    assert_eq!(p.rel_path, name);
    assert_eq!(p.size, 9);
    (p.taken, p.date_source)
}

#[test]
fn every_date_of_a_photo_is_held_to_one_year() {
    let fields = ExifFields {
        original: Some("2031:01:01 00:00:00".into()),
        ..Default::default()
    };
    let none = ExifFields::default();
    let (m, c) = (Some(at(2005)), Some(at(2006)));
    let name = "a/IMG_20310101_000000.jpg";
    assert_eq!(
        taken_in_2030(name, &jpeg(), &fields, true, m, c),
        (Some(at(2031)), DateSource::ExifDateTimeOriginal)
    );
    // The fields of a file that is not what its name says do not count.
    assert_eq!(
        taken_in_2030(name, b"plain text here", &fields, true, m, c),
        (Some(at(2031)), DateSource::Filename)
    );
    assert_eq!(
        taken_in_2030(name, &jpeg(), &none, false, m, c),
        (Some(at(2005)), DateSource::Mtime)
    );
    assert_eq!(
        taken_in_2030(name, &jpeg(), &none, false, Some(at(2032)), c),
        (Some(at(2006)), DateSource::CreationTime)
    );
    // Names of directories tell no date, and 2032 is out of reach for a name too.
    assert_eq!(
        taken_in_2030("20200101/IMG_20320101_000000.jpg", &jpeg(), &none, true, None, c),
        (Some(at(2006)), DateSource::CreationTime)
    );
    assert_eq!(
        taken_in_2030(name, &jpeg(), &none, false, None, Some(at(1989))),
        (None, DateSource::Unknown)
    );
}

#[test]
fn unreadable_files_are_told_apart() {
    assert_eq!(
        io_to_file_error(true, "x".into()).message(),
        "permission denied"
    );
    assert_eq!(
        io_to_file_error(false, "gone".into()).message(),
        "unreadable: gone"
    );
}

#[test]
fn a_photo_has_a_file_name() {
    assert_eq!(mk("a/b.jpg").file_name(), "b.jpg");
    assert_eq!(mk("a/..").file_name(), "unnamed");
}
