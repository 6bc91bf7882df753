//! What one open of a file tells: signature check, EXIF and GPS come from the
//! same read.

use crate::calendar::{current_year, local_time, may_show, Date, DateTime, Moment, Ymd};
use crate::dates::{
    exif_date, filename_date, filename_dates_are_sane, parse_exif_datetime_at,
    parse_filename_date_at, sane_or_none, sane_part, DateSource, MIN_YEAR,
};
use crate::error::FileError;
use crate::formats::{head_fits, signature_matches, FileKind};
use crate::paths::{
    name_and_directory_come_apart, name_of_path, name_part, parent_of, parent_part,
    stem_and_extension_come_apart, stem_of, stem_part, under,
};
use crate::tags::ExifFields;
use crate::text::{
    chars_of, lemma_last_index, lower, lowered, same_text, text_of,
};
use vstd::prelude::*;

verus! {

/// A place on the globe: the bits of the latitude and the longitude as 32-bit
/// floating-point degrees, and the cell of the lookup grid that they fall in.
#[derive(Debug, Clone, Copy, PartialEq, Eq, Structural)]
pub struct Gps {
    pub lat_bits: u32,
    pub lon_bits: u32,
    pub cell_lat: i32,
    pub cell_lon: i32,
}

/// Everything pass 1 keeps about a file.
///
/// Field types are chosen for footprint: adaptive grouping forces every record
/// to be resident at once, so memory is the binding constraint.
#[derive(Debug, Clone)]
pub struct PhotoMetadata {
    /// Relative to the source root, which is stored once by the scanner.
    pub rel_path: String,
    pub size: u64,
    pub kind: FileKind,
    pub taken: Option<DateTime>,
    pub date_source: DateSource,
    pub gps: Option<Gps>,
    /// Parsed and recorded, but never applied to the bucketing date.
    pub offset_time: Option<String>,
    pub camera_make: Option<String>,
    pub camera_model: Option<String>,
    pub signature_ok: bool,
}

/// The day that a photo was taken on.
pub open spec fn day_of(taken: Option<DateTime>) -> Option<Ymd> {
    match taken {
        Some(t) => Some(t@.day),
        None => None,
    }
}

/// The last name of a path, where it names a file.
pub open spec fn file_name_in(path: Seq<char>) -> Seq<char> {
    let name = name_of_path(path);
    if name.len() == 0 || name == "."@ || name == ".."@ {
        "unnamed"@
    } else {
        name
    }
}

/// `(directory, lowercased stem)`: what companions have in common.
pub open spec fn key_of(path: Seq<char>) -> (Seq<char>, Seq<char>) {
    (parent_of(path), lower(stem_of(name_of_path(path))))
}

impl PhotoMetadata {
    pub fn date(&self) -> (r: Option<Date>)
        ensures
            match r {
                Some(d) => day_of(self.taken) == Some(d@),
                None => day_of(self.taken) is None,
            },
    {
        match self.taken {
            Some(t) => Some(t.date()),
            None => None,
        }
    }

    pub fn file_name(&self) -> (r: String)
        ensures
            r@ == file_name_in(self.rel_path@),
    {
        let path = chars_of(self.rel_path.as_str());
        let name = name_part(&path);
        let text = text_of(name);
        if name.len() == 0 || same_text(text.as_str(), ".") || same_text(text.as_str(), "..") {
            text_of(&chars_of("unnamed"))
        } else {
            text
        }
    }

    /// `(directory, lowercased stem)`: the companion grouping key.
    pub fn companion_key(&self) -> (r: (String, String))
        ensures
            (r.0@, r.1@) == key_of(self.rel_path@),
    {
        let path = chars_of(self.rel_path.as_str());
        let dir = parent_part(&path);
        let stem = lowered(stem_part(name_part(&path)));
        (text_of(dir), text_of(&stem))
    }
}

/// The dates that EXIF tells.
#[derive(Debug, Clone, Copy, PartialEq, Eq, Structural)]
pub struct ExifDates {
    pub original: Option<DateTime>,
    pub create: Option<DateTime>,
    pub modify: Option<DateTime>,
}

/// Whether a date is the given moment.
pub open spec fn is_moment(d: Option<DateTime>, m: Option<Moment>) -> bool {
    match d {
        Some(t) => m == Some(t@),
        None => m is None,
    }
}

/// The moment that an EXIF field tells in the year `this_year`, if it is there.
pub open spec fn field_moment(text: Option<String>, this_year: int) -> Option<Moment> {
    match text {
        Some(s) => exif_date(s@, this_year),
        None => None,
    }
}

/// The moment that the name of a path tells in the year `this_year`, where names are
/// read for dates.
pub open spec fn name_moment(path: Seq<char>, wanted: bool, this_year: int) -> Option<Moment> {
    if wanted {
        filename_date(name_of_path(path), 0, this_year)
    } else {
        None
    }
}

/// Whether a wall clock may show this at a file time, if there is one.
pub open spec fn clock_told(clock: Option<DateTime>, time: Option<(i64, u32)>) -> bool {
    match time {
        Some((secs, nanos)) => may_show(clock, secs, nanos),
        None => clock is None,
    }
}

/// Whether these are the dates that the EXIF fields tell in the year `this_year`.
pub open spec fn fields_told(dates: ExifDates, fields: ExifFields, this_year: int) -> bool {
    &&& is_moment(dates.original, field_moment(fields.original, this_year))
    &&& is_moment(dates.create, field_moment(fields.create, this_year))
    &&& is_moment(dates.modify, field_moment(fields.modify, this_year))
}

fn date_field_at(text: &Option<String>, this_year: i32) -> (r: Option<DateTime>)
    ensures
        is_moment(r, field_moment(*text, this_year as int)),
{
    match text {
        Some(s) => parse_exif_datetime_at(s.as_str(), this_year),
        None => None,
    }
}

/// The dates in the EXIF fields; the machine's clock tells the year that they may not
/// be past.
pub fn exif_dates(fields: &ExifFields) -> (r: ExifDates)
    ensures
        exists|this_year: i32| #[trigger] fields_told(r, *fields, this_year as int),
{
    let this_year: i32 = current_year();
    let r = exif_dates_at(fields, this_year);
    assert(fields_told(r, *fields, this_year as int));
    r
}

/// `exif_dates` in the year `this_year`.
pub fn exif_dates_at(fields: &ExifFields, this_year: i32) -> (r: ExifDates)
    ensures
        fields_told(r, *fields, this_year as int),
{
    ExifDates {
        original: date_field_at(&fields.original, this_year),
        create: date_field_at(&fields.create, this_year),
        modify: date_field_at(&fields.modify, this_year),
    }
}

/// Whether EXIF is to be read: only in a photo, and only in one that is what its
/// name says.
pub open spec fn wants_exif(kind: FileKind, head: Seq<u8>) -> bool {
    head_fits(kind, head) && (kind is Image || kind is Raw)
}

pub fn should_read_exif(kind: FileKind, head: &[u8]) -> (b: bool)
    ensures
        b == wants_exif(kind, head@),
{
    signature_matches(kind, head) && matches!(kind, FileKind::Image | FileKind::Raw)
}

/// The first date of the fallback chain that is there.
pub open spec fn chain(
    exif: ExifDates,
    filename: Option<DateTime>,
    mtime: Option<DateTime>,
    created: Option<DateTime>,
) -> (Option<DateTime>, DateSource) {
    if exif.original is Some {
        (exif.original, DateSource::ExifDateTimeOriginal)
    } else if exif.create is Some {
        (exif.create, DateSource::ExifCreateDate)
    } else if filename is Some {
        (filename, DateSource::Filename)
    } else if mtime is Some {
        (mtime, DateSource::Mtime)
    } else if created is Some {
        (created, DateSource::CreationTime)
    } else if exif.modify is Some {
        (exif.modify, DateSource::ExifModifyDate)
    } else {
        (None, DateSource::Unknown)
    }
}

/// Date fallback chain. EXIF ModifyDate sits below the filesystem times: it is
/// extracted, but only used when nothing else resolved.
pub fn resolve_date(
    exif: &ExifDates,
    filename: Option<DateTime>,
    mtime: Option<DateTime>,
    created: Option<DateTime>,
) -> (r: (Option<DateTime>, DateSource))
    ensures
        r == chain(*exif, filename, mtime, created),
        r.0 is None <==> r.1 == DateSource::Unknown,
{
    if exif.original.is_some() {
        return (exif.original, DateSource::ExifDateTimeOriginal);
    }
    if exif.create.is_some() {
        return (exif.create, DateSource::ExifCreateDate);
    }
    if filename.is_some() {
        return (filename, DateSource::Filename);
    }
    if mtime.is_some() {
        return (mtime, DateSource::Mtime);
    }
    if created.is_some() {
        return (created, DateSource::CreationTime);
    }
    if exif.modify.is_some() {
        return (exif.modify, DateSource::ExifModifyDate);
    }
    (None, DateSource::Unknown)
}

/// What the file system tells of a file: its size, and the seconds and
/// nanoseconds since the start of 1970 at which it was changed and created.
#[derive(Debug, Clone, Copy, PartialEq, Eq)]
pub struct FileTimes {
    pub size: u64,
    pub modified: Option<(i64, u32)>,
    pub created: Option<(i64, u32)>,
}

fn clock_time(t: Option<(i64, u32)>) -> (r: Option<DateTime>)
    ensures
        clock_told(r, t),
{
    match t {
        Some((secs, nanos)) => local_time(secs, nanos),
        None => None,
    }
}

fn name_date_at(rel_path: &str, wanted: bool, this_year: i32) -> (r: Option<DateTime>)
    requires
        rel_path@.len() <= usize::MAX - 8,
    ensures
        is_moment(r, name_moment(rel_path@, wanted, this_year as int)),
{
    if wanted {
        let path = chars_of(rel_path);
        let name = text_of(name_part(&path));
        proof {
            lemma_last_index(rel_path@, '/');
        }
        parse_filename_date_at(name.as_str(), this_year)
    } else {
        None
    }
}

/// Whether a date and its source are those of the fallback chain in the year
/// `this_year`: over the EXIF fields where they are read, the name of the path, and
/// what the wall clock showed at the two file times.
pub open spec fn is_dated(
    dated: (Option<DateTime>, DateSource),
    rel_path: Seq<char>,
    filename_dates: bool,
    fields: Option<ExifFields>,
    mtime: Option<DateTime>,
    created: Option<DateTime>,
    this_year: int,
) -> bool {
    exists|exif: ExifDates, filename: Option<DateTime>|
        dated == #[trigger] chain(
            exif,
            filename,
            sane_part(mtime, this_year),
            sane_part(created, this_year),
        ) && is_moment(filename, name_moment(rel_path, filename_dates, this_year)) && (
        match fields {
            Some(fields) => fields_told(exif, fields, this_year),
            None => exif == (ExifDates { original: None, create: None, modify: None }),
        })
}

/// The EXIF fields that count: those of a photo that is what its name says.
pub open spec fn fields_of(kind: FileKind, head: Seq<u8>, fields: ExifFields) -> Option<ExifFields> {
    if wants_exif(kind, head) {
        Some(fields)
    } else {
        None
    }
}

/// Puts together what was read of one file. Never fails on bad EXIF: corrupt
/// metadata falls through the chain.
///
/// The dates come from `resolve_date`, on what the machine's clock and time zone
/// make of the fields, the name and the file times. `gps` is the position that the
/// fields tell, if any, in floating-point degrees.
pub fn extract(
    rel_path: String,
    kind: FileKind,
    head: &[u8],
    fields: ExifFields,
    gps: Option<Gps>,
    times: FileTimes,
    filename_dates: bool,
) -> (r: PhotoMetadata)
    requires
        rel_path@.len() <= usize::MAX - 8,
    ensures
        r.rel_path@ == rel_path@,
        r.size == times.size,
        r.kind == kind,
        r.signature_ok == head_fits(kind, head@),
        r.gps == (if wants_exif(kind, head@) && fields.fix is Some {
            gps
        } else {
            None
        }),
        wants_exif(kind, head@) ==> r.offset_time == fields.offset_time
            && r.camera_make == fields.make && r.camera_model == fields.model,
        !wants_exif(kind, head@) ==> r.offset_time is None && r.camera_make is None
            && r.camera_model is None,
        r.taken is None <==> r.date_source == DateSource::Unknown,
        r.taken matches Some(t) ==> t@.day.year >= MIN_YEAR,
        exists|this_year: i32, mtime: Option<DateTime>, created: Option<DateTime>|
            #[trigger] is_dated(
                (r.taken, r.date_source),
                rel_path@,
                filename_dates,
                fields_of(kind, head@, fields),
                mtime,
                created,
                this_year as int,
            ) && clock_told(mtime, times.modified) && clock_told(created, times.created),
{
    let this_year: i32 = current_year();
    let mtime = clock_time(times.modified);
    let created = clock_time(times.created);
    extract_at(
        rel_path,
        kind,
        head,
        fields,
        gps,
        times,
        filename_dates,
        mtime,
        created,
        this_year,
    )
}

/// `extract` in the year `this_year`, where the wall clock showed `mtime` and `created`
/// at the two file times.
pub fn extract_at(
    rel_path: String,
    kind: FileKind,
    head: &[u8],
    fields: ExifFields,
    gps: Option<Gps>,
    times: FileTimes,
    filename_dates: bool,
    mtime: Option<DateTime>,
    created: Option<DateTime>,
    this_year: i32,
) -> (r: PhotoMetadata)
    requires
        rel_path@.len() <= usize::MAX - 8,
    ensures
        r.rel_path@ == rel_path@,
        r.size == times.size,
        r.kind == kind,
        r.signature_ok == head_fits(kind, head@),
        r.gps == (if wants_exif(kind, head@) && fields.fix is Some {
            gps
        } else {
            None
        }),
        wants_exif(kind, head@) ==> r.offset_time == fields.offset_time
            && r.camera_make == fields.make && r.camera_model == fields.model,
        !wants_exif(kind, head@) ==> r.offset_time is None && r.camera_make is None
            && r.camera_model is None,
        r.taken is None <==> r.date_source == DateSource::Unknown,
        r.taken matches Some(t) ==> t@.day.year >= MIN_YEAR,
        is_dated(
            (r.taken, r.date_source),
            rel_path@,
            filename_dates,
            fields_of(kind, head@, fields),
            mtime,
            created,
            this_year as int,
        ),
{
    let signature_ok = signature_matches(kind, head);
    let fields = if signature_ok && matches!(kind, FileKind::Image | FileKind::Raw) {
        fields
    } else {
        ExifFields::default()
    };
    let exif = exif_dates_at(&fields, this_year);
    let filename = name_date_at(rel_path.as_str(), filename_dates, this_year);
    proof {
        filename_dates_are_sane(name_of_path(rel_path@), 0, this_year as int);
    }
    let mtime = sane_or_none(mtime, this_year);
    let created = sane_or_none(created, this_year);
    let (taken, date_source) = resolve_date(&exif, filename, mtime, created);
    PhotoMetadata {
        rel_path,
        size: times.size,
        kind,
        taken,
        date_source,
        gps: if fields.fix.is_some() {
            gps
        } else {
            None
        },
        offset_time: fields.offset_time,
        camera_make: fields.make,
        camera_model: fields.model,
        signature_ok,
    }
}

/// How a file that could not be opened or read is told.
pub fn io_to_file_error(denied: bool, reason: String) -> (r: FileError)
    ensures
        r.text() == (if denied {
            "permission denied"@
        } else {
            "unreadable: "@ + reason@
        }),
{
    if denied {
        FileError::PermissionDenied
    } else {
        FileError::Unreadable(reason)
    }
}

/// A date comes from the first source that has one: the two EXIF dates of taking the
/// picture, the name of the file, the time of its last change, the time of its creation,
/// and the EXIF date of the last change at the very end.
pub proof fn the_first_source_wins(
    exif: ExifDates,
    filename: Option<DateTime>,
    mtime: Option<DateTime>,
    created: Option<DateTime>,
)
    ensures
        ({
            let dates = seq![
                exif.original,
                exif.create,
                filename,
                mtime,
                created,
                exif.modify,
            ];
            let sources = seq![
                DateSource::ExifDateTimeOriginal,
                DateSource::ExifCreateDate,
                DateSource::Filename,
                DateSource::Mtime,
                DateSource::CreationTime,
                DateSource::ExifModifyDate,
            ];
            let (taken, source) = chain(exif, filename, mtime, created);
            &&& forall|k: int|
                0 <= k < 6 && (#[trigger] dates[k]) is Some && (forall|j: int|
                    0 <= j < k ==> (#[trigger] dates[j]) is None) ==> taken == dates[k] && source
                    == sources[k]
            &&& (forall|k: int| 0 <= k < 6 ==> (#[trigger] dates[k]) is None) ==> taken is None
                && source == DateSource::Unknown
        }),
{
    let dates = seq![exif.original, exif.create, filename, mtime, created, exif.modify];
    assert(dates[0] == exif.original && dates[1] == exif.create && dates[2] == filename);
    assert(dates[3] == mtime && dates[4] == created && dates[5] == exif.modify);
}

/// Two files belong together exactly if they are in one directory and their names differ
/// in nothing but the extension and the case of letters.
pub proof fn companions_differ_in_their_extension(
    dir: Seq<char>,
    other_dir: Seq<char>,
    stem: Seq<char>,
    other_stem: Seq<char>,
    ext: Seq<char>,
    other_ext: Seq<char>,
)
    requires
        stem.len() > 0,
        other_stem.len() > 0,
        !stem.contains('/') && !other_stem.contains('/'),
        !ext.contains('/') && !other_ext.contains('/'),
        !ext.contains('.') && !other_ext.contains('.'),
    ensures
        key_of(under(dir, stem + seq!['.'] + ext)) == key_of(
            under(other_dir, other_stem + seq!['.'] + other_ext),
        ) <==> dir == other_dir && lower(stem) == lower(other_stem),
{
    lemma_key_of(dir, stem, ext);
    lemma_key_of(other_dir, other_stem, other_ext);
}

proof fn lemma_key_of(dir: Seq<char>, stem: Seq<char>, ext: Seq<char>)
    requires
        stem.len() > 0,
        !stem.contains('/') && !ext.contains('/') && !ext.contains('.'),
    ensures
        key_of(under(dir, stem + seq!['.'] + ext)) == (dir, lower(stem)),
{
    let name = stem + seq!['.'] + ext;
    assert(!name.contains('/')) by {
        assert forall|i: int| 0 <= i < name.len() implies name[i] != '/' by {
            if i < stem.len() {
                assert(stem.contains(stem[i]));
            } else if i > stem.len() {
                assert(ext.contains(ext[i - stem.len() - 1]));
            }
        }
    }
    name_and_directory_come_apart(dir, name);
    stem_and_extension_come_apart(stem, ext);
}

} // verus!
