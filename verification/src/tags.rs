//! The fields that a camera writes into a photo, and what is kept of them.

use crate::text::{chars_of, lower, lowered, push_text, shave, shaved, text_of, trim, trimmed};
use vstd::prelude::*;
use vstd::utf8::{decode_utf8, valid_utf8};

verus! {

/// The fields of one photo, as the EXIF reader found them.
#[verifier::external_type_specification]
#[verifier::external_body]
pub struct ExExif(exif::Exif);

/// The directory that a field stands in.
#[derive(Debug, Clone, Copy, PartialEq, Eq, Structural)]
pub enum Group {
    Tiff,
    Exif,
    Gps,
}

/// The fields that are read, by the numbers that the EXIF standard gives them.
#[derive(Debug, Clone, Copy, PartialEq, Eq, Structural)]
pub enum Field {
    DateTimeOriginal,
    DateTimeDigitized,
    DateTime,
    OffsetTimeOriginal,
    Make,
    Model,
    GpsLatitudeRef,
    GpsLatitude,
    GpsLongitudeRef,
    GpsLongitude,
}

impl Field {
    pub open spec fn place(self) -> (Group, u16) {
        match self {
            Field::DateTimeOriginal => (Group::Exif, 0x9003),
            Field::DateTimeDigitized => (Group::Exif, 0x9004),
            Field::DateTime => (Group::Tiff, 0x132),
            Field::OffsetTimeOriginal => (Group::Exif, 0x9011),
            Field::Make => (Group::Tiff, 0x10f),
            Field::Model => (Group::Tiff, 0x110),
            Field::GpsLatitudeRef => (Group::Gps, 0x1),
            Field::GpsLatitude => (Group::Gps, 0x2),
            Field::GpsLongitudeRef => (Group::Gps, 0x3),
            Field::GpsLongitude => (Group::Gps, 0x4),
        }
    }

    fn located(self) -> (r: (Group, u16))
        ensures
            r == self.place(),
    {
        match self {
            Field::DateTimeOriginal => (Group::Exif, 0x9003),
            Field::DateTimeDigitized => (Group::Exif, 0x9004),
            Field::DateTime => (Group::Tiff, 0x132),
            Field::OffsetTimeOriginal => (Group::Exif, 0x9011),
            Field::Make => (Group::Tiff, 0x10f),
            Field::Model => (Group::Tiff, 0x110),
            Field::GpsLatitudeRef => (Group::Gps, 0x1),
            Field::GpsLatitude => (Group::Gps, 0x2),
            Field::GpsLongitudeRef => (Group::Gps, 0x3),
            Field::GpsLongitude => (Group::Gps, 0x4),
        }
    }
}

/// A fraction, as a field tells it.
#[derive(Debug, Clone, Copy, PartialEq, Eq, Structural)]
pub struct Fraction {
    pub num: u32,
    pub denom: u32,
}

/// The value of a field: text in one or more parts, fractions beside how they are
/// shown, or anything else as it is shown.
#[derive(Debug, Clone)]
pub enum Value {
    Text(Vec<Vec<u8>>),
    Fractions(Vec<Fraction>, String),
    Other(String),
}

/// What a `Value` stands for.
pub enum Datum {
    Text(Seq<Seq<u8>>),
    Fractions(Seq<Fraction>, Seq<char>),
    Other(Seq<char>),
}

impl View for Value {
    type V = Datum;

    open spec fn view(&self) -> Datum {
        match self {
            Value::Text(parts) => Datum::Text(parts@.map_values(|p: Vec<u8>| p@)),
            Value::Fractions(v, shown) => Datum::Fractions(v@, shown@),
            Value::Other(shown) => Datum::Other(shown@),
        }
    }
}

pub open spec fn datum_of(v: Option<Value>) -> Option<Datum> {
    match v {
        Some(v) => Some(v@),
        None => None,
    }
}

/// The fields of the primary image that an `exif::Exif` holds.
pub uninterp spec fn held_fields(e: exif::Exif) -> Map<(Group, u16), Datum>;

/// The fields of the primary image that `exif::Reader` finds in the bytes of an
/// image file, or none where it finds no EXIF data that it can read.
pub uninterp spec fn container_fields(bytes: Seq<u8>) -> Option<Map<(Group, u16), Datum>>;

/// What `String::from_utf8_lossy` of the standard library makes of bytes.
pub uninterp spec fn lossy_text(bytes: Seq<u8>) -> Seq<char>;

/// `exif::Reader::read_from_container`, told to go on after an error: truncated
/// EXIF is common, and whatever could be read is taken rather than dropped. What
/// it finds depends on the bytes alone.
#[verifier::external_body]
fn read_container(bytes: &[u8]) -> (r: Option<exif::Exif>)
    ensures
        match r {
            Some(e) => container_fields(bytes@) == Some(held_fields(e)),
            None => container_fields(bytes@) is None,
        },
{
    let mut reader = exif::Reader::new();
    reader.continue_on_error(true);
    match reader.read_from_container(&mut std::io::Cursor::new(bytes)) {
        Ok(found) => Some(found),
        Err(exif::Error::PartialResult(partial)) => Some(partial.into_inner().0),
        Err(_) => None,
    }
}

/// `exif::Exif::get_field` gives the field of the primary image in that directory
/// and with that number, where there is one; its value is shown as
/// `exif::Value::display_as` shows it.
#[verifier::external_body]
fn get_field(e: &exif::Exif, group: Group, number: u16) -> (r: Option<Value>)
    ensures
        match r {
            Some(v) => held_fields(*e).dom().contains((group, number)) && v@ == held_fields(
                *e,
            )[(group, number)],
            None => !held_fields(*e).dom().contains((group, number)),
        },
{
    let context = match group {
        Group::Tiff => exif::Context::Tiff,
        Group::Exif => exif::Context::Exif,
        Group::Gps => exif::Context::Gps,
    };
    let tag = exif::Tag(context, number);
    let value = &e.get_field(tag, exif::In::PRIMARY)?.value;
    let shown = value.display_as(tag).to_string();
    Some(match value {
        exif::Value::Ascii(parts) => Value::Text(parts.clone()),
        exif::Value::Rational(v) => Value::Fractions(
            v.iter().map(|r| Fraction { num: r.num, denom: r.denom }).collect(), shown),
        _ => Value::Other(shown),
    })
}

/// `String::from_utf8_lossy` gives the text that the bytes encode, where they are
/// UTF-8; what it puts in the place of bytes that are not depends on the bytes
/// alone.
#[verifier::external_body]
fn lossy(bytes: &[u8]) -> (r: String)
    ensures
        r@ == lossy_text(bytes@),
        valid_utf8(bytes@) ==> r@ == decode_utf8(bytes@),
{
    String::from_utf8_lossy(bytes).into_owned()
}

/// The parts of a text field put together with spaces between them.
pub open spec fn spaced(parts: Seq<Seq<u8>>) -> Seq<char>
    decreases parts.len(),
{
    if parts.len() == 0 {
        seq![]
    } else if parts.len() == 1 {
        lossy_text(parts[0])
    } else {
        spaced(parts.drop_last()) + seq![' '] + lossy_text(parts.last())
    }
}

/// A text without the white space and the zeros around it.
pub open spec fn bare(s: Seq<char>) -> Seq<char> {
    trim(shaved(trim(s), '\0'))
}

/// The text of a field; an empty one is none.
pub open spec fn text_in(d: Option<Datum>) -> Option<Seq<char>> {
    match d {
        None => None,
        Some(d) => {
            let text = bare(
                match d {
                    Datum::Text(parts) => spaced(parts),
                    Datum::Fractions(_, shown) => shown,
                    Datum::Other(shown) => shown,
                },
            );
            if text.len() > 0 {
                Some(text)
            } else {
                None
            }
        },
    }
}

fn joined_parts(parts: &Vec<Vec<u8>>) -> (v: Vec<char>)
    ensures
        v@ == spaced(parts@.map_values(|p: Vec<u8>| p@)),
{
    let ghost all = parts@.map_values(|p: Vec<u8>| p@);
    let mut v: Vec<char> = Vec::new();
    let mut i: usize = 0;
    while i < parts.len()
        invariant
            i <= parts@.len(),
            all == parts@.map_values(|p: Vec<u8>| p@),
            v@ == spaced(all.take(i as int)),
        decreases parts@.len() - i,
    {
        let ghost before = all.take(i as int);
        if i > 0 {
            v.push(' ');
        }
        push_text(&mut v, lossy(&parts[i]).as_str());
        assert(all.take(i + 1).drop_last() =~= before);
        assert(v@ =~= spaced(all.take(i + 1)));
        i += 1;
    }
    assert(all.take(i as int) =~= all);
    v
}

/// The text of a field, cleaned; an empty one is none.
pub fn ascii_field(value: &Option<Value>) -> (r: Option<String>)
    ensures
        match r {
            Some(t) => text_in(datum_of(*value)) == Some(t@),
            None => text_in(datum_of(*value)) is None,
        },
{
    let v = match value {
        None => return None,
        Some(Value::Text(parts)) => joined_parts(parts),
        Some(Value::Fractions(_, shown)) => chars_of(shown.as_str()),
        Some(Value::Other(shown)) => chars_of(shown.as_str()),
    };
    let t = trimmed(shave(trimmed(&v), '\0'));
    if t.len() > 0 {
        Some(text_of(t))
    } else {
        None
    }
}

/// An angle in degrees, minutes and seconds, each a fraction.
#[derive(Debug, Clone, Copy, PartialEq, Eq, Structural)]
pub struct Dms {
    pub degrees: Fraction,
    pub minutes: Fraction,
    pub seconds: Fraction,
}

impl Dms {
    pub open spec fn is_zero(self) -> bool {
        self.degrees.num == 0 && self.minutes.num == 0 && self.seconds.num == 0
    }
}

/// The angle that a field tells with its first three fractions. A zero
/// denominator is corruption, not a zero value.
pub open spec fn angle_in(d: Option<Datum>) -> Option<Dms> {
    match d {
        Some(Datum::Fractions(v, _)) => if v.len() >= 3 && v[0].denom != 0 && v[1].denom != 0
            && v[2].denom != 0 {
            Some(Dms { degrees: v[0], minutes: v[1], seconds: v[2] })
        } else {
            None
        },
        _ => None,
    }
}

pub fn dms(value: &Option<Value>) -> (r: Option<Dms>)
    ensures
        r == angle_in(datum_of(*value)),
{
    match value {
        Some(Value::Fractions(v, _)) => {
            if v.len() < 3 {
                return None;
            }
            if v[0].denom == 0 || v[1].denom == 0 || v[2].denom == 0 {
                return None;
            }
            Some(Dms { degrees: v[0], minutes: v[1], seconds: v[2] })
        },
        _ => None,
    }
}

/// Where a photo was taken: two angles, and the hemispheres they count in.
#[derive(Debug, Clone, Copy, PartialEq, Eq, Structural)]
pub struct Fix {
    pub lat: Dms,
    pub south: bool,
    pub lon: Dms,
    pub west: bool,
}

/// Whether a field names this hemisphere.
pub open spec fn names(d: Option<Datum>, letter: char) -> bool {
    text_in(d) matches Some(t) && lower(t) == seq![letter]
}

/// Exactly (0, 0) is the null sentinel cameras write, not Null Island.
pub open spec fn fix_in(
    lat: Option<Datum>,
    lat_ref: Option<Datum>,
    lon: Option<Datum>,
    lon_ref: Option<Datum>,
) -> Option<Fix> {
    match (angle_in(lat), angle_in(lon)) {
        (Some(lat), Some(lon)) => if lat.is_zero() && lon.is_zero() {
            None
        } else {
            Some(Fix { lat, south: names(lat_ref, 's'), lon, west: names(lon_ref, 'w') })
        },
        _ => None,
    }
}

fn points(value: &Option<Value>, letter: char) -> (b: bool)
    ensures
        b == names(datum_of(*value), letter),
{
    match ascii_field(value) {
        Some(t) => {
            let v = lowered(&chars_of(t.as_str()));
            let b = v.len() == 1 && v[0] == letter;
            assert(b ==> v@ =~= seq![letter]);
            b
        },
        None => false,
    }
}

/// The fields of one photo, as they were found.
#[derive(Debug, Clone)]
pub struct RawFields {
    pub original: Option<Value>,
    pub create: Option<Value>,
    pub modify: Option<Value>,
    pub offset_time: Option<Value>,
    pub make: Option<Value>,
    pub model: Option<Value>,
    pub lat: Option<Value>,
    pub lat_ref: Option<Value>,
    pub lon: Option<Value>,
    pub lon_ref: Option<Value>,
}

impl Default for RawFields {
    fn default() -> (r: RawFields)
        ensures
            forall|f: Field| #[trigger] r.at(f) is None,
    {
        RawFields {
            original: None,
            create: None,
            modify: None,
            offset_time: None,
            make: None,
            model: None,
            lat: None,
            lat_ref: None,
            lon: None,
            lon_ref: None,
        }
    }
}

impl RawFields {
    pub open spec fn at(self, f: Field) -> Option<Datum> {
        datum_of(
            match f {
                Field::DateTimeOriginal => self.original,
                Field::DateTimeDigitized => self.create,
                Field::DateTime => self.modify,
                Field::OffsetTimeOriginal => self.offset_time,
                Field::Make => self.make,
                Field::Model => self.model,
                Field::GpsLatitudeRef => self.lat_ref,
                Field::GpsLatitude => self.lat,
                Field::GpsLongitudeRef => self.lon_ref,
                Field::GpsLongitude => self.lon,
            },
        )
    }
}

/// The EXIF fields of a file as text, and its position.
#[derive(Debug, Clone)]
pub struct ExifFields {
    pub original: Option<String>,
    pub create: Option<String>,
    pub modify: Option<String>,
    pub offset_time: Option<String>,
    pub make: Option<String>,
    pub model: Option<String>,
    pub fix: Option<Fix>,
}

impl Default for ExifFields {
    fn default() -> (r: ExifFields)
        ensures
            r.original is None,
            r.create is None,
            r.modify is None,
            r.offset_time is None,
            r.make is None,
            r.model is None,
            r.fix is None,
    {
        ExifFields {
            original: None,
            create: None,
            modify: None,
            offset_time: None,
            make: None,
            model: None,
            fix: None,
        }
    }
}

pub open spec fn is_text(t: Option<String>, d: Option<Datum>) -> bool {
    match t {
        Some(t) => text_in(d) == Some(t@),
        None => text_in(d) is None,
    }
}

/// Whether these are the texts and the position that the fields tell.
pub open spec fn kept_of(k: ExifFields, fields: spec_fn(Field) -> Option<Datum>) -> bool {
    &&& is_text(k.original, fields(Field::DateTimeOriginal))
    &&& is_text(k.create, fields(Field::DateTimeDigitized))
    &&& is_text(k.modify, fields(Field::DateTime))
    &&& is_text(k.offset_time, fields(Field::OffsetTimeOriginal))
    &&& is_text(k.make, fields(Field::Make))
    &&& is_text(k.model, fields(Field::Model))
    &&& k.fix == fix_in(
        fields(Field::GpsLatitude),
        fields(Field::GpsLatitudeRef),
        fields(Field::GpsLongitude),
        fields(Field::GpsLongitudeRef),
    )
}

/// What is kept of the fields of one photo.
pub fn keep(raw: &RawFields) -> (r: ExifFields)
    ensures
        kept_of(r, |f: Field| raw.at(f)),
{
    let fix = match (dms(&raw.lat), dms(&raw.lon)) {
        (Some(lat), Some(lon)) => {
            // Exactly (0, 0) is the null sentinel cameras write, not Null Island.
            let null_lat = lat.degrees.num == 0 && lat.minutes.num == 0 && lat.seconds.num == 0;
            let null_lon = lon.degrees.num == 0 && lon.minutes.num == 0 && lon.seconds.num == 0;
            if null_lat && null_lon {
                None
            } else {
                Some(
                    Fix {
                        lat,
                        south: points(&raw.lat_ref, 's'),
                        lon,
                        west: points(&raw.lon_ref, 'w'),
                    },
                )
            }
        },
        _ => None,
    };
    ExifFields {
        original: ascii_field(&raw.original),
        create: ascii_field(&raw.create),
        modify: ascii_field(&raw.modify),
        offset_time: ascii_field(&raw.offset_time),
        make: ascii_field(&raw.make),
        model: ascii_field(&raw.model),
        fix,
    }
}

/// A field of the image file with these bytes.
pub open spec fn field_in(bytes: Seq<u8>, f: Field) -> Option<Datum> {
    match container_fields(bytes) {
        Some(fields) => if fields.dom().contains(f.place()) {
            Some(fields[f.place()])
        } else {
            None
        },
        None => None,
    }
}

fn field(e: &exif::Exif, f: Field) -> (r: Option<Value>)
    ensures
        match r {
            Some(v) => held_fields(*e).dom().contains(f.place()) && v@ == held_fields(
                *e,
            )[f.place()],
            None => !held_fields(*e).dom().contains(f.place()),
        },
{
    let (group, number) = f.located();
    get_field(e, group, number)
}

/// The fields of the image file with these bytes.
pub fn raw_fields(bytes: &[u8]) -> (r: RawFields)
    ensures
        forall|f: Field| #[trigger] r.at(f) == field_in(bytes@, f),
{
    match read_container(bytes) {
        Some(e) => RawFields {
            original: field(&e, Field::DateTimeOriginal),
            create: field(&e, Field::DateTimeDigitized),
            modify: field(&e, Field::DateTime),
            offset_time: field(&e, Field::OffsetTimeOriginal),
            make: field(&e, Field::Make),
            model: field(&e, Field::Model),
            lat: field(&e, Field::GpsLatitude),
            lat_ref: field(&e, Field::GpsLatitudeRef),
            lon: field(&e, Field::GpsLongitude),
            lon_ref: field(&e, Field::GpsLongitudeRef),
        },
        None => RawFields::default(),
    }
}

/// What is kept of the fields in the image file with these bytes.
pub fn read_exif(bytes: &[u8]) -> (r: ExifFields)
    ensures
        kept_of(r, |f: Field| field_in(bytes@, f)),
{
    let raw = raw_fields(bytes);
    keep(&raw)
}

/// Which hemisphere a position counts in changes nothing else of it, and the
/// letter that names it may be of either case.
pub proof fn hemispheres_are_told_apart(
    lat: Option<Datum>,
    lon: Option<Datum>,
    lat_ref: Option<Datum>,
    lon_ref: Option<Datum>,
)
    ensures
        fix_in(lat, lat_ref, lon, lon_ref) is Some == fix_in(lat, None, lon, None) is Some,
        fix_in(lat, lat_ref, lon, lon_ref) matches Some(f) ==> fix_in(lat, None, lon, None) == Some(
            Fix { south: false, west: false, ..f },
        ) && f.south == names(lat_ref, 's') && f.west == names(lon_ref, 'w'),
{
}

/// The field with this number in this directory of the image file with these bytes.
pub open spec fn numbered(bytes: Seq<u8>, group: Group, number: u16) -> Option<Datum> {
    match container_fields(bytes) {
        Some(fields) if fields.dom().contains((group, number)) => Some(fields[(group, number)]),
        _ => None,
    }
}

/// The texts that are kept of an image file are those of the fields with the numbers of
/// the EXIF standard: three dates, the offset from UTC, and the camera.
pub proof fn texts_go_by_the_numbers_of_the_standard(bytes: Seq<u8>, k: ExifFields)
    requires
        kept_of(k, |f: Field| field_in(bytes, f)),
    ensures
        is_text(k.original, numbered(bytes, Group::Exif, 0x9003)),
        is_text(k.create, numbered(bytes, Group::Exif, 0x9004)),
        is_text(k.modify, numbered(bytes, Group::Tiff, 0x0132)),
        is_text(k.offset_time, numbered(bytes, Group::Exif, 0x9011)),
        is_text(k.make, numbered(bytes, Group::Tiff, 0x010f)),
        is_text(k.model, numbered(bytes, Group::Tiff, 0x0110)),
{
}

/// Whether a field holds an angle: at least three fractions, and no zero below the line
/// in the first three.
pub open spec fn holds_angle(d: Option<Datum>) -> bool {
    d matches Some(Datum::Fractions(v, _)) && v.len() >= 3 && v[0].denom != 0 && v[1].denom != 0
        && v[2].denom != 0
}

/// Whether the first three fractions of a field make up an angle.
pub open spec fn tells_angle(d: Option<Datum>, angle: Dms) -> bool {
    holds_angle(d) && (d matches Some(Datum::Fractions(v, _)) && v[0] == angle.degrees && v[1]
        == angle.minutes && v[2] == angle.seconds)
}

/// Whether an angle is no degrees, no minutes and no seconds.
pub open spec fn is_nothing(angle: Dms) -> bool {
    angle.degrees.num == 0 && angle.minutes.num == 0 && angle.seconds.num == 0
}

/// The latitude that is kept of an image file is the angle in the field 2 of its GPS
/// directory and the longitude the angle in the field 4. The fields 1 and 3 tell the
/// hemispheres, by the letters S and W in either case. There is no position exactly
/// where an angle is missing or where both are zero.
pub proof fn positions_go_by_the_numbers_of_the_standard(bytes: Seq<u8>, k: ExifFields)
    requires
        kept_of(k, |f: Field| field_in(bytes, f)),
    ensures
        ({
            let lat = numbered(bytes, Group::Gps, 0x0002);
            let lon = numbered(bytes, Group::Gps, 0x0004);
            let lat_ref = text_in(numbered(bytes, Group::Gps, 0x0001));
            let lon_ref = text_in(numbered(bytes, Group::Gps, 0x0003));
            match k.fix {
                Some(fix) => {
                    &&& tells_angle(lat, fix.lat)
                    &&& tells_angle(lon, fix.lon)
                    &&& !(is_nothing(fix.lat) && is_nothing(fix.lon))
                    &&& fix.south == (lat_ref == Some(seq!['S']) || lat_ref == Some(seq!['s']))
                    &&& fix.west == (lon_ref == Some(seq!['W']) || lon_ref == Some(seq!['w']))
                },
                None => {
                    ||| !holds_angle(lat)
                    ||| !holds_angle(lon)
                    ||| exists|x: Dms, y: Dms| #[trigger]
                        tells_angle(lat, x) && #[trigger] tells_angle(lon, y) && is_nothing(x)
                            && is_nothing(y)
                },
            }
        }),
{
    let lat = numbered(bytes, Group::Gps, 0x0002);
    let lon = numbered(bytes, Group::Gps, 0x0004);
    if let (Some(x), Some(y)) = (angle_in(lat), angle_in(lon)) {
        assert(tells_angle(lat, x));
        assert(tells_angle(lon, y));
    }
    lemma_letter(text_in(numbered(bytes, Group::Gps, 0x0001)), 'S', 's');
    lemma_letter(text_in(numbered(bytes, Group::Gps, 0x0003)), 'W', 'w');
}

/// A text in lower case is one letter exactly if it is that letter in either case.
proof fn lemma_letter(t: Option<Seq<char>>, big: char, small: char)
    requires
        'A' <= big && big <= 'Z',
        small as int == big as int + 32,
    ensures
        (t matches Some(t) && lower(t) == seq![small]) == (t == Some(seq![big]) || t == Some(
            seq![small],
        )),
{
    if let Some(t) = t {
        if lower(t) == seq![small] {
            assert(lower(t).len() == 1);
            assert(lower(t)[0] == small);
            assert(t.len() == 1);
            assert(t =~= seq![t[0]]);
            assert(t[0] == big || t[0] == small);
        }
        if t == seq![big] || t == seq![small] {
            assert(lower(t) =~= seq![small]);
        }
    }
}

} // verus!
