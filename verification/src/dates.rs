//! Date resolution chain.
//!
//! Timezone policy: EXIF timestamps are naive local wall-clock and are **never**
//! converted. Filesystem timestamps are absolute UTC and are converted to local
//! time before bucketing. `OffsetTimeOriginal` is recorded but never shifts the
//! bucketing date. Without this rule, two copies of one photo land in different
//! months depending on which source won.

use crate::calendar::{
    at_midnight, current_year, exists_day, exists_time, hms_exists, local_time, may_show, seconds_of,
    Date, DateTime, Moment, Ymd,
};
use crate::text::{
    all_digits, begins, char_at, char_width, chars_of, digit, digits_value, find, find_any,
    is_digit, is_white, lemma_find_any, lemma_find_any_is, parse_u32, parse_unsigned, split_any,
    starts_with, trim, trimmed, trimming_keeps_the_core, width_of,
};
use vstd::prelude::*;
use vstd::slice::slice_subrange;

verus! {

pub const MIN_YEAR: i32 = 1990;

/// Which link of the fallback chain produced the date.
///
/// Declaration order is precedence order: `companion::pick_primary` sorts by it,
/// so it must stay in step with `metadata::resolve_date`.
#[derive(Debug, Clone, Copy, PartialEq, Eq, PartialOrd, Ord, Structural)]
pub enum DateSource {
    ExifDateTimeOriginal,
    ExifCreateDate,
    Filename,
    Mtime,
    CreationTime,
    ExifModifyDate,
    Unknown,
}

impl DateSource {
    pub open spec fn name(self) -> Seq<char> {
        match self {
            DateSource::ExifDateTimeOriginal => "exif-datetime-original"@,
            DateSource::ExifCreateDate => "exif-create-date"@,
            DateSource::Filename => "filename"@,
            DateSource::Mtime => "mtime"@,
            DateSource::CreationTime => "creation-time"@,
            DateSource::ExifModifyDate => "exif-modify-date"@,
            DateSource::Unknown => "unknown"@,
        }
    }

    pub fn as_str(self) -> (r: &'static str)
        ensures
            r@ == self.name(),
    {
        match self {
            DateSource::ExifDateTimeOriginal => "exif-datetime-original",
            DateSource::ExifCreateDate => "exif-create-date",
            DateSource::Filename => "filename",
            DateSource::Mtime => "mtime",
            DateSource::CreationTime => "creation-time",
            DateSource::ExifModifyDate => "exif-modify-date",
            DateSource::Unknown => "unknown",
        }
    }

    /// The place in the fallback chain; the lower the better.
    pub open spec fn place(self) -> int {
        match self {
            DateSource::ExifDateTimeOriginal => 0,
            DateSource::ExifCreateDate => 1,
            DateSource::Filename => 2,
            DateSource::Mtime => 3,
            DateSource::CreationTime => 4,
            DateSource::ExifModifyDate => 5,
            DateSource::Unknown => 6,
        }
    }

    pub fn rank(self) -> (r: u8)
        ensures
            r == self.place(),
    {
        match self {
            DateSource::ExifDateTimeOriginal => 0,
            DateSource::ExifCreateDate => 1,
            DateSource::Filename => 2,
            DateSource::Mtime => 3,
            DateSource::CreationTime => 4,
            DateSource::ExifModifyDate => 5,
            DateSource::Unknown => 6,
        }
    }
}

/// The years that a photo can be from, in the year `this_year`.
pub open spec fn is_sane(year: int, this_year: int) -> bool {
    MIN_YEAR <= year <= this_year + 1
}

/// A moment, where it is a sane one.
pub open spec fn if_sane(m: Moment, this_year: int) -> Option<Moment> {
    if is_sane(m.day.year, this_year) {
        Some(m)
    } else {
        None
    }
}

/// Reject dates outside 1990..=now+1; a 1904 mtime or a 2099 filename is noise.
/// What "now" is, the machine's clock decides.
pub fn in_sane_range(dt: &DateTime) -> (b: bool)
    ensures
        b ==> dt@.day.year >= MIN_YEAR,
        exists|this_year: i32| b == #[trigger] is_sane(dt@.day.year, this_year as int),
{
    let this_year = current_year();
    let b = in_sane_range_at(dt, this_year);
    assert(b == is_sane(dt@.day.year, this_year as int));
    b
}

/// `in_sane_range` in the year `this_year`.
pub fn in_sane_range_at(dt: &DateTime, this_year: i32) -> (b: bool)
    ensures
        b == is_sane(dt@.day.year, this_year as int),
{
    let year = dt.year();
    year >= MIN_YEAR && year - 1 <= this_year
}

/// The numbers in the pieces of a text, where every piece is one.
pub open spec fn numbers(pieces: Seq<Seq<char>>) -> Option<Seq<nat>> {
    if forall|k: int|
        0 <= k < pieces.len() ==> parse_unsigned(
            trim(#[trigger] pieces[k]),
            u32::MAX as nat,
        ) is Some {
        Some(pieces.map_values(|p: Seq<char>| parse_unsigned(trim(p), u32::MAX as nat).unwrap()))
    } else {
        None
    }
}

/// At most the first `n` pieces.
pub open spec fn first(pieces: Seq<Seq<char>>, n: int) -> Seq<Seq<char>> {
    if pieces.len() <= n {
        pieces
    } else {
        pieces.take(n)
    }
}

/// A time written as hours, minutes and perhaps seconds.
pub open spec fn time_in(s: Seq<char>) -> Option<(int, int, int)> {
    match numbers(first(split_any(trim(s), seq![':', '.', '-']), 3)) {
        None => None,
        Some(n) => if n.len() == 3 && exists_time(n[0] as int, n[1] as int, n[2] as int) {
            Some((n[0] as int, n[1] as int, n[2] as int))
        } else if n.len() == 2 && exists_time(n[0] as int, n[1] as int, 0) {
            Some((n[0] as int, n[1] as int, 0))
        } else {
            None
        },
    }
}

/// A day written as year, month and day.
pub open spec fn day_in(s: Seq<char>) -> Option<Ymd> {
    match numbers(split_any(s, seq![':', '-', '/'])) {
        None => None,
        Some(n) => {
            let d = Ymd { year: n[0] as int, month: n[1] as int, day: n[2] as int };
            if n.len() == 3 && exists_day(d) {
                Some(d)
            } else {
                None
            }
        },
    }
}

/// The moment that an EXIF timestamp tells, sane or not.
pub open spec fn exif_moment(text: Seq<char>) -> Option<Moment> {
    let s = trim(text);
    let at = find_any(s, seq![' ', 'T'], 0);
    if s.len() == 0 || starts_with(s, seq!['0', '0', '0', '0']) {
        None
    } else {
        match day_in(s.take(at)) {
            None => None,
            Some(day) => if at < s.len() && time_in(s.skip(at + 1)) is Some {
                let t = time_in(s.skip(at + 1)).unwrap();
                Some(Moment { day, hour: t.0, minute: t.1, second: t.2 })
            } else {
                Some(at_midnight(day))
            },
        }
    }
}

/// The moment that an EXIF timestamp tells in the year `this_year`.
pub open spec fn exif_date(text: Seq<char>, this_year: int) -> Option<Moment> {
    match exif_moment(text) {
        None => None,
        Some(m) => if_sane(m, this_year),
    }
}

/// The numbers in the first `limit` pieces of `v`.
fn parse_numbers(v: &[char], seps: &[char], limit: usize) -> (r: Option<Vec<u32>>)
    requires
        limit > 0,
    ensures
        match r {
            Some(n) => numbers(first(split_any(v@, seps@), limit as int)) == Some(
                n@.map_values(|x: u32| x as nat),
            ),
            None => numbers(first(split_any(v@, seps@), limit as int)) is None,
        },
{
    let mut out: Vec<u32> = Vec::new();
    let mut start: usize = 0;
    let ghost all = split_any(v@, seps@);
    let ghost cut = first(all, limit as int);
    assert(v@.skip(0) =~= v@);
    assert(all.skip(0) =~= all);
    loop
        invariant
            start <= v@.len(),
            all == split_any(v@, seps@),
            cut == first(all, limit as int),
            out@.len() < limit,
            out@.len() < all.len(),
            all.skip(out@.len() as int) == split_any(v@.skip(start as int), seps@),
            forall|k: int|
                0 <= k < out@.len() ==> parse_unsigned(trim(#[trigger] all[k]), u32::MAX as nat)
                    == Some(out@[k] as nat),
        decreases v@.len() - start,
    {
        let ghost n = out@.len() as int;
        let ghost rest = v@.skip(start as int);
        let end = find(v, seps, start);
        let piece = slice_subrange(v, start, end);
        proof {
            lemma_find_shift(v@, seps@, start as int);
            assert(piece@ =~= rest.take(end - start));
            assert(all[n] == all.skip(n)[0]);
            if end < v@.len() {
                assert(split_any(rest, seps@)[0] == piece@);
            } else {
                assert(rest.take(end - start) =~= rest);
                assert(split_any(rest, seps@)[0] == piece@);
            }
            assert(n < cut.len() && cut[n] == all[n]);
        }
        match parse_u32(trimmed(piece)) {
            None => {
                assert(parse_unsigned(trim(cut[n]), u32::MAX as nat) is None);
                return None;
            },
            Some(x) => {
                out.push(x);
            },
        }
        let last = end >= v.len();
        if last {
            assert(split_any(rest, seps@).len() == 1);
            assert(all.skip(n).len() == 1);
        } else {
            proof {
                assert(rest.skip(end - start + 1) =~= v@.skip(end + 1));
                assert(all.skip(n + 1) =~= all.skip(n).skip(1));
                assert(split_any(rest, seps@).skip(1) =~= split_any(v@.skip(end + 1), seps@));
                lemma_split_nonempty(v@.skip(end + 1), seps@);
            }
        }
        if last || out.len() == limit {
            proof {
                assert(cut.len() == out@.len());
                assert(cut.map_values(
                    |p: Seq<char>| parse_unsigned(trim(p), u32::MAX as nat).unwrap(),
                ) =~= out@.map_values(|x: u32| x as nat)) by {
                    assert forall|k: int| 0 <= k < cut.len() implies parse_unsigned(
                        trim(#[trigger] cut[k]),
                        u32::MAX as nat,
                    ) == Some(out@[k] as nat) by {
                        assert(cut[k] == all[k]);
                    }
                }
                assert forall|k: int| 0 <= k < cut.len() implies parse_unsigned(
                    trim(#[trigger] cut[k]),
                    u32::MAX as nat,
                ) is Some by {
                    assert(cut[k] == all[k]);
                }
            }
            return Some(out);
        }
        start = end + 1;
    }
}

proof fn lemma_split_nonempty(s: Seq<char>, seps: Seq<char>)
    ensures
        split_any(s, seps).len() > 0,
{
}

/// Finding from a place on is finding in the rest of the text.
proof fn lemma_find_shift(s: Seq<char>, set: Seq<char>, from: int)
    requires
        0 <= from <= s.len(),
    ensures
        find_any(s.skip(from), set, 0) == find_any(s, set, from) - from,
        from <= find_any(s, set, from) <= s.len(),
{
    lemma_find_any(s, set, from);
    let at = find_any(s, set, from);
    assert forall|i: int| 0 <= i < at - from implies !set.contains(#[trigger] s.skip(from)[i]) by {
        assert(s.skip(from)[i] == s[i + from]);
    }
    lemma_find_any_is(s.skip(from), set, 0, at - from);
}

fn parse_time(v: &[char]) -> (r: Option<(u32, u32, u32)>)
    ensures
        match r {
            Some(t) => time_in(v@) == Some((t.0 as int, t.1 as int, t.2 as int)),
            None => time_in(v@) is None,
        },
{
    let seps: [char; 3] = [':', '.', '-'];
    assert(seps@ =~= seq![':', '.', '-']);
    match parse_numbers(trimmed(v), &seps, 3) {
        None => None,
        Some(n) => {
            let ghost m = n@.map_values(|x: u32| x as nat);
            assert(m.len() == n@.len());
            if n.len() == 3 && hms_exists(n[0], n[1], n[2]) {
                Some((n[0], n[1], n[2]))
            } else if n.len() == 2 && hms_exists(n[0], n[1], 0) {
                Some((n[0], n[1], 0))
            } else {
                None
            }
        },
    }
}

/// The moment of an EXIF `YYYY:MM:DD HH:MM:SS` string, sane or not.
fn parse_exif_moment(text: &str) -> (r: Option<DateTime>)
    ensures
        match r {
            Some(t) => exif_moment(text@) == Some(t@),
            None => exif_moment(text@) is None,
        },
{
    let v = chars_of(text);
    let s = trimmed(&v);
    let zeros: [char; 4] = ['0', '0', '0', '0'];
    assert(zeros@ =~= seq!['0', '0', '0', '0']);
    if s.len() == 0 || begins(s, &zeros) {
        return None;
    }
    let gaps: [char; 2] = [' ', 'T'];
    assert(gaps@ =~= seq![' ', 'T']);
    let at = find(s, &gaps, 0);
    let date = match parse_day(slice_subrange(s, 0, at)) {
        None => {
            return None;
        },
        Some(date) => date,
    };
    if at < s.len() {
        let rest = slice_subrange(s, at + 1, s.len());
        assert(rest@ =~= s@.skip(at + 1));
        if let Some((hour, minute, second)) = parse_time(rest) {
            proof {
                lemma_time_in(rest@);
            }
            return DateTime::new(date, hour, minute, second);
        }
    }
    Some(DateTime::midnight(date))
}

proof fn lemma_time_in(s: Seq<char>)
    ensures
        time_in(s) matches Some(t) ==> exists_time(t.0, t.1, t.2),
{
}

fn parse_day(v: &[char]) -> (r: Option<Date>)
    ensures
        match r {
            Some(d) => day_in(v@) == Some(d@),
            None => day_in(v@) is None,
        },
{
    let seps: [char; 3] = [':', '-', '/'];
    assert(seps@ =~= seq![':', '-', '/']);
    // One more than a date has, so that a longer list is told from a date.
    match parse_numbers(v, &seps, 4) {
        None => None,
        Some(n) => {
            let ghost m = n@.map_values(|x: u32| x as nat);
            assert(m.len() == n@.len());
            assert(split_any(v@, seps@).len() <= 3 <==> n@.len() <= 3);
            if n.len() != 3 || n[0] > 0x7fff_ffff {
                return None;
            }
            Date::new(n[0] as i32, n[1], n[2])
        },
    }
}

/// Parse an EXIF `YYYY:MM:DD HH:MM:SS` string.
///
/// `0000:00:00 00:00:00` is very common and means "absent", not "year zero".
/// What year a date may not be past, the machine's clock decides.
pub fn parse_exif_datetime(s: &str) -> (r: Option<DateTime>)
    ensures
        exif_moment(s@) is None ==> r is None,
        r matches Some(t) ==> exif_moment(s@) == Some(t@) && t@.day.year >= MIN_YEAR,
        exists|this_year: i32|
            (match r {
                Some(t) => #[trigger] exif_date(s@, this_year as int) == Some(t@),
                None => exif_date(s@, this_year as int) is None,
            }),
{
    let this_year = current_year();
    let r = parse_exif_datetime_at(s, this_year);
    assert(match r {
        Some(t) => exif_date(s@, this_year as int) == Some(t@),
        None => exif_date(s@, this_year as int) is None,
    });
    r
}

/// `parse_exif_datetime` in the year `this_year`.
pub fn parse_exif_datetime_at(s: &str, this_year: i32) -> (r: Option<DateTime>)
    ensures
        match r {
            Some(t) => exif_date(s@, this_year as int) == Some(t@),
            None => exif_date(s@, this_year as int) is None,
        },
{
    match parse_exif_moment(s) {
        Some(dt) if in_sane_range_at(&dt, this_year) => Some(dt),
        _ => None,
    }
}

pub open spec fn is_sep(c: char) -> bool {
    c == '-' || c == '_' || c == '.' || c == ' '
}

/// What may stand between a date and a time.
pub open spec fn is_filler(c: char) -> bool {
    is_sep(c) || c == 'T' || c == 'a' || c == 't'
}

/// The number that exactly `n` digits make from the `i`th character on.
pub open spec fn digits_from(s: Seq<char>, i: int, n: int) -> Option<int> {
    if 0 <= i && i + n <= s.len() && all_digits(s.subrange(i, i + n)) {
        Some(digits_value(s.subrange(i, i + n)) as int)
    } else {
        None
    }
}

/// Where the filler that starts at `i` ends.
pub open spec fn past_filler(s: Seq<char>, i: int) -> int
    decreases s.len() - i,
{
    if 0 <= i < s.len() && is_filler(s[i]) {
        past_filler(s, i + 1)
    } else {
        i
    }
}

/// Where the digits that start at `i` end.
pub open spec fn past_digits(s: Seq<char>, i: int) -> int
    decreases s.len() - i,
{
    if 0 <= i < s.len() && is_digit(s[i]) {
        past_digits(s, i + 1)
    } else {
        i
    }
}

/// One separator skipped, where there is one.
pub open spec fn past_sep(s: Seq<char>, i: int) -> int {
    if 0 <= i < s.len() && is_sep(s[i]) {
        i + 1
    } else {
        i
    }
}

/// A time found in a name, and where the name goes on after it.
pub struct TimeAt {
    pub hour: int,
    pub minute: int,
    pub second: int,
    pub end: int,
}

/// Midnight, for want of a time.
pub open spec fn no_time(end: int) -> TimeAt {
    TimeAt { hour: 0, minute: 0, second: 0, end }
}

/// Where a name goes on after the seconds, or after two bytes in their place: a
/// character of more than one byte is skipped alone.
pub open spec fn past_seconds(s: Seq<char>, i: int) -> int {
    if 0 <= i < s.len() && char_width(s[i]) > 1 {
        i + 1
    } else {
        i + 2
    }
}

/// The time after a date that ends at `i`: filler, then hours, minutes and
/// perhaps seconds, each of two digits, with at most one separator between them.
pub open spec fn trailing_time(s: Seq<char>, i: int) -> TimeAt {
    let h = past_filler(s, i);
    let m = past_sep(s, h + 2);
    let sec = past_sep(s, m + 2);
    if h == i || digits_from(s, h, 2) is None || digits_from(s, m, 2) is None {
        no_time(i)
    } else {
        let hour = digits_from(s, h, 2).unwrap();
        let minute = digits_from(s, m, 2).unwrap();
        let second = match digits_from(s, sec, 2) {
            Some(n) => n,
            None => 0,
        };
        if exists_time(hour, minute, second) {
            TimeAt { hour, minute, second, end: past_seconds(s, sec) }
        } else {
            no_time(i)
        }
    }
}

/// The time of digits that follow a compact date without a gap: six of them, or
/// nine with the milliseconds.
pub open spec fn compact_time(s: Seq<char>, i: int) -> Option<TimeAt> {
    let run = past_digits(s, i) - i;
    if run != 6 && run != 9 {
        None
    } else {
        let hour = digits_from(s, i, 2).unwrap();
        let minute = digits_from(s, i + 2, 2).unwrap();
        let second = digits_from(s, i + 4, 2).unwrap();
        if exists_time(hour, minute, second) {
            Some(TimeAt { hour, minute, second, end: i + run })
        } else {
            Some(no_time(i + run))
        }
    }
}

/// A day found in a name: where it ends, and whether its parts are separated.
pub open spec fn day_at(s: Seq<char>, start: int) -> Option<(Ymd, int, bool)> {
    let separated = 0 <= start + 4 < s.len() && is_sep(s[start + 4]);
    let m: int = if separated {
        start + 5
    } else {
        start + 4
    };
    let d: int = if separated {
        m + 3
    } else {
        m + 2
    };
    if digits_from(s, start, 4) is None || digits_from(s, m, 2) is None || digits_from(s, d, 2) is None {
        None
    } else if separated && s[m + 2] != s[start + 4] {
        None
    } else {
        let day = Ymd {
            year: digits_from(s, start, 4).unwrap(),
            month: digits_from(s, m, 2).unwrap(),
            day: digits_from(s, d, 2).unwrap(),
        };
        if exists_day(day) {
            Some((day, d + 2, separated))
        } else {
            None
        }
    }
}

/// The date, with its time, that starts at `start`, and where the name goes on.
pub open spec fn date_at(s: Seq<char>, start: int) -> Option<(Moment, int)> {
    match day_at(s, start) {
        None => None,
        Some((day, end, separated)) => {
            let time = if !separated && 0 <= end < s.len() && is_digit(s[end]) {
                compact_time(s, end)
            } else {
                Some(trailing_time(s, end))
            };
            match time {
                None => None,
                Some(t) => Some(
                    (Moment { day, hour: t.hour, minute: t.minute, second: t.second }, t.end),
                ),
            }
        },
    }
}

proof fn lemma_past_filler(s: Seq<char>, i: int)
    requires
        0 <= i <= s.len(),
    ensures
        i <= past_filler(s, i) <= s.len(),
    decreases s.len() - i,
{
    if i < s.len() && is_filler(s[i]) {
        lemma_past_filler(s, i + 1);
    }
}

proof fn lemma_past_digits(s: Seq<char>, i: int)
    requires
        0 <= i <= s.len(),
    ensures
        i <= past_digits(s, i) <= s.len(),
        forall|k: int| i <= k < past_digits(s, i) ==> is_digit(#[trigger] s[k]),
    decreases s.len() - i,
{
    if i < s.len() && is_digit(s[i]) {
        lemma_past_digits(s, i + 1);
    }
}

/// A date always moves the search on.
pub proof fn lemma_date_at(s: Seq<char>, start: int)
    requires
        0 <= start,
    ensures
        date_at(s, start) matches Some((m, end)) ==> start + 8 <= end && exists_day(m.day)
            && exists_time(m.hour, m.minute, m.second) && end <= s.len() + 2,
{
    if let Some((day, end, separated)) = day_at(s, start) {
        lemma_past_filler(s, end);
        lemma_past_digits(s, end);
    }
}

/// The first sane date in a name, looked for from the `i`th character on. A
/// search never starts inside a run of digits.
pub open spec fn filename_date(s: Seq<char>, i: int, this_year: int) -> Option<Moment>
    decreases s.len() + 2 - i,
{
    if i < 0 || i + 8 > s.len() {
        None
    } else if i > 0 && is_digit(s[i - 1]) {
        filename_date(s, i + 1, this_year)
    } else {
        match date_at(s, i) {
            None => filename_date(s, i + 1, this_year),
            Some((m, end)) => if is_sane(m.day.year, this_year) {
                Some(m)
            } else {
                proof {
                    lemma_date_at(s, i);
                }
                filename_date(s, end, this_year)
            },
        }
    }
}

fn sep(c: char) -> (b: bool)
    ensures
        b == is_sep(c),
{
    c == '-' || c == '_' || c == '.' || c == ' '
}

fn filler(c: char) -> (b: bool)
    ensures
        b == is_filler(c),
{
    sep(c) || c == 'T' || c == 'a' || c == 't'
}

fn digits_at(v: &[char], i: usize, n: usize) -> (r: Option<u32>)
    requires
        n <= 4,
    ensures
        match r {
            Some(x) => digits_from(v@, i as int, n as int) == Some(x as int) && x <= 9999,
            None => digits_from(v@, i as int, n as int) is None,
        },
{
    if i > v.len() || n > v.len() - i {
        return None;
    }
    let ghost part = v@.subrange(i as int, i + n);
    let mut x: u32 = 0;
    let mut k: usize = 0;
    assert(part.take(0) =~= Seq::<char>::empty());
    while k < n
        invariant
            n <= 4,
            i + n <= v@.len(),
            i + n <= usize::MAX,
            k <= n,
            part == v@.subrange(i as int, i + n),
            forall|j: int| 0 <= j < k ==> is_digit(#[trigger] part[j]),
            x == digits_value(part.take(k as int)),
            k == 0 ==> x == 0,
            k == 1 ==> x <= 9,
            k == 2 ==> x <= 99,
            k == 3 ==> x <= 999,
            k == 4 ==> x <= 9999,
        decreases n - k,
    {
        let c = char_at(v, i + k);
        assert(part[k as int] == c);
        if !digit(c) {
            return None;
        }
        assert(part.take(k + 1).drop_last() =~= part.take(k as int));
        x = x * 10 + (c as u32 - '0' as u32);
        k += 1;
    }
    assert(part.take(k as int) =~= part);
    Some(x)
}

fn skip_sep(v: &[char], i: usize) -> (r: usize)
    ensures
        r == past_sep(v@, i as int),
{
    if i < v.len() && sep(v[i]) {
        i + 1
    } else {
        i
    }
}

/// Best-effort time after a date: `_123456`, ` at 10.11.12`, `-104512`.
fn parse_trailing_time(v: &[char], i: usize, date: Date) -> (r: (DateTime, usize))
    requires
        i <= v@.len(),
        v@.len() <= usize::MAX - 8,
    ensures
        ({
            let t = trailing_time(v@, i as int);
            r.0@ == (Moment { day: date@, hour: t.hour, minute: t.minute, second: t.second })
                && r.1 == t.end
        }),
{
    let mut h: usize = i;
    while h < v.len() && filler(v[h])
        invariant
            i <= h <= v@.len(),
            past_filler(v@, i as int) == past_filler(v@, h as int),
        decreases v@.len() - h,
    {
        h += 1;
    }
    if h == i {
        return (DateTime::midnight(date), i);
    }
    let hour = match digits_at(v, h, 2) {
        Some(n) => n,
        None => {
            return (DateTime::midnight(date), i);
        },
    };
    let m = skip_sep(v, h + 2);
    let minute = match digits_at(v, m, 2) {
        Some(n) => n,
        None => {
            return (DateTime::midnight(date), i);
        },
    };
    let s = skip_sep(v, m + 2);
    let second = match digits_at(v, s, 2) {
        Some(n) => n,
        None => 0,
    };
    match DateTime::new(date, hour, minute, second) {
        Some(t) => {
            let end: usize = if s < v.len() && width_of(v[s]) > 1 {
                s + 1
            } else {
                s + 2
            };
            (t, end)
        },
        None => (DateTime::midnight(date), i),
    }
}

/// The time of digits that follow a compact date.
fn parse_compact_time(v: &[char], i: usize, date: Date) -> (r: Option<(DateTime, usize)>)
    requires
        i <= v@.len(),
    ensures
        match r {
            Some(r) => compact_time(v@, i as int) matches Some(t) && r.0@ == (Moment {
                day: date@,
                hour: t.hour,
                minute: t.minute,
                second: t.second,
            }) && r.1 == t.end,
            None => compact_time(v@, i as int) is None,
        },
{
    let mut end: usize = i;
    while end < v.len() && digit(v[end])
        invariant
            i <= end <= v@.len(),
            past_digits(v@, i as int) == past_digits(v@, end as int),
        decreases v@.len() - end,
    {
        end += 1;
    }
    if end - i != 6 && end - i != 9 {
        return None;
    }
    proof {
        lemma_past_digits(v@, i as int);
        assert forall|k: int| i <= k < i + 6 implies is_digit(#[trigger] v@[k]) by {}
        assert(all_digits(v@.subrange(i as int, i + 2)));
        assert(all_digits(v@.subrange(i + 2, i + 4)));
        assert(all_digits(v@.subrange(i + 4, i + 6)));
    }
    match (digits_at(v, i, 2), digits_at(v, i + 2, 2), digits_at(v, i + 4, 2)) {
        (Some(hour), Some(minute), Some(second)) => match DateTime::new(
            date,
            hour,
            minute,
            second,
        ) {
            Some(t) => Some((t, end)),
            None => Some((DateTime::midnight(date), end)),
        },
        _ => None,
    }
}

fn try_day_at(v: &[char], start: usize) -> (r: Option<(Date, usize, bool)>)
    requires
        start <= v@.len(),
        v@.len() <= usize::MAX - 8,
    ensures
        match r {
            Some(r) => day_at(v@, start as int) == Some((r.0@, r.1 as int, r.2)) && r.1 <= v@.len(),
            None => day_at(v@, start as int) is None,
        },
{
    let year = match digits_at(v, start, 4) {
        Some(n) => n,
        None => {
            return None;
        },
    };
    let separated = start + 4 < v.len() && sep(v[start + 4]);
    let m: usize = if separated {
        start + 5
    } else {
        start + 4
    };
    let d: usize = if separated {
        m + 3
    } else {
        m + 2
    };
    let month = match digits_at(v, m, 2) {
        Some(n) => n,
        None => {
            return None;
        },
    };
    let day = match digits_at(v, d, 2) {
        Some(n) => n,
        None => {
            return None;
        },
    };
    if separated && v[m + 2] != v[start + 4] {
        return None;
    }
    match Date::new(year as i32, month, day) {
        Some(date) => Some((date, d + 2, separated)),
        None => None,
    }
}

fn try_date_at(v: &[char], start: usize) -> (r: Option<(DateTime, usize)>)
    requires
        start <= v@.len(),
        v@.len() <= usize::MAX - 8,
    ensures
        match r {
            Some(r) => date_at(v@, start as int) == Some((r.0@, r.1 as int)),
            None => date_at(v@, start as int) is None,
        },
{
    let (date, end, separated) = match try_day_at(v, start) {
        Some(found) => found,
        None => {
            return None;
        },
    };
    // A compact date must not be a slice out of a longer digit run, unless what
    // follows is exactly a HHMMSS(mmm) timestamp.
    if !separated && end < v.len() && digit(v[end]) {
        return parse_compact_time(v, end, date);
    }
    Some(parse_trailing_time(v, end, date))
}

/// Extract a date embedded in a file name.
///
/// Filename patterns recover far more files than filesystem times: mtime is
/// destroyed by copying, syncing and editing, and Linux birthtime is often
/// unavailable. Recognizes `IMG_20230815_123456`, `20230815_123456`,
/// `PXL_20220103_180000000`, `IMG-20200101-WA0001`,
/// `Screenshot 2024-01-05 at 10.11.12`. What year a date may not be past, the
/// machine's clock decides.
pub fn parse_filename_date(name: &str) -> (r: Option<DateTime>)
    requires
        name@.len() <= usize::MAX - 8,
    ensures
        r matches Some(t) ==> t@.day.year >= MIN_YEAR,
        exists|this_year: i32|
            (match r {
                Some(t) => #[trigger] filename_date(name@, 0, this_year as int) == Some(t@),
                None => filename_date(name@, 0, this_year as int) is None,
            }),
{
    let this_year = current_year();
    let r = parse_filename_date_at(name, this_year);
    assert(match r {
        Some(t) => filename_date(name@, 0, this_year as int) == Some(t@),
        None => filename_date(name@, 0, this_year as int) is None,
    });
    proof {
        filename_dates_are_sane(name@, 0, this_year as int);
    }
    r
}

/// `parse_filename_date` in the year `this_year`.
pub fn parse_filename_date_at(name: &str, this_year: i32) -> (r: Option<DateTime>)
    requires
        name@.len() <= usize::MAX - 8,
    ensures
        match r {
            Some(t) => filename_date(name@, 0, this_year as int) == Some(t@),
            None => filename_date(name@, 0, this_year as int) is None,
        },
{
    let v = chars_of(name);
    let mut i: usize = 0;
    while i <= v.len() && v.len() - i >= 8
        invariant
            v@ == name@,
            v@.len() <= usize::MAX - 8,
            i <= v@.len() + 2,
            filename_date(v@, 0, this_year as int) == filename_date(
                v@,
                i as int,
                this_year as int,
            ),
        decreases v@.len() + 2 - i,
    {
        // Never start mid-digit-run: that is how `180000000` would be misread.
        if i > 0 && digit(v[i - 1]) {
            i += 1;
            continue;
        }
        proof {
            lemma_date_at(v@, i as int);
        }
        match try_date_at(&v, i) {
            Some((dt, end)) => {
                if in_sane_range_at(&dt, this_year) {
                    return Some(dt);
                }
                i = end;
            },
            None => {
                i += 1;
            },
        }
    }
    None
}

/// A date read out of a name is a sane one.
pub proof fn filename_dates_are_sane(s: Seq<char>, i: int, this_year: int)
    ensures
        filename_date(s, i, this_year) matches Some(m) ==> is_sane(m.day.year, this_year)
            && exists_day(m.day),
    decreases s.len() + 2 - i,
{
    if i >= 0 && i + 8 <= s.len() {
        lemma_date_at(s, i);
        if i > 0 && is_digit(s[i - 1]) {
            filename_dates_are_sane(s, i + 1, this_year);
        } else {
            match date_at(s, i) {
                None => filename_dates_are_sane(s, i + 1, this_year),
                Some((m, end)) => if !is_sane(m.day.year, this_year) {
                    filename_dates_are_sane(s, end, this_year);
                },
            }
        }
    }
}

/// A date and time, where it is a sane one.
pub open spec fn sane_part(dt: Option<DateTime>, this_year: int) -> Option<DateTime> {
    match dt {
        Some(t) if is_sane(t@.day.year, this_year) => Some(t),
        _ => None,
    }
}

/// Whether a file time of this many seconds and nanoseconds is `r` on some wall
/// clock, in some year: what the clock shows, where that is sane in that year, and
/// nothing only where the clock shows nothing or what it shows is not sane.
pub open spec fn may_be_local(r: Option<DateTime>, secs: i64, nanos: u32) -> bool {
    exists|clock: Option<DateTime>, this_year: i32|
        #[trigger] may_show(clock, secs, nanos) && r == #[trigger] sane_part(
            clock,
            this_year as int,
        )
}

/// Convert an absolute filesystem timestamp, in seconds and nanoseconds since
/// the start of 1970 in UTC, to naive **local** wall-clock. The machine's time
/// zone and its clock decide.
pub fn system_time_to_local(secs: i64, nanos: u32) -> (r: Option<DateTime>)
    ensures
        may_be_local(r, secs, nanos),
        r matches Some(t) ==> t@.day.year >= MIN_YEAR && -86_400 < seconds_of(t@) - secs < 86_400
            && nanos < 1_000_000_000,
{
    let clock = local_time(secs, nanos);
    let this_year: i32 = current_year();
    let r = sane_or_none(clock, this_year);
    assert(may_show(clock, secs, nanos) && r == sane_part(clock, this_year as int));
    r
}

/// What `system_time_to_local` makes of a local wall clock in the year
/// `this_year`.
pub fn sane_or_none(dt: Option<DateTime>, this_year: i32) -> (r: Option<DateTime>)
    ensures
        r == sane_part(dt, this_year as int),
{
    match dt {
        Some(t) if in_sane_range_at(&t, this_year) => Some(t),
        _ => None,
    }
}

/// Whether there is nothing but digits from the `i`th character up to the `j`th.
pub open spec fn digits_between(s: Seq<char>, i: int, j: int) -> bool {
    0 <= i <= j <= s.len() && forall|k: int| i <= k < j ==> '0' <= #[trigger] s[k] && s[k] <= '9'
}

/// Whether the digits end before the `i`th character.
pub open spec fn digits_end(s: Seq<char>, i: int) -> bool {
    i == s.len() || 0 <= i < s.len() && !('0' <= s[i] && s[i] <= '9')
}

/// The number that two digits make.
pub open spec fn two(s: Seq<char>, i: int) -> int {
    10 * (s[i] as int - '0' as int) + (s[i + 1] as int - '0' as int)
}

/// The number that four digits make.
pub open spec fn four(s: Seq<char>, i: int) -> int {
    100 * two(s, i) + two(s, i + 2)
}

/// Whether a character may stand between the parts of a date or of a time.
pub open spec fn parts(c: char) -> bool {
    c == '-' || c == '_' || c == '.' || c == ' '
}

/// Whether a name tells this day from the `n`th character up to the `e`th: eight digits,
/// or a year, a month and a day with the same separator between them twice.
pub open spec fn tells_day(s: Seq<char>, n: int, e: int, day: Ymd) -> bool {
    ||| e == n + 8 && digits_between(s, n, e) && day == (Ymd {
        year: four(s, n),
        month: two(s, n + 4),
        day: two(s, n + 6),
    })
    ||| e == n + 10 && e <= s.len() && digits_between(s, n, n + 4) && parts(s[n + 4])
        && digits_between(s, n + 5, n + 7) && s[n + 7] == s[n + 4] && digits_between(s, n + 8, e)
        && day == (Ymd { year: four(s, n), month: two(s, n + 5), day: two(s, n + 8) })
}

/// Whether a name tells this time of day from the `h`th character on: hours, minutes and
/// seconds of two digits, with or without a separator before the minutes and before the
/// seconds.
pub open spec fn tells_time(s: Seq<char>, h: int, hour: int, minute: int, second: int) -> bool {
    exists|m: int, x: int| #[trigger] tells_time_at(s, h, m, x, hour, minute, second)
}

/// `tells_time` with the minutes at `m` and the seconds at `x`.
pub open spec fn tells_time_at(
    s: Seq<char>,
    h: int,
    m: int,
    x: int,
    hour: int,
    minute: int,
    second: int,
) -> bool {
    &&& digits_between(s, h, h + 2) && hour == two(s, h)
    &&& digits_between(s, m, m + 2) && minute == two(s, m)
    &&& digits_between(s, x, x + 2) && second == two(s, x)
    &&& m == h + 2 || m == h + 3 && parts(s[h + 2])
    &&& x == m + 2 || x == m + 3 && parts(s[m + 2])
}

/// Whether a moment is one that a photo can have been taken at in the year `this_year`:
/// a second of a day that exists, not before 1990 and not after the next year.
pub open spec fn can_be_taken(m: Moment, this_year: int) -> bool {
    &&& exists_day(m.day)
    &&& 1990 <= m.day.year <= this_year + 1
    &&& 0 <= m.hour < 24 && 0 <= m.minute < 60 && 0 <= m.second < 60
}

/// Whether the first digit of a name is its `n`th character.
pub open spec fn digits_start(s: Seq<char>, n: int) -> bool {
    0 <= n <= s.len() && forall|k: int| 0 <= k < n ==> !('0' <= #[trigger] s[k] && s[k] <= '9')
}

proof fn lemma_two(s: Seq<char>, i: int)
    requires
        digits_between(s, i, i + 2),
    ensures
        digits_from(s, i, 2) == Some(two(s, i)),
{
    let p = s.subrange(i, i + 2);
    assert(p[0] == s[i] && p[1] == s[i + 1]);
    assert(all_digits(p));
    assert(p.drop_last() =~= seq![s[i]]);
    assert(p.drop_last().drop_last() =~= Seq::<char>::empty());
    reveal_with_fuel(digits_value, 3);
}

proof fn lemma_four(s: Seq<char>, i: int)
    requires
        digits_between(s, i, i + 4),
    ensures
        digits_from(s, i, 4) == Some(four(s, i)),
{
    let p = s.subrange(i, i + 4);
    assert forall|k: int| 0 <= k < 4 implies p[k] == s[i + k] by {}
    assert(all_digits(p));
    let a = p.drop_last();
    let b = a.drop_last();
    let c = b.drop_last();
    assert(c.drop_last() =~= Seq::<char>::empty());
    reveal_with_fuel(digits_value, 5);
}

/// A search passes over what holds no digit.
proof fn lemma_search(s: Seq<char>, i: int, n: int, this_year: int)
    requires
        digits_start(s, n),
        0 <= i <= n,
        n + 8 <= s.len(),
    ensures
        filename_date(s, i, this_year) == filename_date(s, n, this_year),
    decreases n - i,
{
    if i < n {
        assert(s.subrange(i, i + 4)[0] == s[i]);
        assert(!all_digits(s.subrange(i, i + 4)));
        assert(date_at(s, i) is None);
        lemma_search(s, i + 1, n, this_year);
    }
}

/// A date at the first digit of a name is the date of the name.
proof fn lemma_first(s: Seq<char>, n: int, m: Moment, end: int, this_year: int)
    requires
        digits_start(s, n),
        n + 8 <= s.len(),
        date_at(s, n) == Some((m, end)),
        can_be_taken(m, this_year),
    ensures
        filename_date(s, 0, this_year) == Some(m),
{
    lemma_search(s, 0, n, this_year);
    if n > 0 {
        assert(!is_digit(s[n - 1]));
    }
}

proof fn lemma_run(s: Seq<char>, i: int, j: int)
    requires
        digits_between(s, i, j),
        digits_end(s, j),
    ensures
        past_digits(s, i) == j,
    decreases j - i,
{
    if i < j {
        lemma_run(s, i + 1, j);
    }
}

proof fn lemma_fillers(s: Seq<char>, i: int, j: int)
    requires
        0 <= i <= j < s.len(),
        forall|k: int| i <= k < j ==> is_filler(#[trigger] s[k]),
        !is_filler(s[j]),
    ensures
        past_filler(s, i) == j,
    decreases j - i,
{
    if i < j {
        lemma_fillers(s, i + 1, j);
    }
}

/// Fourteen digits without a gap, from the year to the seconds, tell exactly that moment,
/// and so do seventeen with the milliseconds behind, whatever stands before the first
/// digit of a name and behind the last.
pub proof fn times_without_a_gap_are_found(s: Seq<char>, n: int, run: int, m: Moment, this_year: int)
    requires
        digits_start(s, n),
        run == 14 || run == 17,
        digits_between(s, n, n + run),
        digits_end(s, n + run),
        m.day == (Ymd { year: four(s, n), month: two(s, n + 4), day: two(s, n + 6) }),
        m.hour == two(s, n + 8),
        m.minute == two(s, n + 10),
        m.second == two(s, n + 12),
        can_be_taken(m, this_year),
    ensures
        filename_date(s, 0, this_year) == Some(m),
{
    lemma_four(s, n);
    lemma_two(s, n + 4);
    lemma_two(s, n + 6);
    lemma_two(s, n + 8);
    lemma_two(s, n + 10);
    lemma_two(s, n + 12);
    lemma_run(s, n + 8, n + run);
    assert('0' <= s[n + 4] && s[n + 4] <= '9');
    assert('0' <= s[n + 8] && s[n + 8] <= '9');
    assert(!is_sep(s[n + 4]));
    assert(day_at(s, n) == Some((m.day, n + 8, false)));
    lemma_first(s, n, m, n + run, this_year);
}

proof fn lemma_day_at(s: Seq<char>, n: int, e: int, day: Ymd)
    requires
        tells_day(s, n, e, day),
        exists_day(day),
    ensures
        day_at(s, n) == Some((day, e, e == n + 10)),
{
    lemma_four(s, n);
    if e == n + 8 {
        lemma_two(s, n + 4);
        lemma_two(s, n + 6);
        assert('0' <= s[n + 4] && s[n + 4] <= '9');
    } else {
        lemma_two(s, n + 5);
        lemma_two(s, n + 8);
    }
}

/// A day, something between, and a time of day tell exactly that moment, whatever stands
/// before the first digit of a name and behind the seconds.
pub proof fn days_with_times_are_found(
    s: Seq<char>,
    n: int,
    e: int,
    h: int,
    m: Moment,
    this_year: int,
)
    requires
        digits_start(s, n),
        tells_day(s, n, e, m.day),
        e < h < s.len(),
        forall|k: int|
            e <= k < h ==> parts(#[trigger] s[k]) || s[k] == 'T' || s[k] == 'a' || s[k] == 't',
        tells_time(s, h, m.hour, m.minute, m.second),
        can_be_taken(m, this_year),
    ensures
        filename_date(s, 0, this_year) == Some(m),
{
    let (a, x) = choose|a: int, x: int| #[trigger]
        tells_time_at(s, h, a, x, m.hour, m.minute, m.second);
    lemma_day_at(s, n, e, m.day);
    assert('0' <= s[h] && s[h] <= '9');
    assert(parts(s[e]) || s[e] == 'T' || s[e] == 'a' || s[e] == 't');
    assert forall|k: int| e <= k < h implies is_filler(#[trigger] s[k]) by {}
    lemma_fillers(s, e, h);
    lemma_two(s, h);
    lemma_two(s, a);
    lemma_two(s, x);
    if a == h + 2 {
        assert('0' <= s[a] && s[a] <= '9');
    }
    if x == a + 2 {
        assert('0' <= s[x] && s[x] <= '9');
    }
    assert(past_sep(s, h + 2) == a);
    assert(past_sep(s, a + 2) == x);
    let t = trailing_time(s, e);
    assert(exists_time(m.hour, m.minute, m.second));
    assert(!is_digit(s[e]));
    lemma_first(s, n, m, t.end, this_year);
}

/// A day that no time follows tells its midnight: behind it the name ends, or goes on
/// with something that neither is a digit nor leads to a time.
pub proof fn days_alone_are_found(s: Seq<char>, n: int, e: int, day: Ymd, this_year: int)
    requires
        digits_start(s, n),
        tells_day(s, n, e, day),
        digits_end(s, e),
        e == s.len() || !(parts(s[e]) || s[e] == 'T' || s[e] == 'a' || s[e] == 't'),
        can_be_taken(at_midnight(day), this_year),
    ensures
        filename_date(s, 0, this_year) == Some(Moment { day, hour: 0, minute: 0, second: 0 }),
{
    lemma_day_at(s, n, e, day);
    assert(past_filler(s, e) == e);
    lemma_first(s, n, at_midnight(day), e, this_year);
}

proof fn lemma_no_date(s: Seq<char>, n: int, run: int, i: int, this_year: int)
    requires
        digits_start(s, n),
        digits_between(s, n, n + run),
        forall|k: int| n + run <= k < s.len() ==> !('0' <= #[trigger] s[k] && s[k] <= '9'),
        run != 8 && run != 14 && run != 17,
        0 <= i,
    ensures
        filename_date(s, i, this_year) is None,
    decreases s.len() - i,
{
    if i + 8 <= s.len() {
        lemma_no_date(s, n, run, i + 1, this_year);
        if !(i > 0 && is_digit(s[i - 1])) {
            let p = s.subrange(i, i + 4);
            if digits_from(s, i, 4) is Some {
                assert forall|k: int| i <= k < i + 4 implies is_digit(#[trigger] s[k]) by {
                    assert(p[k - i] == s[k]);
                }
                assert(is_digit(s[i]) && is_digit(s[i + 3]));
                assert(i == n) by {
                    if i > n {
                        assert('0' <= s[i - 1] && s[i - 1] <= '9');
                    }
                }
                if is_sep(s[i + 4]) {
                    assert(s.subrange(i + 5, i + 7)[0] == s[i + 5]);
                    assert(!is_digit(s[i + 5]));
                } else if digits_from(s, i + 4, 2) is Some && digits_from(s, i + 6, 2) is Some {
                    assert(s.subrange(i + 6, i + 8)[1] == s[i + 7]);
                    assert(is_digit(s[i + 7]));
                    assert(run > 8);
                    lemma_run(s, n + 8, n + run);
                    assert('0' <= s[n + 8] && s[n + 8] <= '9');
                }
            }
            assert(date_at(s, i) is None);
        }
    }
}

/// A single run of digits tells no date unless it is a day alone, or a day and a time
/// with or without milliseconds: eight, fourteen or seventeen digits. A counter is not
/// taken for a date.
pub proof fn other_runs_of_digits_tell_no_date(s: Seq<char>, n: int, run: int, this_year: int)
    requires
        digits_start(s, n),
        digits_between(s, n, n + run),
        forall|k: int| n + run <= k < s.len() ==> !('0' <= #[trigger] s[k] && s[k] <= '9'),
        run != 8 && run != 14 && run != 17,
    ensures
        filename_date(s, 0, this_year) is None,
{
    lemma_no_date(s, n, run, 0, this_year);
}

/// Nothing is trimmed from a text without white space at its ends.
proof fn lemma_untrimmed(s: Seq<char>)
    requires
        s.len() > 0,
        '0' <= s[0] && s[0] <= '9',
        '0' <= s.last() && s.last() <= '9',
    ensures
        trim(s) == s,
{
    let i = trimming_keeps_the_core(s);
    assert(!is_white(s[0]));
    assert(!is_white(s[s.len() - 1]));
    assert(i == 0);
    assert(trim(s).len() == s.len());
    assert(trim(s) =~= s);
}

/// Two or four digits are read as the number that they make.
proof fn lemma_piece(s: Seq<char>, at: int, n: int)
    requires
        n == 2 || n == 4,
        digits_between(s, at, at + n),
    ensures
        parse_unsigned(trim(s.subrange(at, at + n)), u32::MAX as nat) == Some(
            (if n == 2 {
                two(s, at)
            } else {
                four(s, at)
            }) as nat,
        ),
{
    let p = s.subrange(at, at + n);
    assert(p[0] == s[at] && p[n - 1] == s[at + n - 1]);
    lemma_untrimmed(p);
    if n == 2 {
        lemma_two(s, at);
    } else {
        lemma_four(s, at);
    }
}

/// Three pieces of digits between two separators.
proof fn lemma_three(s: Seq<char>, set: Seq<char>, a: int, b: int)
    requires
        0 <= a < b < s.len(),
        set.contains(s[a]),
        set.contains(s[b]),
        forall|k: int| 0 <= k < s.len() && k != a && k != b ==> !set.contains(#[trigger] s[k]),
    ensures
        split_any(s, set) == seq![s.take(a), s.subrange(a + 1, b), s.skip(b + 1)],
{
    lemma_find_any_is(s, set, 0, a);
    let r = s.skip(a + 1);
    assert forall|k: int| 0 <= k < b - a - 1 implies !set.contains(#[trigger] r[k]) by {
        assert(r[k] == s[k + a + 1]);
    }
    assert(r[b - a - 1] == s[b]);
    lemma_find_any_is(r, set, 0, b - a - 1);
    let t = r.skip(b - a);
    assert(t =~= s.skip(b + 1));
    assert forall|k: int| 0 <= k < t.len() implies !set.contains(#[trigger] t[k]) by {
        assert(t[k] == s[k + b + 1]);
    }
    lemma_find_any_is(t, set, 0, t.len() as int);
    assert(r.take(b - a - 1) =~= s.subrange(a + 1, b));
    assert(split_any(t, set) == seq![t]);
    assert(split_any(r, set) == seq![r.take(b - a - 1)] + seq![t]);
    assert(split_any(s, set) =~= seq![s.take(a), s.subrange(a + 1, b), s.skip(b + 1)]);
}

proof fn lemma_numbers(pieces: Seq<Seq<char>>, x: nat, y: nat, z: nat)
    requires
        pieces.len() == 3,
        parse_unsigned(trim(pieces[0]), u32::MAX as nat) == Some(x),
        parse_unsigned(trim(pieces[1]), u32::MAX as nat) == Some(y),
        parse_unsigned(trim(pieces[2]), u32::MAX as nat) == Some(z),
    ensures
        numbers(pieces) == Some(seq![x, y, z]),
{
    assert(numbers(pieces).unwrap() =~= seq![x, y, z]);
}

proof fn lemma_day_text(s: Seq<char>)
    requires
        s.len() == 10,
        digits_between(s, 0, 4) && digits_between(s, 5, 7) && digits_between(s, 8, 10),
        s[4] == ':' || s[4] == '-' || s[4] == '/',
        s[7] == ':' || s[7] == '-' || s[7] == '/',
        exists_day(Ymd { year: four(s, 0), month: two(s, 5), day: two(s, 8) }),
    ensures
        day_in(s) == Some(Ymd { year: four(s, 0), month: two(s, 5), day: two(s, 8) }),
{
    let set = seq![':', '-', '/'];
    assert(set[0] == ':' && set[1] == '-' && set[2] == '/');
    assert forall|k: int| 0 <= k < 10 && k != 4 && k != 7 implies !set.contains(#[trigger] s[k]) by {
        assert('0' <= s[k] && s[k] <= '9');
    }
    lemma_three(s, set, 4, 7);
    assert(s.take(4) =~= s.subrange(0, 4));
    assert(s.skip(8) =~= s.subrange(8, 10));
    lemma_piece(s, 0, 4);
    lemma_piece(s, 5, 2);
    lemma_piece(s, 8, 2);
    lemma_numbers(split_any(s, set), four(s, 0) as nat, two(s, 5) as nat, two(s, 8) as nat);
}

proof fn lemma_clock_text(s: Seq<char>)
    requires
        s.len() == 8,
        digits_between(s, 0, 2) && digits_between(s, 3, 5) && digits_between(s, 6, 8),
        s[2] == ':' && s[5] == ':',
        0 <= two(s, 0) < 24 && 0 <= two(s, 3) < 60 && 0 <= two(s, 6) < 60,
    ensures
        time_in(s) == Some((two(s, 0), two(s, 3), two(s, 6))),
{
    let set = seq![':', '.', '-'];
    assert(set[0] == ':' && set[1] == '.' && set[2] == '-');
    assert forall|k: int| 0 <= k < 8 && k != 2 && k != 5 implies !set.contains(#[trigger] s[k]) by {
        assert('0' <= s[k] && s[k] <= '9');
    }
    assert('0' <= s[0] && s[0] <= '9');
    assert('0' <= s[7] && s[7] <= '9');
    lemma_untrimmed(s);
    lemma_three(s, set, 2, 5);
    assert(s.take(2) =~= s.subrange(0, 2));
    assert(s.skip(6) =~= s.subrange(6, 8));
    lemma_piece(s, 0, 2);
    lemma_piece(s, 3, 2);
    lemma_piece(s, 6, 2);
    lemma_numbers(split_any(s, set), two(s, 0) as nat, two(s, 3) as nat, two(s, 6) as nat);
    assert(first(split_any(s, set), 3) == split_any(s, set));
    assert(exists_time(two(s, 0), two(s, 3), two(s, 6)));
}

proof fn lemma_digits_moved(s: Seq<char>, t: Seq<char>, at: int, i: int, j: int)
    requires
        0 <= at,
        at + t.len() <= s.len(),
        t == s.subrange(at, at + t.len()),
        0 <= i <= j <= t.len(),
        digits_between(s, at + i, at + j),
    ensures
        digits_between(t, i, j),
{
    assert forall|k: int| i <= k < j implies '0' <= #[trigger] t[k] && t[k] <= '9' by {
        assert(t[k] == s[at + k]);
    }
}

/// A timestamp as cameras write it, year, month and day, a space and hours, minutes and
/// seconds, tells exactly that moment. The day may be written with dashes or slashes, and
/// a letter T may stand for the space.
pub proof fn timestamps_of_cameras_are_read(s: Seq<char>, m: Moment, this_year: int)
    requires
        s.len() == 19,
        digits_between(s, 0, 4) && digits_between(s, 5, 7) && digits_between(s, 8, 10),
        digits_between(s, 11, 13) && digits_between(s, 14, 16) && digits_between(s, 17, 19),
        s[4] == ':' || s[4] == '-' || s[4] == '/',
        s[7] == ':' || s[7] == '-' || s[7] == '/',
        s[10] == ' ' || s[10] == 'T',
        s[13] == ':' && s[16] == ':',
        m.day == (Ymd { year: four(s, 0), month: two(s, 5), day: two(s, 8) }),
        m.hour == two(s, 11),
        m.minute == two(s, 14),
        m.second == two(s, 17),
        can_be_taken(m, this_year),
    ensures
        exif_date(s, this_year) == Some(m),
{
    assert('0' <= s[0] && s[0] <= '9');
    assert('0' <= s[18] && s[18] <= '9');
    lemma_untrimmed(s);
    let gap = seq![' ', 'T'];
    assert(gap[0] == ' ' && gap[1] == 'T');
    assert forall|k: int| 0 <= k < 10 implies !gap.contains(#[trigger] s[k]) by {
        assert(k == 4 || k == 7 || '0' <= s[k] && s[k] <= '9');
    }
    lemma_find_any_is(s, gap, 0, 10);
    let day = s.take(10);
    assert(day =~= s.subrange(0, 10));
    lemma_digits_moved(s, day, 0, 0, 4);
    lemma_digits_moved(s, day, 0, 5, 7);
    lemma_digits_moved(s, day, 0, 8, 10);
    assert(four(day, 0) == four(s, 0) && two(day, 5) == two(s, 5) && two(day, 8) == two(s, 8));
    lemma_day_text(day);
    let clock = s.skip(11);
    assert(clock =~= s.subrange(11, 19));
    lemma_digits_moved(s, clock, 11, 0, 2);
    lemma_digits_moved(s, clock, 11, 3, 5);
    lemma_digits_moved(s, clock, 11, 6, 8);
    assert(two(clock, 0) == two(s, 11) && two(clock, 3) == two(s, 14));
    assert(two(clock, 6) == two(s, 17));
    lemma_clock_text(clock);
    let zeros = seq!['0', '0', '0', '0'];
    if starts_with(s, zeros) {
        assert(zeros[0] == '0' && zeros[1] == '0' && zeros[2] == '0' && zeros[3] == '0');
        assert(s.take(4)[0] == s[0] && s.take(4)[1] == s[1]);
        assert(s.take(4)[2] == s[2] && s.take(4)[3] == s[3]);
        assert(four(s, 0) == 0);
    }
}

} // verus!
