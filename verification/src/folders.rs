//! What the folders of the built-in layouts tell: which day, week, month or year, and
//! which place.

use crate::adaptive::Level;
use crate::calendar::{
    day_number, exists_day, iso_week_number, iso_weeks_run_from_monday_to_sunday, iso_year,
    weeks_of_a_month_go_by_their_numbers, Ymd,
};
use crate::config::{Granularity, LocationDepth, Options};
use crate::plan::{dir_for, subject_for, Job, World};
use crate::presets::{
    day_parts, field, group_parts, level_parts, levels_have_their_parts, month_parts, place_parts,
    presets_have_their_parts, week_of_month_parts, week_parts, year_parts,
};
use crate::sanitize::{component_keeps_clean, component_of, is_clean, is_illegal, nfc_text};
use crate::template::{
    class_of, is_placeless, mentions, month_name, padded, parsed, parts_of, place_value, rendered,
    rendered_path_splits, segment_text, token_text, var_value, Class, Place, Subject, Token, Var,
};
use crate::text::{
    byte_len, char_width, decimal, decimal_reads_back, digit_char, is_digit, joined,
    lemma_byte_len_add, lemma_find_any_is, lower, signed_decimal,
};
use vstd::prelude::*;

verus! {

/// A number from 0 to 99 in two digits.
pub open spec fn two_digits(n: int) -> Seq<char> {
    seq![digit_char((n / 10) as nat), digit_char((n % 10) as nat)]
}

/// The name of a month with its number in front.
pub open spec fn month_folder(month: int) -> Seq<char> {
    two_digits(month) + seq!['-'] + month_name(month)
}

/// The number of an ISO week behind the letter W.
pub open spec fn week_folder(d: Ymd) -> Seq<char> {
    seq!['W'] + two_digits(iso_week_number(d))
}

/// The folders of a day in the layout of a preset, outermost first.
pub open spec fn date_folders(group: Granularity, d: Ymd) -> Seq<Seq<char>> {
    match group {
        Granularity::Year => seq![signed_decimal(d.year)],
        Granularity::Month | Granularity::Adaptive => seq![
            signed_decimal(d.year),
            month_folder(d.month),
        ],
        Granularity::Week => seq![
            signed_decimal(iso_year(d)),
            signed_decimal(iso_year(d)) + seq!['-'] + week_folder(d),
        ],
        Granularity::Day => seq![
            signed_decimal(d.year),
            two_digits(d.month),
            two_digits(d.day),
        ],
    }
}

/// The folders of a day at a level of an adaptive layout, outermost first.
pub open spec fn level_folders(level: Level, d: Ymd) -> Seq<Seq<char>> {
    match level {
        Level::Year => seq![signed_decimal(d.year)],
        Level::Month => seq![signed_decimal(d.year), month_folder(d.month)],
        Level::Week => seq![signed_decimal(d.year), month_folder(d.month), week_folder(d)],
    }
}

/// The names of the months, in their order.
pub proof fn months_have_their_names()
    ensures
        forall|m: int|
            1 <= m <= 12 ==> #[trigger] month_name(m) == seq![
                "January"@,
                "February"@,
                "March"@,
                "April"@,
                "May"@,
                "June"@,
                "July"@,
                "August"@,
                "September"@,
                "October"@,
                "November"@,
                "December"@,
            ][m - 1],
{
}

/// A text that every normalization leaves alone.
pub open spec fn is_ascii_text(s: Seq<char>) -> bool {
    forall|i: int| 0 <= i < s.len() ==> (#[trigger] s[i] as u32) < 0x80
}

/// Whether normalization leaves ASCII texts as they are, as Unicode promises of all its
/// normalization forms.
pub open spec fn ascii_is_normal() -> bool {
    forall|s: Seq<char>| is_ascii_text(s) ==> #[trigger] nfc_text(s) == s
}

/// How a text looks as the name of a folder.
pub open spec fn folder_name(text: Seq<char>) -> Seq<char> {
    component_of(nfc_text(text))
}

/// Letters, digits and dashes, that do not start like the name of a device.
spec fn is_plain(t: Seq<char>) -> bool {
    &&& 0 < t.len() <= 40
    &&& forall|i: int| 0 <= i < t.len() ==> is_plain_char(#[trigger] t[i])
    &&& is_digit(t[0]) || t[0] == '-' || t[0] == 'W'
}

spec fn is_plain_char(c: char) -> bool {
    is_digit(c) || 'A' <= c && c <= 'Z' || 'a' <= c && c <= 'z' || c == '-'
}

proof fn lemma_ascii_len(s: Seq<char>)
    requires
        is_ascii_text(s),
    ensures
        byte_len(s) == s.len(),
    decreases s.len(),
{
    if s.len() > 0 {
        let rest = s.drop_last();
        assert forall|i: int| 0 <= i < rest.len() implies (#[trigger] rest[i] as u32) < 0x80 by {
            assert(rest[i] == s[i]);
        }
        lemma_ascii_len(rest);
        assert(rest + seq![s.last()] =~= s);
        lemma_byte_len_add(rest, seq![s.last()]);
        assert(seq![s.last()].drop_last() =~= Seq::<char>::empty());
        assert(seq![s.last()].drop_first() =~= Seq::<char>::empty());
        reveal_with_fuel(byte_len, 2);
        assert(char_width(s[s.len() - 1]) == 1);
    }
}

proof fn lemma_plain(t: Seq<char>)
    requires
        is_plain(t),
        ascii_is_normal(),
    ensures
        folder_name(t) == t,
{
    assert(is_ascii_text(t)) by {
        assert forall|i: int| 0 <= i < t.len() implies (#[trigger] t[i] as u32) < 0x80 by {
            assert(is_plain_char(t[i]));
        }
    }
    lemma_ascii_len(t);
    assert forall|i: int| 0 <= i < t.len() implies !is_illegal(#[trigger] t[i]) by {
        assert(is_plain_char(t[i]));
    }
    assert forall|i: int| 0 <= i < t.len() implies !seq!['.'].contains(#[trigger] t[i]) by {
        assert(is_plain_char(t[i]));
    }
    lemma_find_any_is(t, seq!['.'], 0, t.len() as int);
    assert(t.take(t.len() as int) =~= t);
    let l = lower(t);
    assert(l[0] == t[0] || l[0] == 'w');
    if l.len() == 4 {
        assert(l.take(3)[0] == l[0]);
    }
    assert(is_plain_char(t[0]));
    assert(is_plain_char(t[t.len() - 1]));
    assert(seq!['c', 'o', 'n'][0] == 'c');
    assert(seq!['p', 'r', 'n'][0] == 'p');
    assert(seq!['a', 'u', 'x'][0] == 'a');
    assert(seq!['n', 'u', 'l'][0] == 'n');
    assert(seq!['c', 'o', 'm'][0] == 'c');
    assert(seq!['l', 'p', 't'][0] == 'l');
    assert(is_clean(t));
    component_keeps_clean(t);
}

spec fn ten_to(k: nat) -> nat
    decreases k,
{
    if k == 0 {
        1
    } else {
        10 * ten_to((k - 1) as nat)
    }
}

proof fn lemma_decimal_len(n: nat, k: nat)
    requires
        k > 0,
        n < ten_to(k),
    ensures
        decimal(n).len() <= k,
    decreases k,
{
    if n >= 10 {
        if k == 1 {
            reveal_with_fuel(ten_to, 2);
        } else {
            lemma_decimal_len(n / 10, (k - 1) as nat);
        }
    }
}

proof fn lemma_year_text(n: int)
    requires
        -1_000_000 < n < 1_000_000,
    ensures
        is_plain(signed_decimal(n)),
        signed_decimal(n).len() <= 7,
        is_digit(signed_decimal(n).last()),
{
    let a: nat = if n < 0 {
        (-n) as nat
    } else {
        n as nat
    };
    decimal_reads_back(a);
    reveal_with_fuel(ten_to, 7);
    lemma_decimal_len(a, 6);
    let d = decimal(a);
    let t = signed_decimal(n);
    assert forall|i: int| 0 <= i < t.len() implies is_plain_char(#[trigger] t[i]) by {
        if n < 0 && i > 0 {
            assert(t[i] == d[i - 1]);
        }
    }
    assert(is_digit(d[0]));
    assert(is_digit(d[d.len() - 1]));
    assert(t.last() == d.last());
}

/// Different numbers have different texts.
proof fn lemma_years_differ(a: int, b: int)
    requires
        signed_decimal(a) == signed_decimal(b),
    ensures
        a == b,
{
    let m: nat = if a < 0 {
        (-a) as nat
    } else {
        a as nat
    };
    let n: nat = if b < 0 {
        (-b) as nat
    } else {
        b as nat
    };
    decimal_reads_back(m);
    decimal_reads_back(n);
    assert(is_digit(decimal(m)[0]));
    assert(is_digit(decimal(n)[0]));
    let (s, t) = (signed_decimal(a), signed_decimal(b));
    assert(s[0] == t[0]);
    if a < 0 && b < 0 {
        assert(s.skip(1) =~= decimal(m));
        assert(t.skip(1) =~= decimal(n));
    }
}

proof fn lemma_two_digits(n: int)
    requires
        0 <= n < 100,
    ensures
        padded(signed_decimal(n), 2) == two_digits(n),
        is_digit(two_digits(n)[0]),
        is_digit(two_digits(n)[1]),
{
    reveal_with_fuel(decimal, 3);
    assert(padded(signed_decimal(n), 2) =~= two_digits(n));
}

proof fn lemma_two_digits_differ(a: int, b: int)
    requires
        0 <= a < 100,
        0 <= b < 100,
        two_digits(a)[0] == two_digits(b)[0],
        two_digits(a)[1] == two_digits(b)[1],
    ensures
        a == b,
{
}

proof fn lemma_month_folder(month: int)
    requires
        1 <= month <= 12,
    ensures
        is_plain(month_folder(month)),
{
    reveal_strlit("January");
    reveal_strlit("February");
    reveal_strlit("March");
    reveal_strlit("April");
    reveal_strlit("May");
    reveal_strlit("June");
    reveal_strlit("July");
    reveal_strlit("August");
    reveal_strlit("September");
    reveal_strlit("October");
    reveal_strlit("November");
    reveal_strlit("December");
    lemma_two_digits(month);
    let name = month_name(month);
    let t = month_folder(month);
    assert(name.len() <= 9);
    assert forall|i: int| 0 <= i < name.len() implies is_plain_char(#[trigger] name[i]) by {}
    assert forall|i: int| 0 <= i < t.len() implies is_plain_char(#[trigger] t[i]) by {
        if i >= 3 {
            assert(t[i] == name[i - 3]);
        }
    }
}

proof fn lemma_week_folder(d: Ymd)
    requires
        exists_day(d),
    ensures
        is_plain(week_folder(d)),
        is_plain(signed_decimal(iso_year(d)) + seq!['-'] + week_folder(d)),
{
    iso_weeks_run_from_monday_to_sunday(d, d);
    lemma_two_digits(iso_week_number(d));
    lemma_year_text(iso_year(d));
    let y = signed_decimal(iso_year(d));
    let w = week_folder(d);
    let t = y + seq!['-'] + w;
    assert forall|i: int| 0 <= i < t.len() implies is_plain_char(#[trigger] t[i]) by {
        if i < y.len() {
            assert(t[i] == y[i]);
        } else if i > y.len() {
            assert(t[i] == w[i - y.len() - 1]);
        }
    }
    assert(t[0] == y[0]);
}

proof fn lemma_text_push(seg: Seq<Token>, t: Token, s: Subject)
    ensures
        segment_text(seg.push(t), s) == segment_text(seg, s) + token_text(t, s),
{
    assert(seg.push(t).drop_last() =~= seg);
}

proof fn lemma_text_one(t: Token, s: Subject)
    ensures
        segment_text(seq![t], s) == token_text(t, s),
{
    lemma_text_push(seq![], t, s);
    assert(Seq::<Token>::empty().push(t) =~= seq![t]);
    assert(Seq::<char>::empty() + token_text(t, s) =~= token_text(t, s));
}

/// The texts of the path components, for a photo with a date.
spec fn texts(segs: Seq<Seq<Token>>, s: Subject) -> Seq<Seq<char>> {
    segs.map_values(|seg: Seq<Token>| segment_text(seg, s))
}

proof fn lemma_year_texts(s: Subject, d: Ymd)
    requires
        s.date == Some(d),
    ensures
        texts(year_parts(), s) == seq![signed_decimal(d.year)],
{
    lemma_text_one(field(Var::Year, 0), s);
    assert(texts(year_parts(), s) =~= seq![signed_decimal(d.year)]);
}

proof fn lemma_month_texts(s: Subject, d: Ymd)
    requires
        s.date == Some(d),
        exists_day(d),
    ensures
        texts(month_parts(), s) == seq![signed_decimal(d.year), month_folder(d.month)],
{
    let (a, b, c) = (field(Var::Month, 2), Token::Char('-'), field(Var::MonthName, 0));
    lemma_text_one(field(Var::Year, 0), s);
    lemma_text_one(a, s);
    lemma_text_push(seq![a], b, s);
    lemma_text_push(seq![a].push(b), c, s);
    assert(seq![a].push(b).push(c) =~= month_parts()[1]);
    lemma_two_digits(d.month);
    assert(texts(month_parts(), s) =~= seq![signed_decimal(d.year), month_folder(d.month)]);
}

proof fn lemma_day_texts(s: Subject, d: Ymd)
    requires
        s.date == Some(d),
        exists_day(d),
    ensures
        texts(day_parts(), s) == seq![
            signed_decimal(d.year),
            two_digits(d.month),
            two_digits(d.day),
        ],
{
    lemma_text_one(field(Var::Year, 0), s);
    lemma_text_one(field(Var::Month, 2), s);
    lemma_text_one(field(Var::Day, 2), s);
    lemma_two_digits(d.month);
    lemma_two_digits(d.day);
    assert(texts(day_parts(), s) =~= seq![
        signed_decimal(d.year),
        two_digits(d.month),
        two_digits(d.day),
    ]);
}

proof fn lemma_week_texts(s: Subject, d: Ymd)
    requires
        s.date == Some(d),
        exists_day(d),
    ensures
        texts(week_parts(), s) == seq![
            signed_decimal(iso_year(d)),
            signed_decimal(iso_year(d)) + seq!['-'] + week_folder(d),
        ],
{
    iso_weeks_run_from_monday_to_sunday(d, d);
    let (y, a, b, w) = (
        field(Var::IsoYear, 0),
        Token::Char('-'),
        Token::Char('W'),
        field(Var::IsoWeek, 2),
    );
    lemma_text_one(y, s);
    lemma_text_push(seq![y], a, s);
    lemma_text_push(seq![y].push(a), b, s);
    lemma_text_push(seq![y].push(a).push(b), w, s);
    assert(seq![y].push(a).push(b).push(w) =~= week_parts()[1]);
    lemma_two_digits(iso_week_number(d));
    let year = signed_decimal(iso_year(d));
    assert(segment_text(week_parts()[1], s) =~= year + seq!['-'] + week_folder(d));
    assert(texts(week_parts(), s) =~= seq![year, year + seq!['-'] + week_folder(d)]);
}

proof fn lemma_week_of_month_texts(s: Subject, d: Ymd)
    requires
        s.date == Some(d),
        exists_day(d),
    ensures
        texts(week_of_month_parts(), s) == seq![
            signed_decimal(d.year),
            month_folder(d.month),
            week_folder(d),
        ],
{
    iso_weeks_run_from_monday_to_sunday(d, d);
    lemma_month_texts(s, d);
    let (b, w) = (Token::Char('W'), field(Var::IsoWeek, 2));
    lemma_text_one(b, s);
    lemma_text_push(seq![b], w, s);
    assert(seq![b].push(w) =~= week_of_month_parts()[2]);
    lemma_two_digits(iso_week_number(d));
    let all = texts(week_of_month_parts(), s);
    let months = texts(month_parts(), s);
    assert(all[0] == months[0] && all[1] == months[1]);
    assert(all =~= seq![signed_decimal(d.year), month_folder(d.month), week_folder(d)]);
}

proof fn lemma_rendered_dates(segs: Seq<Seq<Token>>, s: Subject)
    requires
        s.date is Some,
        forall|k: int| 0 <= k < segs.len() ==> !mentions(#[trigger] segs[k], Class::Location),
    ensures
        parts_of(segs, s) == (texts(segs, s).map_values(|t: Seq<char>| folder_name(t)), false),
    decreases segs.len(),
{
    if segs.len() > 0 {
        let rest = segs.drop_last();
        assert forall|k: int| 0 <= k < rest.len() implies !mentions(
            #[trigger] rest[k],
            Class::Location,
        ) by {
            assert(rest[k] == segs[k]);
        }
        lemma_rendered_dates(rest, s);
        assert(!mentions(segs[segs.len() - 1], Class::Location));
    }
    assert(parts_of(segs, s).0 =~= texts(segs, s).map_values(|t: Seq<char>| folder_name(t)));
}

proof fn lemma_placeless_parts(level: Level, group: Granularity)
    ensures
        forall|k: int|
            0 <= k < group_parts(group).len() ==> !mentions(
                #[trigger] group_parts(group)[k],
                Class::Location,
            ),
        forall|k: int|
            0 <= k < level_parts(level).len() ==> !mentions(
                #[trigger] level_parts(level)[k],
                Class::Location,
            ),
{
}

/// The folders of the places that are known, from the country down to the depth.
pub open spec fn place_folders(depth: Option<LocationDepth>, place: Option<Place>) -> Seq<Seq<char>> {
    match (depth, place) {
        (Some(depth), Some(place)) => {
            let country = folder_if_known(place.country);
            let region = folder_if_known(place.region);
            let city = folder_if_known(place.city);
            match depth {
                LocationDepth::Country => country,
                LocationDepth::Region => country + region,
                LocationDepth::City => country + region + city,
            }
        },
        _ => seq![],
    }
}

pub open spec fn folder_if_known(name: Option<Seq<char>>) -> Seq<Seq<char>> {
    match name {
        Some(t) => seq![folder_name(t)],
        None => seq![],
    }
}

proof fn lemma_place_push(segs: Seq<Seq<Token>>, var: Var, s: Subject)
    requires
        class_of(var) == Class::Location,
    ensures
        parts_of(segs.push(seq![field(var, 0)]), s) == (
            parts_of(segs, s).0 + folder_if_known(place_value(s.location, var)),
            parts_of(segs, s).1,
        ),
{
    let seg = seq![field(var, 0)];
    let all = segs.push(seg);
    assert(all.drop_last() =~= segs);
    assert(all.last() == seg);
    assert(seg[0] == field(var, 0));
    assert(mentions(seg, Class::Location));
    assert(!mentions(seg, Class::Date));
    lemma_text_one(field(var, 0), s);
    assert(is_placeless(seg, s) == (var_value(var, s) is None)) by {
        if var_value(var, s) is Some {
            assert(!(seg[0] matches Token::Field { var: v, .. } ==> class_of(v) == Class::Location
                && var_value(v, s) is None));
        }
    }
    assert(parts_of(all, s).0 =~= parts_of(segs, s).0 + folder_if_known(
        place_value(s.location, var),
    ));
}

proof fn lemma_rendered(segs: Seq<Seq<Token>>, depth: Option<LocationDepth>, s: Subject)
    requires
        s.date is Some,
        segs.len() > 0,
        forall|k: int| 0 <= k < segs.len() ==> !mentions(#[trigger] segs[k], Class::Location),
    ensures
        rendered(segs + place_parts(depth), s) == texts(segs, s).map_values(
            |t: Seq<char>| folder_name(t),
        ) + place_folders(depth, s.location),
{
    lemma_rendered_dates(segs, s);
    let dates = parts_of(segs, s).0;
    let a = segs.push(seq![field(Var::Country, 0)]);
    let b = a.push(seq![field(Var::Region, 0)]);
    let c = b.push(seq![field(Var::City, 0)]);
    lemma_place_push(segs, Var::Country, s);
    lemma_place_push(a, Var::Region, s);
    lemma_place_push(b, Var::City, s);
    match depth {
        None => assert(segs + place_parts(depth) =~= segs),
        Some(LocationDepth::Country) => assert(segs + place_parts(depth) =~= a),
        Some(LocationDepth::Region) => assert(segs + place_parts(depth) =~= b),
        Some(LocationDepth::City) => assert(segs + place_parts(depth) =~= c),
    }
    assert(parts_of(segs + place_parts(depth), s).0 =~= dates + place_folders(depth, s.location));
}

/// In the layout of a preset, a photo with a date goes to the folders of the date, and
/// inside them to those of its place, as far as the place is known and asked for.
pub proof fn presets_render_to_dates_and_places(
    opts: Options,
    group: Granularity,
    s: Subject,
    d: Ymd,
)
    requires
        opts.template is None,
        s.date == Some(d),
        exists_day(d),
    ensures
        parsed(opts.expansion(group.preset())) matches Ok(segs) && rendered(segs, s)
            == date_folders(group, d).map_values(|t: Seq<char>| folder_name(t)) + place_folders(
            opts.location,
            s.location,
        ),
{
    presets_have_their_parts(opts, group);
    lemma_placeless_parts(Level::Year, group);
    lemma_rendered(group_parts(group), opts.location, s);
    match group {
        Granularity::Year => lemma_year_texts(s, d),
        Granularity::Month | Granularity::Adaptive => lemma_month_texts(s, d),
        Granularity::Week => lemma_week_texts(s, d),
        Granularity::Day => lemma_day_texts(s, d),
    }
}

/// At a level of an adaptive layout, a photo with a date goes to the folders of the date,
/// and inside them to those of its place, as far as the place is known and asked for.
pub proof fn levels_render_to_dates_and_places(opts: Options, level: Level, s: Subject, d: Ymd)
    requires
        opts.template is None,
        s.date == Some(d),
        exists_day(d),
    ensures
        parsed(opts.expansion(level.preset())) matches Ok(segs) && rendered(segs, s)
            == level_folders(level, d).map_values(|t: Seq<char>| folder_name(t)) + place_folders(
            opts.location,
            s.location,
        ),
{
    levels_have_their_parts(opts, level);
    lemma_placeless_parts(level, Granularity::Year);
    lemma_rendered(level_parts(level), opts.location, s);
    match level {
        Level::Year => lemma_year_texts(s, d),
        Level::Month => lemma_month_texts(s, d),
        Level::Week => lemma_week_of_month_texts(s, d),
    }
}

proof fn lemma_date_folders(group: Granularity, level: Level, d: Ymd)
    requires
        exists_day(d),
        ascii_is_normal(),
    ensures
        date_folders(group, d).map_values(|t: Seq<char>| folder_name(t)) == date_folders(group, d),
        level_folders(level, d).map_values(|t: Seq<char>| folder_name(t)) == level_folders(
            level,
            d,
        ),
{
    iso_weeks_run_from_monday_to_sunday(d, d);
    lemma_year_text(d.year);
    lemma_plain(signed_decimal(d.year));
    lemma_year_text(iso_year(d));
    lemma_plain(signed_decimal(iso_year(d)));
    lemma_month_folder(d.month);
    lemma_plain(month_folder(d.month));
    lemma_week_folder(d);
    lemma_plain(week_folder(d));
    lemma_plain(signed_decimal(iso_year(d)) + seq!['-'] + week_folder(d));
    lemma_two_digits(d.month);
    lemma_plain(two_digits(d.month));
    lemma_two_digits(d.day);
    lemma_plain(two_digits(d.day));
    assert(date_folders(group, d).map_values(|t: Seq<char>| folder_name(t)) =~= date_folders(
        group,
        d,
    ));
    assert(level_folders(level, d).map_values(|t: Seq<char>| folder_name(t)) =~= level_folders(
        level,
        d,
    ));
}

proof fn lemma_month_folders_differ(a: int, b: int)
    requires
        1 <= a <= 12,
        1 <= b <= 12,
        month_folder(a) == month_folder(b),
    ensures
        a == b,
{
    assert(month_folder(a)[0] == two_digits(a)[0] && month_folder(a)[1] == two_digits(a)[1]);
    assert(month_folder(b)[0] == two_digits(b)[0] && month_folder(b)[1] == two_digits(b)[1]);
    lemma_two_digits_differ(a, b);
}

proof fn lemma_week_folders_differ(a: Ymd, b: Ymd)
    requires
        exists_day(a),
        exists_day(b),
        week_folder(a) == week_folder(b),
    ensures
        iso_week_number(a) == iso_week_number(b),
{
    iso_weeks_run_from_monday_to_sunday(a, b);
    iso_weeks_run_from_monday_to_sunday(b, a);
    let (x, y) = (iso_week_number(a), iso_week_number(b));
    assert(week_folder(a)[1] == two_digits(x)[0] && week_folder(a)[2] == two_digits(x)[1]);
    assert(week_folder(b)[1] == two_digits(y)[0] && week_folder(b)[2] == two_digits(y)[1]);
    lemma_two_digits_differ(x, y);
}

/// Whether two days fall into one period of a preset: one year, one month of a year, one
/// week from Monday to Sunday, or one day.
pub open spec fn in_one_period(group: Granularity, a: Ymd, b: Ymd) -> bool {
    match group {
        Granularity::Year => a.year == b.year,
        Granularity::Month | Granularity::Adaptive => a.year == b.year && a.month == b.month,
        Granularity::Week => (day_number(a) - 1) / 7 == (day_number(b) - 1) / 7,
        Granularity::Day => a.year == b.year && a.month == b.month && a.day == b.day,
    }
}

/// Whether two days fall into one period of a level of an adaptive layout; a week ends
/// with its month.
pub open spec fn in_one_level(level: Level, a: Ymd, b: Ymd) -> bool {
    match level {
        Level::Year => a.year == b.year,
        Level::Month => a.year == b.year && a.month == b.month,
        Level::Week => a.year == b.year && a.month == b.month && (day_number(a) - 1) / 7 == (
        day_number(b) - 1) / 7,
    }
}

proof fn lemma_folders_differ(group: Granularity, a: Ymd, b: Ymd)
    requires
        exists_day(a),
        exists_day(b),
    ensures
        date_folders(group, a) == date_folders(group, b) <==> in_one_period(group, a, b),
{
    iso_weeks_run_from_monday_to_sunday(a, b);
    let (x, y) = (date_folders(group, a), date_folders(group, b));
    if x == y {
        assert(x[0] == y[0]);
        match group {
            Granularity::Year => lemma_years_differ(a.year, b.year),
            Granularity::Month | Granularity::Adaptive => {
                lemma_years_differ(a.year, b.year);
                assert(x[1] == y[1]);
                lemma_month_folders_differ(a.month, b.month);
            },
            Granularity::Week => {
                lemma_years_differ(iso_year(a), iso_year(b));
                let year = signed_decimal(iso_year(a)) + seq!['-'];
                assert(x[1].skip(year.len() as int) =~= week_folder(a));
                assert(y[1].skip(year.len() as int) =~= week_folder(b));
                assert(x[1] == y[1]);
                lemma_week_folders_differ(a, b);
            },
            Granularity::Day => {
                lemma_years_differ(a.year, b.year);
                assert(x[1] == y[1]);
                assert(x[2] == y[2]);
                lemma_two_digits_differ(a.month, b.month);
                lemma_two_digits_differ(a.day, b.day);
            },
        }
    }
}

proof fn lemma_levels_differ(level: Level, a: Ymd, b: Ymd)
    requires
        exists_day(a),
        exists_day(b),
    ensures
        level_folders(level, a) == level_folders(level, b) <==> in_one_level(level, a, b),
{
    iso_weeks_run_from_monday_to_sunday(a, b);
    let (x, y) = (level_folders(level, a), level_folders(level, b));
    if x == y {
        assert(x[0] == y[0]);
        lemma_years_differ(a.year, b.year);
        if !(level is Year) {
            assert(x[1] == y[1]);
            lemma_month_folders_differ(a.month, b.month);
        }
        if level is Week {
            assert(x[2] == y[2]);
            lemma_week_folders_differ(a, b);
            weeks_of_a_month_go_by_their_numbers(a, b);
        }
    }
}

/// Without an explicit template and without places, two photos go to one directory
/// exactly if they were taken in one period of the preset: one year, one month, one week
/// or one day.
pub proof fn presets_tell_periods_apart(
    opts: Options,
    group: Granularity,
    s: Subject,
    t: Subject,
    a: Ymd,
    b: Ymd,
)
    requires
        opts.template is None,
        opts.location is None,
        s.date == Some(a),
        t.date == Some(b),
        exists_day(a),
        exists_day(b),
        ascii_is_normal(),
    ensures
        parsed(opts.expansion(group.preset())) matches Ok(segs) && (joined(rendered(segs, s))
            == joined(rendered(segs, t)) <==> in_one_period(group, a, b)),
{
    presets_render_to_dates_and_places(opts, group, s, a);
    presets_render_to_dates_and_places(opts, group, t, b);
    lemma_date_folders(group, Level::Year, a);
    lemma_date_folders(group, Level::Year, b);
    lemma_folders_differ(group, a, b);
    let segs = parsed(opts.expansion(group.preset()))->Ok_0;
    assert(rendered(segs, s) =~= date_folders(group, a));
    assert(rendered(segs, t) =~= date_folders(group, b));
    rendered_path_splits(segs, s);
    rendered_path_splits(segs, t);
}

/// Without an explicit template and without places, two photos of one level of an
/// adaptive layout go to one directory exactly if they were taken in one period of it.
pub proof fn levels_tell_periods_apart(
    opts: Options,
    level: Level,
    s: Subject,
    t: Subject,
    a: Ymd,
    b: Ymd,
)
    requires
        opts.template is None,
        opts.location is None,
        s.date == Some(a),
        t.date == Some(b),
        exists_day(a),
        exists_day(b),
        ascii_is_normal(),
    ensures
        parsed(opts.expansion(level.preset())) matches Ok(segs) && (joined(rendered(segs, s))
            == joined(rendered(segs, t)) <==> in_one_level(level, a, b)),
{
    levels_render_to_dates_and_places(opts, level, s, a);
    levels_render_to_dates_and_places(opts, level, t, b);
    lemma_date_folders(Granularity::Year, level, a);
    lemma_date_folders(Granularity::Year, level, b);
    lemma_levels_differ(level, a, b);
    let segs = parsed(opts.expansion(level.preset()))->Ok_0;
    assert(rendered(segs, s) =~= level_folders(level, a));
    assert(rendered(segs, t) =~= level_folders(level, b));
    rendered_path_splits(segs, s);
    rendered_path_splits(segs, t);
}

/// Two photos of one period that have the same place, or none, go to one directory, with
/// or without places in the layout and however texts are normalized.
pub proof fn photos_of_one_period_and_place_stay_together(
    opts: Options,
    group: Granularity,
    s: Subject,
    t: Subject,
    a: Ymd,
    b: Ymd,
)
    requires
        opts.template is None,
        s.date == Some(a),
        t.date == Some(b),
        exists_day(a),
        exists_day(b),
        in_one_period(group, a, b),
        s.location == t.location,
    ensures
        parsed(opts.expansion(group.preset())) matches Ok(segs) && rendered(segs, s) == rendered(
            segs,
            t,
        ),
{
    presets_render_to_dates_and_places(opts, group, s, a);
    presets_render_to_dates_and_places(opts, group, t, b);
    lemma_folders_differ(group, a, b);
}

/// In a plan with one of the fixed presets and without places, the groups of two photos
/// go to one directory exactly if the photos that they take their dates from were taken
/// in one period of the preset.
pub proof fn plans_tell_periods_apart(w: World, job: Job, g: int, h: int, a: Ymd, b: Ymd)
    requires
        job.opts.template is None,
        job.opts.location is None,
        !(job.opts.group is Adaptive),
        subject_for(w, job, g).date == Some(a),
        subject_for(w, job, h).date == Some(b),
        exists_day(a),
        exists_day(b),
        ascii_is_normal(),
    ensures
        dir_for(w, job, g) == dir_for(w, job, h) <==> in_one_period(job.opts.group, a, b),
{
    presets_tell_periods_apart(
        job.opts,
        job.opts.group,
        subject_for(w, job, g),
        subject_for(w, job, h),
        a,
        b,
    );
}

} // verus!
