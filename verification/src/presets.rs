//! What holds of the built-in templates: all of them parse, and they name places
//! exactly where places are asked for.

use crate::adaptive::Level;
use crate::config::{Granularity, LocationDepth, Options};
use crate::error::Flaw;
use crate::plan::{is_adaptive, names_places, template_text, templates_flaw};
use crate::template::{
    class_of, closed_off, field_of, grouped, is_parent, literal_of, marks_from, mentions, numeric,
    pad_width, parsed, prefixed, segments_of, var_named, Class, Mark, Token, Var,
};
use crate::text::{
    all_digits, digits_value, find_any, is_white, lemma_find_any, lemma_find_any_is, starts_with,
    trim, trim_end, trim_start,
};
use vstd::prelude::*;

verus! {

spec fn is_place(m: Mark) -> bool {
    m matches Mark::Part(Token::Field { var, .. }) && class_of(var) == Class::Location
}

spec fn has_place(marks: Seq<Mark>) -> bool {
    exists|k: int| 0 <= k < marks.len() && is_place(#[trigger] marks[k])
}

/// Whether a text is a part of a template that has no dots; `places` tells whether it
/// names any.
#[verifier::opaque]
spec fn is_sound(s: Seq<char>, places: bool) -> bool {
    &&& marks_from(s, 0) matches Ok(marks)
    &&& forall|k: int| 0 <= k < marks.len() ==> #[trigger] marks[k] != Mark::Part(Token::Char('.'))
    &&& places == has_place(marks)
}

/// Whether a text is a part of a template with these marks.
#[verifier::opaque]
spec fn reads(s: Seq<char>, marks: Seq<Mark>) -> bool {
    marks_from(s, 0) == Ok::<Seq<Mark>, Flaw>(marks)
}

spec fn plainly(var: Var) -> Mark {
    Mark::Part(Token::Field { var, pad: 0 })
}

spec fn in_two_digits(var: Var) -> Mark {
    Mark::Part(Token::Field { var, pad: 2 })
}

proof fn lemma_shift(a: Seq<char>, b: Seq<char>, j: int)
    requires
        0 <= j <= b.len(),
        marks_from(b, j) is Ok,
    ensures
        marks_from(a + b, a.len() + j) == marks_from(b, j),
    decreases b.len() - j,
{
    let s = a + b;
    let n = a.len() as int;
    if j < b.len() {
        assert(s[n + j] == b[j]);
        if b[j] == '{' {
            let close = seq!['}'];
            let end = find_any(b, close, j);
            lemma_find_any(b, close, j);
            assert forall|i: int| n + j <= i < n + end implies !close.contains(#[trigger] s[i]) by {
                assert(s[i] == b[i - n]);
            }
            assert(s[n + end] == b[end]);
            lemma_find_any_is(s, close, n + j, n + end);
            assert(s.subrange(n + j + 1, n + end) =~= b.subrange(j + 1, end));
            lemma_shift(a, b, end + 1);
        } else {
            lemma_shift(a, b, j + 1);
        }
    }
}

/// The mark at a place of a template, and where the next one is.
spec fn mark_at(s: Seq<char>, i: int) -> (Mark, int) {
    if s[i] == '{' {
        let end = find_any(s, seq!['}'], i);
        (Mark::Part(field_of(s.subrange(i + 1, end))->Ok_0), end + 1)
    } else if s[i] == '/' || s[i] == '\\' {
        (Mark::Slash, i + 1)
    } else {
        (Mark::Part(Token::Char(s[i])), i + 1)
    }
}

proof fn lemma_mark_at(s: Seq<char>, i: int)
    requires
        0 <= i < s.len(),
        marks_from(s, i) is Ok,
    ensures
        marks_from(s, i) == prefixed(seq![mark_at(s, i).0], marks_from(s, mark_at(s, i).1)),
        marks_from(s, mark_at(s, i).1) is Ok,
        i < mark_at(s, i).1 <= s.len(),
{
}

proof fn lemma_prefixes(a: Seq<Mark>, b: Seq<Mark>, c: Seq<Mark>)
    ensures
        prefixed(a, prefixed(b, Ok(c))) == prefixed(a + b, Ok(c)),
{
    assert(a + (b + c) =~= a + b + c);
}

proof fn lemma_marks_concat(a: Seq<char>, b: Seq<char>, i: int)
    requires
        0 <= i <= a.len(),
        marks_from(a, i) is Ok,
        marks_from(b, 0) is Ok,
    ensures
        marks_from(a + b, i) == prefixed(marks_from(a, i)->Ok_0, marks_from(b, 0)),
    decreases a.len() - i,
{
    let s = a + b;
    let tail = marks_from(b, 0)->Ok_0;
    if i == a.len() {
        lemma_shift(a, b, 0);
        assert(Seq::<Mark>::empty() + tail =~= tail);
    } else {
        lemma_mark_at(a, i);
        let (first, next) = mark_at(a, i);
        assert(s[i] == a[i]);
        if a[i] == '{' {
            let close = seq!['}'];
            let end = find_any(a, close, i);
            lemma_find_any(a, close, i);
            assert forall|k: int| i <= k < end implies !close.contains(#[trigger] s[k]) by {
                assert(s[k] == a[k]);
            }
            assert(s[end] == a[end]);
            lemma_find_any_is(s, close, i, end);
            assert(s.subrange(i + 1, end) =~= a.subrange(i + 1, end));
        }
        lemma_marks_concat(a, b, next);
        assert(marks_from(s, i) is Ok);
        lemma_mark_at(s, i);
        assert(mark_at(s, i) == mark_at(a, i));
        lemma_prefixes(seq![first], marks_from(a, next)->Ok_0, tail);
    }
}

proof fn lemma_concat(a: Seq<char>, p: bool, b: Seq<char>, q: bool)
    requires
        is_sound(a, p),
        is_sound(b, q),
    ensures
        is_sound(a + b, p || q),
{
    reveal(is_sound);
    lemma_marks_concat(a, b, 0);
    let (x, y) = (marks_from(a, 0)->Ok_0, marks_from(b, 0)->Ok_0);
    let all = x + y;
    if has_place(x) {
        let k = choose|k: int| 0 <= k < x.len() && is_place(#[trigger] x[k]);
        assert(is_place(all[k]));
    }
    if has_place(y) {
        let k = choose|k: int| 0 <= k < y.len() && is_place(#[trigger] y[k]);
        assert(is_place(all[x.len() + k]));
    }
    if has_place(all) {
        let k = choose|k: int| 0 <= k < all.len() && is_place(#[trigger] all[k]);
        if k < x.len() {
            assert(is_place(x[k]));
        } else {
            assert(is_place(y[k - x.len()]));
        }
    }
}

/// A character that stands for itself, or a slash.
proof fn lemma_char(c: char)
    requires
        c == '/' || c == '-' || c == 'W',
    ensures
        is_sound(seq![c], false),
        c == '/' ==> reads(seq![c], seq![Mark::Slash]),
        c != '/' ==> reads(seq![c], seq![Mark::Part(Token::Char(c))]),
{
    reveal(is_sound);
    reveal(reads);
    let s = seq![c];
    reveal_with_fuel(marks_from, 2);
    let m = if c == '/' {
        Mark::Slash
    } else {
        Mark::Part(Token::Char(c))
    };
    assert(seq![m] + Seq::<Mark>::empty() =~= seq![m]);
    assert(marks_from(s, 0) == Ok::<Seq<Mark>, Flaw>(seq![m]));
}

spec fn braced(body: Seq<char>) -> Seq<char> {
    seq!['{'] + body + seq!['}']
}

proof fn lemma_braced(body: Seq<char>, var: Var, pad: usize)
    requires
        field_of(body) == Ok::<Token, Flaw>(Token::Field { var, pad }),
        !body.contains('}'),
    ensures
        is_sound(braced(body), class_of(var) == Class::Location),
        reads(braced(body), seq![Mark::Part(Token::Field { var, pad })]),
{
    reveal(is_sound);
    reveal(reads);
    let s = braced(body);
    let close = seq!['}'];
    let end = body.len() as int + 1;
    assert forall|i: int| 0 <= i < end implies !close.contains(#[trigger] s[i]) by {
        if i > 0 {
            assert(s[i] == body[i - 1]);
        }
    }
    assert(close[0] == s[end]);
    lemma_find_any_is(s, close, 0, end);
    assert(s.subrange(1, end) =~= body);
    let m = Mark::Part(Token::Field { var, pad });
    assert(marks_from(s, end + 1) == Ok::<Seq<Mark>, Flaw>(seq![]));
    assert(seq![m] + Seq::<Mark>::empty() =~= seq![m]);
    let marks = marks_from(s, 0)->Ok_0;
    assert(marks == seq![m]);
    assert(is_place(marks[0]) == (class_of(var) == Class::Location));
}

proof fn lemma_plain(name: Seq<char>, var: Var)
    requires
        var_named(name) == Some(var),
        trim(name) == name,
        !name.contains(':'),
        !name.contains('}'),
    ensures
        is_sound(braced(name), class_of(var) == Class::Location),
        reads(braced(name), seq![Mark::Part(Token::Field { var, pad: 0 })]),
{
    assert forall|i: int| 0 <= i < name.len() implies !seq![':'].contains(#[trigger] name[i]) by {
        assert(name.contains(name[i]));
    }
    lemma_find_any_is(name, seq![':'], 0, name.len() as int);
    assert(name.take(name.len() as int) =~= name);
    lemma_braced(name, var, 0);
}

proof fn lemma_padded(name: Seq<char>, var: Var)
    requires
        var_named(name) == Some(var),
        numeric(var),
        trim(name) == name,
        !name.contains(':'),
        !name.contains('}'),
    ensures
        is_sound(braced(name + seq![':', '0', '2']), class_of(var) == Class::Location),
        reads(
            braced(name + seq![':', '0', '2']),
            seq![Mark::Part(Token::Field { var, pad: 2 })],
        ),
{
    let body = name + seq![':', '0', '2'];
    let n = name.len() as int;
    assert forall|i: int| 0 <= i < n implies !seq![':'].contains(#[trigger] body[i]) by {
        assert(name.contains(name[i]));
    }
    assert(body[n] == seq![':'][0]);
    lemma_find_any_is(body, seq![':'], 0, n);
    assert(body.take(n) =~= name);
    let spec_text = body.skip(n + 1);
    assert(spec_text =~= seq!['0', '2']);
    let digits = spec_text.skip(1);
    assert(digits =~= seq!['2']);
    assert(digits.drop_last() =~= Seq::<char>::empty());
    assert(all_digits(digits));
    reveal_with_fuel(digits_value, 2);
    assert(digits_value(digits) == 2);
    assert(pad_width(spec_text) == Some(2nat));
    assert forall|i: int| 0 <= i < body.len() implies body[i] != '}' by {
        if i < n {
            assert(name.contains(name[i]));
        }
    }
    lemma_braced(body, var, 2);
}

/// The names of the variables that the presets use.
proof fn lemma_variables()
    ensures
        is_sound(braced("year"@), false),
        is_sound(braced("month"@ + seq![':', '0', '2']), false),
        is_sound(braced("month_name"@), false),
        is_sound(braced("day"@ + seq![':', '0', '2']), false),
        is_sound(braced("iso_year"@), false),
        is_sound(braced("iso_week"@ + seq![':', '0', '2']), false),
        is_sound(braced("country"@), true),
        is_sound(braced("region"@), true),
        is_sound(braced("city"@), true),
        reads(braced("year"@), seq![plainly(Var::Year)]),
        reads(braced("month"@ + seq![':', '0', '2']), seq![in_two_digits(Var::Month)]),
        reads(braced("month_name"@), seq![plainly(Var::MonthName)]),
        reads(braced("day"@ + seq![':', '0', '2']), seq![in_two_digits(Var::Day)]),
        reads(braced("iso_year"@), seq![plainly(Var::IsoYear)]),
        reads(braced("iso_week"@ + seq![':', '0', '2']), seq![in_two_digits(Var::IsoWeek)]),
        reads(braced("country"@), seq![plainly(Var::Country)]),
        reads(braced("region"@), seq![plainly(Var::Region)]),
        reads(braced("city"@), seq![plainly(Var::City)]),
{
    reveal_strlit("year");
    reveal_strlit("month");
    reveal_strlit("month_name");
    reveal_strlit("day");
    reveal_strlit("iso_year");
    reveal_strlit("iso_week");
    reveal_strlit("country");
    reveal_strlit("region");
    reveal_strlit("city");
    lemma_plain("year"@, Var::Year);
    lemma_padded("month"@, Var::Month);
    lemma_plain("month_name"@, Var::MonthName);
    lemma_padded("day"@, Var::Day);
    lemma_plain("iso_year"@, Var::IsoYear);
    assert("iso_week"@[4] != "iso_year"@[4]);
    lemma_padded("iso_week"@, Var::IsoWeek);
    lemma_plain("country"@, Var::Country);
    lemma_plain("region"@, Var::Region);
    assert("city"@[0] != "year"@[0]);
    lemma_plain("city"@, Var::City);
}

/// A text starts like a relative path whose first name is a variable.
spec fn starts_with_variable(s: Seq<char>) -> bool {
    s.len() > 1 && s[0] == '{' && s[1] != ':'
}

spec fn padded(name: Seq<char>) -> Seq<char> {
    braced(name + seq![':', '0', '2'])
}

proof fn lemma_year()
    ensures
        is_sound("{year}"@, false),
        starts_with_variable("{year}"@),
{
    lemma_variables();
    reveal_strlit("year");
    reveal_strlit("{year}");
    assert("{year}"@ =~= braced("year"@));
}

proof fn lemma_month()
    ensures
        is_sound("{year}/{month:02}"@, false),
        is_sound("{year}/{month:02}-{month_name}"@, false),
        starts_with_variable("{year}/{month:02}-{month_name}"@),
{
    lemma_variables();
    lemma_char('/');
    lemma_char('-');
    let (year, month, name) = (braced("year"@), padded("month"@), braced("month_name"@));
    lemma_concat(year, false, seq!['/'], false);
    lemma_concat(year + seq!['/'], false, month, false);
    let a = year + seq!['/'] + month;
    lemma_concat(a, false, seq!['-'], false);
    lemma_concat(a + seq!['-'], false, name, false);
    reveal_strlit("year");
    reveal_strlit("month");
    reveal_strlit("month_name");
    reveal_strlit("{year}/{month:02}");
    reveal_strlit("{year}/{month:02}-{month_name}");
    assert("{year}/{month:02}"@ =~= a);
    assert("{year}/{month:02}-{month_name}"@ =~= a + seq!['-'] + name);
}

proof fn lemma_day()
    ensures
        is_sound("{year}/{month:02}/{day:02}"@, false),
        starts_with_variable("{year}/{month:02}/{day:02}"@),
{
    lemma_variables();
    lemma_char('/');
    lemma_month();
    let (base, day) = ("{year}/{month:02}"@, padded("day"@));
    lemma_concat(base, false, seq!['/'], false);
    lemma_concat(base + seq!['/'], false, day, false);
    reveal_strlit("day");
    reveal_strlit("{year}/{month:02}");
    reveal_strlit("{year}/{month:02}/{day:02}");
    assert("{year}/{month:02}/{day:02}"@ =~= base + seq!['/'] + day);
}

proof fn lemma_week_of_month()
    ensures
        is_sound("{year}/{month:02}-{month_name}/W{iso_week:02}"@, false),
        starts_with_variable("{year}/{month:02}-{month_name}/W{iso_week:02}"@),
{
    lemma_variables();
    lemma_char('/');
    lemma_char('W');
    lemma_month();
    let (base, week) = ("{year}/{month:02}-{month_name}"@, padded("iso_week"@));
    let a = base + seq!['/'];
    lemma_concat(base, false, seq!['/'], false);
    lemma_concat(a, false, seq!['W'], false);
    lemma_concat(a + seq!['W'], false, week, false);
    reveal_strlit("iso_week");
    reveal_strlit("{year}/{month:02}-{month_name}");
    reveal_strlit("{year}/{month:02}-{month_name}/W{iso_week:02}");
    assert("{year}/{month:02}-{month_name}/W{iso_week:02}"@ =~= a + seq!['W'] + week);
}

proof fn lemma_week()
    ensures
        is_sound("{iso_year}/{iso_year}-W{iso_week:02}"@, false),
        starts_with_variable("{iso_year}/{iso_year}-W{iso_week:02}"@),
{
    lemma_variables();
    lemma_char('/');
    lemma_char('-');
    lemma_char('W');
    let (year, week) = (braced("iso_year"@), padded("iso_week"@));
    let a = year + seq!['/'];
    let b = a + year;
    let c = b + seq!['-'];
    let d = c + seq!['W'];
    lemma_concat(year, false, seq!['/'], false);
    lemma_concat(a, false, year, false);
    lemma_concat(b, false, seq!['-'], false);
    lemma_concat(c, false, seq!['W'], false);
    lemma_concat(d, false, week, false);
    reveal_strlit("iso_year");
    reveal_strlit("iso_week");
    reveal_strlit("{iso_year}/{iso_year}-W{iso_week:02}");
    assert("{iso_year}/{iso_year}-W{iso_week:02}"@ =~= d + week);
}

proof fn lemma_dates()
    ensures
        forall|g: Granularity| is_sound(#[trigger] g.preset(), false) && starts_with_variable(
            g.preset(),
        ),
        forall|l: Level| is_sound(#[trigger] l.preset(), false) && starts_with_variable(l.preset()),
{
    lemma_year();
    lemma_month();
    lemma_day();
    lemma_week();
    lemma_week_of_month();
}

proof fn lemma_places(depth: LocationDepth)
    ensures
        is_sound(depth.suffix(), true),
{
    lemma_variables();
    lemma_char('/');
    reveal_strlit("country");
    reveal_strlit("region");
    reveal_strlit("city");
    reveal_strlit("{country}");
    reveal_strlit("{country}/{region}");
    reveal_strlit("{country}/{region}/{city}");
    let slash = seq!['/'];
    let (country, region, city) = (braced("country"@), braced("region"@), braced("city"@));
    assert("{country}"@ =~= country);
    let a = country + slash;
    lemma_concat(country, true, slash, false);
    let b = a + region;
    lemma_concat(a, true, region, true);
    assert("{country}/{region}"@ =~= b);
    let c = b + slash;
    lemma_concat(b, true, slash, false);
    lemma_concat(c, true, city, true);
    assert("{country}/{region}/{city}"@ =~= c + city);
}

/// Whether a token stands in one of the path components.
spec fn holds_token(done: Seq<Seq<Token>>, token: Token) -> bool {
    exists|k: int| 0 <= k < done.len() && (#[trigger] done[k]).contains(token)
}

proof fn lemma_closed_off(done: Seq<Seq<Token>>, open: Seq<Token>, token: Token)
    ensures
        holds_token(closed_off(done, open), token) == (holds_token(done, token) || open.contains(
            token,
        )),
{
    let all = closed_off(done, open);
    if holds_token(done, token) {
        let k = choose|k: int| 0 <= k < done.len() && (#[trigger] done[k]).contains(token);
        assert(all[k].contains(token));
    }
    if open.contains(token) {
        assert(all[done.len() as int].contains(token));
    }
    if holds_token(all, token) {
        let k = choose|k: int| 0 <= k < all.len() && (#[trigger] all[k]).contains(token);
        if k < done.len() {
            assert(done[k].contains(token));
        }
    }
}

/// The tokens of the path components are those of the marks.
proof fn lemma_tokens(marks: Seq<Mark>, token: Token)
    ensures
        (holds_token(grouped(marks).0, token) || grouped(marks).1.contains(token))
            == marks.contains(Mark::Part(token)),
    decreases marks.len(),
{
    if marks.len() > 0 {
        let rest = marks.drop_last();
        lemma_tokens(rest, token);
        let (done, open) = grouped(rest);
        let part = Mark::Part(token);
        if rest.contains(part) {
            let k = choose|k: int| 0 <= k < rest.len() && rest[k] == part;
            assert(marks[k] == part);
        }
        if marks.contains(part) && marks.last() != part {
            let k = choose|k: int| 0 <= k < marks.len() && marks[k] == part;
            assert(rest[k] == part);
        }
        if marks.last() == part {
            assert(marks[marks.len() - 1] == part);
        }
        match marks.last() {
            Mark::Slash => lemma_closed_off(done, open, token),
            Mark::Part(t) => {
                let now = open.push(t);
                if open.contains(token) {
                    let k = choose|k: int| 0 <= k < open.len() && open[k] == token;
                    assert(now[k] == token);
                }
                if t == token {
                    assert(now[open.len() as int] == token);
                }
                if now.contains(token) && t != token {
                    let k = choose|k: int| 0 <= k < now.len() && now[k] == token;
                    assert(open[k] == token);
                }
            },
        }
    } else {
        assert(!Seq::<Token>::empty().contains(token));
    }
}

proof fn lemma_literal(seg: Seq<Token>, c: char)
    requires
        literal_of(seg).contains(c),
    ensures
        seg.contains(Token::Char(c)),
    decreases seg.len(),
{
    if seg.len() > 0 {
        let rest = seg.drop_last();
        let text = literal_of(seg);
        let k = choose|k: int| 0 <= k < text.len() && text[k] == c;
        if seg.last() == Token::Char(c) {
            assert(seg[seg.len() - 1] == Token::Char(c));
        } else {
            assert(literal_of(rest)[k] == c);
            lemma_literal(rest, c);
            let j = choose|j: int| 0 <= j < rest.len() && rest[j] == Token::Char(c);
            assert(seg[j] == Token::Char(c));
        }
    }
}

proof fn lemma_trim_start(s: Seq<char>, c: char)
    requires
        trim_start(s).contains(c),
    ensures
        s.contains(c),
    decreases s.len(),
{
    if s.len() > 0 && is_white(s[0]) {
        lemma_trim_start(s.drop_first(), c);
        let k = choose|k: int| 0 <= k < s.len() - 1 && s.drop_first()[k] == c;
        assert(s[k + 1] == c);
    }
}

proof fn lemma_trim_end(s: Seq<char>, c: char)
    requires
        trim_end(s).contains(c),
    ensures
        s.contains(c),
    decreases s.len(),
{
    if s.len() > 0 && is_white(s.last()) {
        lemma_trim_end(s.drop_last(), c);
        let k = choose|k: int| 0 <= k < s.len() - 1 && s.drop_last()[k] == c;
        assert(s[k] == c);
    }
}

proof fn lemma_not_blank(s: Seq<char>)
    requires
        s.len() > 0,
        !is_white(s[0]),
    ensures
        trim_end(s).len() > 0,
    decreases s.len(),
{
    if is_white(s.last()) {
        assert(s.len() > 1);
        lemma_not_blank(s.drop_last());
    }
}

proof fn lemma_parses(s: Seq<char>, places: bool)
    requires
        is_sound(s, places),
        starts_with_variable(s),
    ensures
        parsed(s) matches Ok(segs) && names_places(segs) == places,
{
    reveal(is_sound);
    lemma_not_blank(s);
    let marks = marks_from(s, 0)->Ok_0;
    let segs = segments_of(marks);
    let (done, open) = grouped(marks);
    let end = find_any(s, seq!['}'], 0);
    let first = field_of(s.subrange(1, end))->Ok_0;
    assert(marks[0] == Mark::Part(first));
    lemma_tokens(marks, first);
    lemma_closed_off(done, open, first);
    assert(marks.contains(Mark::Part(first)));
    assert(segs.len() > 0);
    assert forall|k: int| 0 <= k < segs.len() implies !is_parent(#[trigger] segs[k]) by {
        if is_parent(segs[k]) {
            let text = literal_of(segs[k]);
            reveal_strlit("..");
            assert(trim(text)[0] == '.');
            lemma_trim_end(trim_start(text), '.');
            lemma_trim_start(text, '.');
            lemma_literal(segs[k], '.');
            let dot = Token::Char('.');
            assert(holds_token(segs, dot));
            lemma_closed_off(done, open, dot);
            lemma_tokens(marks, dot);
            let j = choose|j: int| 0 <= j < marks.len() && marks[j] == Mark::Part(dot);
            assert(marks[j] == Mark::Part(dot));
        }
    }
    if has_place(marks) {
        let k = choose|k: int| 0 <= k < marks.len() && is_place(#[trigger] marks[k]);
        let token = marks[k]->Part_0;
        assert(marks.contains(Mark::Part(token)));
        lemma_tokens(marks, token);
        lemma_closed_off(done, open, token);
        let g = choose|g: int| 0 <= g < segs.len() && (#[trigger] segs[g]).contains(token);
        let i = choose|i: int| 0 <= i < segs[g].len() && segs[g][i] == token;
        assert(segs[g][i] == token);
        assert(mentions(segs[g], Class::Location));
    }
    if names_places(segs) {
        let g = choose|g: int| 0 <= g < segs.len() && mentions(#[trigger] segs[g], Class::Location);
        let seg = segs[g];
        let i = choose|i: int|
            0 <= i < seg.len() && (#[trigger] seg[i] matches Token::Field { var, .. } && class_of(
                var,
            ) == Class::Location);
        let token = seg[i];
        assert(segs[g].contains(token));
        lemma_closed_off(done, open, token);
        lemma_tokens(marks, token);
        let k = choose|k: int| 0 <= k < marks.len() && marks[k] == Mark::Part(token);
        assert(is_place(marks[k]));
    }
}

/// A date template with the place folders of the options inside it.
proof fn lemma_expansion(opts: Options, base: Seq<char>)
    requires
        opts.template is None,
        is_sound(base, false),
        starts_with_variable(base),
    ensures
        parsed(opts.expansion(base)) matches Ok(segs) && names_places(segs) == (
        opts.location is Some),
{
    match opts.location {
        None => lemma_parses(base, false),
        Some(depth) => {
            lemma_places(depth);
            lemma_char('/');
            lemma_concat(base, false, seq!['/'], false);
            lemma_concat(base + seq!['/'], false, depth.suffix(), true);
            lemma_parses(base + seq!['/'] + depth.suffix(), true);
        },
    }
}

/// Every preset parses, and names places exactly where `--location` is given.
pub proof fn presets_parse(opts: Options, group: Granularity)
    requires
        opts.template is None,
    ensures
        parsed(opts.expansion(group.preset())) matches Ok(segs) && names_places(segs) == (
        opts.location is Some),
{
    lemma_dates();
    lemma_expansion(opts, group.preset());
}

/// The template of every level of an adaptive layout parses, and names places exactly
/// where `--location` is given.
pub proof fn levels_parse(opts: Options, level: Level)
    requires
        opts.template is None,
    ensures
        parsed(opts.expansion(level.preset())) matches Ok(segs) && names_places(segs) == (
        opts.location is Some),
{
    lemma_dates();
    lemma_expansion(opts, level.preset());
}

pub open spec fn depth_of(level: Level) -> int {
    match level {
        Level::Year => 0,
        Level::Month => 1,
        Level::Week => 2,
    }
}

/// Each level nests inside the ones above it, so that the tree stays a tree.
pub proof fn levels_nest(above: Level, below: Level)
    requires
        depth_of(above) < depth_of(below),
    ensures
        starts_with(below.preset(), above.preset() + seq!['/']),
{
    reveal_strlit("{year}");
    reveal_strlit("{year}/{month:02}-{month_name}");
    reveal_strlit("{year}/{month:02}-{month_name}/W{iso_week:02}");
    let p = above.preset() + seq!['/'];
    assert(below.preset().take(p.len() as int) =~= p);
}

/// Without an explicit template, no plan is refused for its template.
pub proof fn presets_are_never_refused(opts: Options)
    requires
        opts.template is None,
    ensures
        templates_flaw(opts) is None,
{
    presets_parse(opts, opts.group);
    levels_parse(opts, Level::Year);
    levels_parse(opts, Level::Month);
    levels_parse(opts, Level::Week);
    assert(is_adaptive(opts) || template_text(opts, Level::Week) == template_text(
        opts,
        Level::Year,
    ));
}

proof fn lemma_reads_on(a: Seq<char>, x: Seq<Mark>, b: Seq<char>, y: Seq<Mark>)
    requires
        reads(a, x),
        reads(b, y),
    ensures
        reads(a + b, x + y),
{
    reveal(reads);
    lemma_marks_concat(a, b, 0);
}

spec fn parts(seg: Seq<Token>) -> Seq<Mark> {
    seg.map_values(|t: Token| Mark::Part(t))
}

/// The marks of path components with slashes between them.
spec fn spelled(segs: Seq<Seq<Token>>) -> Seq<Mark>
    decreases segs.len(),
{
    if segs.len() == 0 {
        seq![]
    } else if segs.len() == 1 {
        parts(segs[0])
    } else {
        spelled(segs.drop_last()) + seq![Mark::Slash] + parts(segs.last())
    }
}

proof fn lemma_grouped_parts(marks: Seq<Mark>, seg: Seq<Token>)
    ensures
        grouped(marks + parts(seg)) == (grouped(marks).0, grouped(marks).1 + seg),
    decreases seg.len(),
{
    let all = marks + parts(seg);
    if seg.len() == 0 {
        assert(all =~= marks);
        assert(grouped(marks).1 + seg =~= grouped(marks).1);
    } else {
        let rest = seg.drop_last();
        lemma_grouped_parts(marks, rest);
        assert(all.drop_last() =~= marks + parts(rest));
        assert(all.last() == Mark::Part(seg.last()));
        assert((grouped(marks).1 + rest).push(seg.last()) =~= grouped(marks).1 + seg);
    }
}

proof fn lemma_spelled(segs: Seq<Seq<Token>>)
    requires
        forall|k: int| 0 <= k < segs.len() ==> (#[trigger] segs[k]).len() > 0,
    ensures
        segs.len() > 0 ==> grouped(spelled(segs)) == (segs.drop_last(), segs.last()),
        segments_of(spelled(segs)) == segs,
    decreases segs.len(),
{
    let none = Seq::<Mark>::empty();
    if segs.len() == 1 {
        lemma_grouped_parts(none, segs[0]);
        assert(none + parts(segs[0]) =~= spelled(segs));
        assert(Seq::<Token>::empty() + segs[0] =~= segs[0]);
        assert(segs.drop_last() =~= Seq::<Seq<Token>>::empty());
        assert(segs.last() == segs[0]);
    } else if segs.len() > 1 {
        let rest = segs.drop_last();
        assert forall|k: int| 0 <= k < rest.len() implies (#[trigger] rest[k]).len() > 0 by {
            assert(rest[k] == segs[k]);
        }
        lemma_spelled(rest);
        let closed = spelled(rest) + seq![Mark::Slash];
        assert(closed.drop_last() =~= spelled(rest));
        assert(rest.last() == segs[segs.len() - 2]);
        assert(rest.drop_last().push(rest.last()) =~= rest);
        assert(grouped(closed) == (rest, Seq::<Token>::empty()));
        lemma_grouped_parts(closed, segs.last());
        assert(Seq::<Token>::empty() + segs.last() =~= segs.last());
    }
    if segs.len() > 0 {
        assert(segs[segs.len() - 1].len() > 0);
        assert(segs.drop_last().push(segs.last()) =~= segs);
    }
}

proof fn lemma_spelled_on(a: Seq<Seq<Token>>, b: Seq<Seq<Token>>)
    requires
        a.len() > 0,
        b.len() > 0,
    ensures
        spelled(a + b) == spelled(a) + seq![Mark::Slash] + spelled(b),
    decreases b.len(),
{
    let all = a + b;
    assert(all.last() == b.last());
    if b.len() == 1 {
        assert(all.drop_last() =~= a);
        assert(b.last() == b[0]);
    } else {
        assert(all.drop_last() =~= a + b.drop_last());
        lemma_spelled_on(a, b.drop_last());
        assert(spelled(all) =~= spelled(a) + seq![Mark::Slash] + spelled(b));
    }
}

pub open spec fn field(var: Var, pad: usize) -> Token {
    Token::Field { var, pad }
}

pub open spec fn year_parts() -> Seq<Seq<Token>> {
    seq![seq![field(Var::Year, 0)]]
}

pub open spec fn month_parts() -> Seq<Seq<Token>> {
    seq![
        seq![field(Var::Year, 0)],
        seq![field(Var::Month, 2), Token::Char('-'), field(Var::MonthName, 0)],
    ]
}

pub open spec fn day_parts() -> Seq<Seq<Token>> {
    seq![seq![field(Var::Year, 0)], seq![field(Var::Month, 2)], seq![field(Var::Day, 2)]]
}

pub open spec fn week_parts() -> Seq<Seq<Token>> {
    seq![
        seq![field(Var::IsoYear, 0)],
        seq![
            field(Var::IsoYear, 0),
            Token::Char('-'),
            Token::Char('W'),
            field(Var::IsoWeek, 2),
        ],
    ]
}

pub open spec fn week_of_month_parts() -> Seq<Seq<Token>> {
    month_parts().push(seq![Token::Char('W'), field(Var::IsoWeek, 2)])
}

proof fn lemma_year_reads()
    ensures
        reads("{year}"@, spelled(year_parts())),
{
    lemma_variables();
    reveal_strlit("year");
    reveal_strlit("{year}");
    assert("{year}"@ =~= braced("year"@));
    assert(spelled(year_parts()) =~= seq![plainly(Var::Year)]);
}

proof fn lemma_month_reads()
    ensures
        reads("{year}/{month:02}-{month_name}"@, spelled(month_parts())),
{
    lemma_variables();
    lemma_char('/');
    lemma_char('-');
    let (year, month, name) = (braced("year"@), padded("month"@), braced("month_name"@));
    let (y, m, n) = (plainly(Var::Year), in_two_digits(Var::Month), plainly(Var::MonthName));
    let dash = Mark::Part(Token::Char('-'));
    lemma_reads_on(year, seq![y], seq!['/'], seq![Mark::Slash]);
    lemma_reads_on(year + seq!['/'], seq![y] + seq![Mark::Slash], month, seq![m]);
    let a = year + seq!['/'] + month;
    let x = seq![y] + seq![Mark::Slash] + seq![m];
    lemma_reads_on(a, x, seq!['-'], seq![dash]);
    lemma_reads_on(a + seq!['-'], x + seq![dash], name, seq![n]);
    reveal_strlit("year");
    reveal_strlit("month");
    reveal_strlit("month_name");
    reveal_strlit("{year}/{month:02}-{month_name}");
    assert("{year}/{month:02}-{month_name}"@ =~= a + seq!['-'] + name);
    let segs = month_parts();
    reveal_with_fuel(spelled, 2);
    assert(segs.drop_last() =~= year_parts());
    assert(spelled(segs) =~= x + seq![dash] + seq![n]);
}

proof fn lemma_day_reads()
    ensures
        reads("{year}/{month:02}/{day:02}"@, spelled(day_parts())),
{
    lemma_variables();
    lemma_char('/');
    let (year, month, day) = (braced("year"@), padded("month"@), padded("day"@));
    let (y, m, d) = (plainly(Var::Year), in_two_digits(Var::Month), in_two_digits(Var::Day));
    let slash = seq![Mark::Slash];
    lemma_reads_on(year, seq![y], seq!['/'], slash);
    lemma_reads_on(year + seq!['/'], seq![y] + slash, month, seq![m]);
    let a = year + seq!['/'] + month;
    let x = seq![y] + slash + seq![m];
    lemma_reads_on(a, x, seq!['/'], slash);
    lemma_reads_on(a + seq!['/'], x + slash, day, seq![d]);
    reveal_strlit("year");
    reveal_strlit("month");
    reveal_strlit("day");
    reveal_strlit("{year}/{month:02}/{day:02}");
    assert("{year}/{month:02}/{day:02}"@ =~= a + seq!['/'] + day);
    let segs = day_parts();
    let two = seq![segs[0], segs[1]];
    assert(segs.drop_last() =~= two);
    assert(two.drop_last() =~= year_parts());
    assert(spelled(year_parts()) =~= seq![y]);
    assert(parts(two.last()) =~= seq![m]);
    assert(spelled(two) =~= x);
    assert(spelled(segs) =~= x + slash + seq![d]);
}

proof fn lemma_week_reads()
    ensures
        reads("{iso_year}/{iso_year}-W{iso_week:02}"@, spelled(week_parts())),
{
    lemma_variables();
    lemma_char('/');
    lemma_char('-');
    lemma_char('W');
    let (year, week) = (braced("iso_year"@), padded("iso_week"@));
    let (y, w) = (plainly(Var::IsoYear), in_two_digits(Var::IsoWeek));
    let slash = seq![Mark::Slash];
    let dash = seq![Mark::Part(Token::Char('-'))];
    let letter = seq![Mark::Part(Token::Char('W'))];
    let a = year + seq!['/'];
    let b = a + year;
    let c = b + seq!['-'];
    let d = c + seq!['W'];
    let p = seq![y] + slash;
    let q = p + seq![y];
    lemma_reads_on(year, seq![y], seq!['/'], slash);
    lemma_reads_on(a, p, year, seq![y]);
    lemma_reads_on(b, q, seq!['-'], dash);
    lemma_reads_on(c, q + dash, seq!['W'], letter);
    lemma_reads_on(d, q + dash + letter, week, seq![w]);
    reveal_strlit("iso_year");
    reveal_strlit("iso_week");
    reveal_strlit("{iso_year}/{iso_year}-W{iso_week:02}");
    assert("{iso_year}/{iso_year}-W{iso_week:02}"@ =~= d + week);
    let segs = week_parts();
    let one = seq![segs[0]];
    assert(segs.drop_last() =~= one);
    assert(spelled(one) =~= seq![y]);
    assert(spelled(segs) =~= q + dash + letter + seq![w]);
}

proof fn lemma_week_of_month_reads()
    ensures
        reads("{year}/{month:02}-{month_name}/W{iso_week:02}"@, spelled(week_of_month_parts())),
{
    lemma_variables();
    lemma_char('/');
    lemma_char('W');
    lemma_month_reads();
    let (base, week) = ("{year}/{month:02}-{month_name}"@, padded("iso_week"@));
    let x = spelled(month_parts());
    let slash = seq![Mark::Slash];
    let letter = seq![Mark::Part(Token::Char('W'))];
    let w = seq![in_two_digits(Var::IsoWeek)];
    let a = base + seq!['/'];
    lemma_reads_on(base, x, seq!['/'], slash);
    lemma_reads_on(a, x + slash, seq!['W'], letter);
    lemma_reads_on(a + seq!['W'], x + slash + letter, week, w);
    reveal_strlit("iso_week");
    reveal_strlit("{year}/{month:02}-{month_name}");
    reveal_strlit("{year}/{month:02}-{month_name}/W{iso_week:02}");
    assert("{year}/{month:02}-{month_name}/W{iso_week:02}"@ =~= a + seq!['W'] + week);
    let segs = week_of_month_parts();
    assert(segs.drop_last() =~= month_parts());
    assert(spelled(segs) =~= x + slash + letter + w);
}

/// The path components of a preset.
pub open spec fn group_parts(group: Granularity) -> Seq<Seq<Token>> {
    match group {
        Granularity::Year => year_parts(),
        Granularity::Month | Granularity::Adaptive => month_parts(),
        Granularity::Week => week_parts(),
        Granularity::Day => day_parts(),
    }
}

/// The path components of a level of an adaptive layout.
pub open spec fn level_parts(level: Level) -> Seq<Seq<Token>> {
    match level {
        Level::Year => year_parts(),
        Level::Month => month_parts(),
        Level::Week => week_of_month_parts(),
    }
}

/// The path components that `--location` adds.
pub open spec fn place_parts(location: Option<LocationDepth>) -> Seq<Seq<Token>> {
    match location {
        None => seq![],
        Some(LocationDepth::Country) => seq![seq![field(Var::Country, 0)]],
        Some(LocationDepth::Region) => seq![
            seq![field(Var::Country, 0)],
            seq![field(Var::Region, 0)],
        ],
        Some(LocationDepth::City) => seq![
            seq![field(Var::Country, 0)],
            seq![field(Var::Region, 0)],
            seq![field(Var::City, 0)],
        ],
    }
}

proof fn lemma_places_read(depth: LocationDepth)
    ensures
        reads(depth.suffix(), spelled(place_parts(Some(depth)))),
{
    lemma_variables();
    lemma_char('/');
    reveal_strlit("country");
    reveal_strlit("region");
    reveal_strlit("city");
    reveal_strlit("{country}");
    reveal_strlit("{country}/{region}");
    reveal_strlit("{country}/{region}/{city}");
    let slash = seq![Mark::Slash];
    let (country, region, city) = (braced("country"@), braced("region"@), braced("city"@));
    let x = seq![plainly(Var::Country)];
    let y = seq![plainly(Var::Region)];
    let z = seq![plainly(Var::City)];
    lemma_reads_on(country, x, seq!['/'], slash);
    let a = country + seq!['/'];
    lemma_reads_on(a, x + slash, region, y);
    let b = a + region;
    lemma_reads_on(b, x + slash + y, seq!['/'], slash);
    lemma_reads_on(b + seq!['/'], x + slash + y + slash, city, z);
    assert("{country}"@ =~= country);
    assert("{country}/{region}"@ =~= b);
    assert("{country}/{region}/{city}"@ =~= b + seq!['/'] + city);
    let one = place_parts(Some(LocationDepth::Country));
    let two = place_parts(Some(LocationDepth::Region));
    let three = place_parts(Some(LocationDepth::City));
    assert(parts(one[0]) =~= x);
    assert(two.drop_last() =~= one);
    assert(parts(two.last()) =~= y);
    assert(three.drop_last() =~= two);
    assert(parts(three.last()) =~= z);
    assert(spelled(one) == x);
    assert(spelled(two) == x + slash + y);
    assert(spelled(three) == x + slash + y + slash + z);
}

proof fn lemma_expansion_reads(opts: Options, base: Seq<char>, segs: Seq<Seq<Token>>)
    requires
        opts.template is None,
        segs.len() > 0,
        forall|k: int| 0 <= k < segs.len() ==> (#[trigger] segs[k]).len() > 0,
        reads(base, spelled(segs)),
        parsed(opts.expansion(base)) is Ok,
    ensures
        parsed(opts.expansion(base)) == Ok::<Seq<Seq<Token>>, Flaw>(
            segs + place_parts(opts.location),
        ),
{
    let places = place_parts(opts.location);
    let all = segs + places;
    if let Some(depth) = opts.location {
        lemma_places_read(depth);
        lemma_char('/');
        lemma_reads_on(base, spelled(segs), seq!['/'], seq![Mark::Slash]);
        lemma_reads_on(
            base + seq!['/'],
            spelled(segs) + seq![Mark::Slash],
            depth.suffix(),
            spelled(places),
        );
        lemma_spelled_on(segs, places);
    } else {
        assert(all =~= segs);
    }
    assert forall|k: int| 0 <= k < all.len() implies (#[trigger] all[k]).len() > 0 by {
        if k < segs.len() {
            assert(all[k] == segs[k]);
        } else {
            assert(all[k] == places[k - segs.len()]);
        }
    }
    lemma_spelled(all);
    reveal(reads);
}

/// What every preset is made of, with the places that `--location` adds.
pub proof fn presets_have_their_parts(opts: Options, group: Granularity)
    requires
        opts.template is None,
    ensures
        parsed(opts.expansion(group.preset())) == Ok::<Seq<Seq<Token>>, Flaw>(
            group_parts(group) + place_parts(opts.location),
        ),
{
    presets_parse(opts, group);
    lemma_year_reads();
    lemma_month_reads();
    lemma_week_reads();
    lemma_day_reads();
    lemma_expansion_reads(opts, group.preset(), group_parts(group));
}

/// What every level of an adaptive layout is made of, with the places that `--location`
/// adds.
pub proof fn levels_have_their_parts(opts: Options, level: Level)
    requires
        opts.template is None,
    ensures
        parsed(opts.expansion(level.preset())) == Ok::<Seq<Seq<Token>>, Flaw>(
            level_parts(level) + place_parts(opts.location),
        ),
{
    levels_parse(opts, level);
    lemma_year_reads();
    lemma_month_reads();
    lemma_week_of_month_reads();
    lemma_expansion_reads(opts, level.preset(), level_parts(level));
}

} // verus!
